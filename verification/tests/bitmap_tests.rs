use std::collections::HashMap;

use led_maker::bitmap::{
    bitmap_to_matrix, codepoint_of_upper_key, glyph_from_rows, parse_bdf, parse_unifont_hex,
    text_to_matrix, GlyphMap,
};
use led_maker::font_preview::{
    bdf_font_name, matrix_has_visible_pixel, preview_led_options, preview_matrix,
    read_bdf_font_name,
};
use led_maker::matrix::{Matrix, Color, VerticalAlign};

const GLYPH_A: &str = "0000000018242442427E424242420000";

fn red() -> Color {
    Color([255, 0, 0])
}

fn lit(row: &str, color: Color) -> Vec<Option<Color>> {
    row.chars().map(|c| if c == '#' { Some(color) } else { None }).collect()
}

#[test]
fn bitmap_to_matrix_draws_8_wide_glyph() {
    let m = bitmap_to_matrix(GLYPH_A, red()).unwrap();
    assert_eq!(m.len(), 16);
    assert!(m.iter().all(|row| row.len() == 8));
    assert_eq!(m[0], lit("........", red()));
    assert_eq!(m[4], lit("...##...", red()));
    assert_eq!(m[9], lit(".######.", red()));
}

#[test]
fn bitmap_to_matrix_draws_16_wide_glyph() {
    let bits = format!("{}{}", "8001", "0000".repeat(15));
    let m = bitmap_to_matrix(&bits, red()).unwrap();
    assert_eq!(m.len(), 16);
    assert_eq!(m[0], lit("#..............#", red()));
    assert_eq!(m[1], lit("................", red()));
}

#[test]
fn bitmap_to_matrix_rejects_bad_bitmaps() {
    assert!(bitmap_to_matrix("00", red()).is_none());
    assert!(bitmap_to_matrix(&"0".repeat(33), red()).is_none());
    let bad_digit = format!("G0{}", "00".repeat(15));
    assert!(bitmap_to_matrix(&bad_digit, red()).is_none());
    let minus = format!("-1{}", "00".repeat(15));
    assert!(bitmap_to_matrix(&minus, red()).is_none());
    // 30 ASCII characters and one two-byte character make 32 bytes
    let non_ascii = format!("é{}", "0".repeat(30));
    assert_eq!(non_ascii.len(), 32);
    assert!(bitmap_to_matrix(&non_ascii, red()).is_none());
}

#[test]
fn bitmap_to_matrix_accepts_plus_sign_like_from_str_radix() {
    let bits = format!("+F{}", "00".repeat(15));
    let m = bitmap_to_matrix(&bits, red()).unwrap();
    assert_eq!(m[0], lit("....####", red()));
}

fn sample_glyphs() -> GlyphMap {
    let mut glyphs: GlyphMap = HashMap::new();
    glyphs.insert('A' as u32, GLYPH_A.to_string());
    glyphs.insert('B' as u32, "not a bitmap".to_string());
    glyphs
}

#[test]
fn text_to_matrix_concatenates_glyphs_and_skips_missing() {
    let glyphs = sample_glyphs();
    let m = text_to_matrix("AxA", &glyphs, red(), VerticalAlign::Top);
    assert_eq!(m.len(), 16);
    assert!(m.iter().all(|row| row.len() == 16));
    assert_eq!(m[4], lit("...##......##...", red()));
    let none = text_to_matrix("xB", &glyphs, red(), VerticalAlign::Top);
    assert!(none.is_empty());
}

#[test]
fn parse_unifont_hex_reads_codepoints() {
    let content = "0041:0000000018242442427E424242420000\n00e9: 00FF \n00041:FF\nZZ:00\nno colon here\n";
    let glyphs = parse_unifont_hex(content);
    assert_eq!(glyphs.len(), 2);
    assert_eq!(glyphs.get(&0x41).unwrap(), GLYPH_A);
    assert_eq!(glyphs.get(&0xE9).unwrap(), "00FF");
}

const SAMPLE_BDF: &str = "STARTFONT 2.1
FONT -test
FAMILY_NAME \"Test Font\"
CHARS 4
STARTCHAR A
ENCODING 65
BBX 8 16 0 -2
BITMAP
00
18
24
ENDCHAR
STARTCHAR zhong
ENCODING 20013
BBX 16 16 0 -2
BITMAP
ffff
8001
ENDCHAR
STARTCHAR noencoding
BBX 8 16 0 0
BITMAP
FF
ENDCHAR
STARTCHAR toowide
ENCODING 66
BBX 20 16 0 0
BITMAP
FFFFF
ENDCHAR
STARTCHAR nobox
ENCODING 67
BITMAP
f
ENDCHAR
ENDFONT
";

#[test]
fn parse_bdf_normalizes_rows() {
    let glyphs = parse_bdf(SAMPLE_BDF);
    assert_eq!(glyphs.len(), 3);
    assert_eq!(glyphs.get(&65).unwrap(), &format!("001824{}", "00".repeat(13)));
    assert_eq!(glyphs.get(&20013).unwrap(), &format!("FFFF8001{}", "0000".repeat(14)));
    assert_eq!(glyphs.get(&67).unwrap(), &format!("0F{}", "00".repeat(15)));
    assert!(glyphs.get(&66).is_none());
}

#[test]
fn parse_bdf_ignores_negative_encoding_and_unfinished_glyphs() {
    let content = "STARTCHAR x\nENCODING -1\nBITMAP\nFF\nENDCHAR\nSTARTCHAR y\nENCODING 70\nBITMAP\nFF\n";
    let glyphs = parse_bdf(content);
    assert!(glyphs.is_empty());
}

#[test]
fn parse_bdf_then_text_bottom_aligns_glyphs() {
    let glyphs = parse_bdf(SAMPLE_BDF);
    let m: Matrix = text_to_matrix("A中", &glyphs, red(), VerticalAlign::Bottom);
    assert_eq!(m.len(), 16);
    assert!(m.iter().all(|row| row.len() == 24));
    assert_eq!(m[13], lit("........................", red()));
    assert_eq!(m[14], lit("...##...################", red()));
    assert_eq!(m[15], lit("..#..#..#..............#", red()));
}

#[test]
fn read_bdf_font_name_takes_first_family_name() {
    assert_eq!(read_bdf_font_name(SAMPLE_BDF), Some("Test Font".to_string()));
    assert_eq!(
        read_bdf_font_name("  FAMILY_NAME   \"\"Quoted\"  \nFAMILY_NAME Other\n"),
        Some("Quoted".to_string())
    );
    assert_eq!(read_bdf_font_name("FONT x\n"), None);
}

#[test]
fn preview_matrix_needs_visible_pixels() {
    let glyphs = parse_bdf(SAMPLE_BDF);
    let preview = preview_matrix(&glyphs).unwrap();
    assert_eq!(preview.len(), 16);
    assert!(matrix_has_visible_pixel(&preview));
    let empty: GlyphMap = HashMap::new();
    assert!(preview_matrix(&empty).is_none());
    let black: Matrix = vec![vec![Some(Color([0, 0, 0])), None]];
    assert!(!matrix_has_visible_pixel(&black));
    let o = preview_led_options();
    assert_eq!((o.led_size, o.spacing, o.off_color, o.bg_color), (8, 2, [35, 8, 8], [8, 2, 2]));
}

#[test]
fn text_to_matrix_skipped_chars_leave_no_trace() {
    let glyphs = sample_glyphs();
    for align in [VerticalAlign::Top, VerticalAlign::Center, VerticalAlign::Bottom] {
        let with_gaps = text_to_matrix("xAB?A", &glyphs, red(), align);
        let drawn_only = text_to_matrix("AA", &glyphs, red(), align);
        assert_eq!(with_gaps, drawn_only);
    }
}

#[test]
fn parse_bdf_glyphs_can_all_be_drawn() {
    let glyphs = parse_bdf(SAMPLE_BDF);
    assert!(!glyphs.is_empty());
    for bitmap in glyphs.values() {
        let m = bitmap_to_matrix(bitmap, red()).unwrap();
        assert_eq!(m.len(), 16);
        let w = m[0].len();
        assert!(w == 8 || w == 16);
        assert!(m.iter().all(|row| row.len() == w));
    }
}

#[test]
fn codepoint_of_upper_key_accepts_format_spelling_only() {
    assert_eq!(codepoint_of_upper_key("0041"), Some(0x41));
    assert_eq!(codepoint_of_upper_key("4E2D"), Some(0x4E2D));
    assert_eq!(codepoint_of_upper_key("1F600"), Some(0x1F600));
    assert_eq!(codepoint_of_upper_key("41"), None);
    assert_eq!(codepoint_of_upper_key("00041"), None);
    assert_eq!(codepoint_of_upper_key("00e9"), None);
    assert_eq!(codepoint_of_upper_key("FFFFFFFFF"), None);
}

#[test]
fn glyph_from_rows_pads_rows_to_the_box() {
    let rows = vec!["F".to_string(), "18".to_string()];
    assert_eq!(
        glyph_from_rows(Some(65), Some(8), &rows),
        Some((65, format!("0F18{}", "00".repeat(14))))
    );
    assert_eq!(
        glyph_from_rows(Some(66), Some(16), &rows),
        Some((66, format!("000F0018{}", "0000".repeat(14))))
    );
    let wide = vec!["ABC".to_string()];
    assert_eq!(
        glyph_from_rows(Some(67), None, &wide),
        Some((67, format!("0ABC{}", "0000".repeat(15))))
    );
    assert_eq!(glyph_from_rows(None, Some(8), &rows), None);
    assert_eq!(glyph_from_rows(Some(65), Some(8), &Vec::new()), None);
    assert_eq!(
        glyph_from_rows(Some(65), Some(8), &wide),
        Some((65, format!("0ABC{}", "0000".repeat(15))))
    );
    assert_eq!(glyph_from_rows(Some(65), Some(20), &rows), None);
    assert_eq!(glyph_from_rows(Some(65), None, &vec!["FFFFF".to_string()]), None);
}

#[test]
fn parse_bdf_uppercases_lowercase_rows() {
    let content = "STARTCHAR a\nENCODING 97\nBITMAP\nab\nENDCHAR\n";
    let glyphs = parse_bdf(content);
    assert_eq!(glyphs.get(&97).unwrap(), &format!("AB{}", "00".repeat(15)));
}

#[test]
fn bdf_font_name_falls_back_to_stem_then_default() {
    assert_eq!(bdf_font_name(Some("Fam".to_string()), Some("file".to_string())), "Fam");
    assert_eq!(bdf_font_name(None, Some("file".to_string())), "file");
    assert_eq!(bdf_font_name(None, None), "Unnamed BDF Font");
}
