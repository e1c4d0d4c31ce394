use vstd::prelude::*;
use vstd::string::*;
use crate::bitmap::{glyph_table, text_grid, text_to_matrix, GlyphMap};
use crate::led_image::LedRenderOptions;
use crate::matrix::{grid, is_visible, Grid, Matrix, Color, VerticalAlign};
use crate::text::{
    chars_of, find_in_range, fold_lines, lemma_fold_lines_unfold, range_starts_with, starts_with,
    string_from_range, trim, trim_range,
};

verus! {

/// The text a font's preview shows.
pub const PREVIEW_TEXT: &'static str = "字A";

/// The colour a font's preview is drawn in.
pub open spec fn preview_color() -> Color {
    Color([255u8, 80u8, 80u8])
}

// ---------------------------------------------------------------------------
// Font names
// ---------------------------------------------------------------------------

/// `s` without its leading `'"'`s.
pub open spec fn trim_quotes_start(s: Seq<char>) -> Seq<char>
    decreases s.len(),
{
    if s.len() > 0 && s[0] == '"' {
        trim_quotes_start(s.drop_first())
    } else {
        s
    }
}

/// `s` without its trailing `'"'`s.
pub open spec fn trim_quotes_end(s: Seq<char>) -> Seq<char>
    decreases s.len(),
{
    if s.len() > 0 && s.last() == '"' {
        trim_quotes_end(s.drop_last())
    } else {
        s
    }
}

/// `s` without leading and trailing `'"'`s (`trim_matches('"')`).
pub open spec fn trim_quotes(s: Seq<char>) -> Seq<char> {
    trim_quotes_end(trim_quotes_start(s))
}

/// The family name a line declares: a trimmed line that starts with
/// `FAMILY_NAME ` declares the rest, trimmed and unquoted.
pub open spec fn family_name_of_line(line: Seq<char>) -> Option<Seq<char>> {
    let t = trim(line);
    if starts_with(t, "FAMILY_NAME "@) {
        Some(trim_quotes(trim(t.skip("FAMILY_NAME "@.len() as int))))
    } else {
        None
    }
}

pub open spec fn family_step() -> spec_fn(Option<Seq<char>>, Seq<char>) -> Option<Seq<char>> {
    |found: Option<Seq<char>>, line: Seq<char>|
        if found is Some {
            found
        } else {
            family_name_of_line(line)
        }
}

/// The family name that the first `FAMILY_NAME` line of a BDF file declares.
pub open spec fn bdf_family_name(content: Seq<char>) -> Option<Seq<char>> {
    fold_lines(None, content, family_step())
}

/// The bounds of `v[lo..hi]` without leading and trailing `'"'`s.
fn trim_quotes_range(v: &Vec<char>, lo: usize, hi: usize) -> (r: (usize, usize))
    requires
        lo <= hi <= v.len(),
    ensures
        lo <= r.0 <= r.1 <= hi,
        v@.subrange(r.0 as int, r.1 as int) == trim_quotes(v@.subrange(lo as int, hi as int)),
{
    let mut a = lo;
    while a < hi && v[a] == '"'
        invariant
            lo <= a <= hi <= v.len(),
            trim_quotes_start(v@.subrange(lo as int, hi as int)) == trim_quotes_start(
                v@.subrange(a as int, hi as int),
            ),
        decreases hi - a,
    {
        assert(v@.subrange(a as int, hi as int).drop_first() =~= v@.subrange(a + 1, hi as int));
        a = a + 1;
    }
    let mut b = hi;
    while b > a && v[b - 1] == '"'
        invariant
            lo <= a <= b <= hi <= v.len(),
            a < hi ==> v@[a as int] != '"',
            trim_quotes(v@.subrange(lo as int, hi as int)) == trim_quotes_end(
                v@.subrange(a as int, b as int),
            ),
        decreases b - a,
    {
        assert(v@.subrange(a as int, b as int).drop_last() =~= v@.subrange(a as int, b - 1));
        b = b - 1;
    }
    (a, b)
}

/// The family name a BDF font declares (see `bdf_family_name`).
pub fn read_bdf_font_name(content: &str) -> (r: Option<String>)
    ensures
        match bdf_family_name(content@) {
            Some(n) => r matches Some(s) && s@ == n,
            None => r is None,
        },
{
    let chars = chars_of(content);
    let n = chars.len();
    let mut found: Option<String> = None;
    let ghost found_view: Option<Seq<char>> = None;
    assert(chars@.skip(0) =~= chars@);
    let mut pos: usize = 0;
    while pos < n
        invariant
            pos <= n == chars.len(),
            chars@ == content@,
            found_view == match found {
                Some(s) => Some(s@),
                None => None,
            },
            bdf_family_name(content@) == fold_lines(
                found_view,
                chars@.skip(pos as int),
                family_step(),
            ),
        decreases n - pos,
    {
        let end = find_in_range(&chars, pos, n, '\n');
        proof {
            lemma_fold_lines_unfold(found_view, chars@, pos as int, end as int, family_step());
        }
        if found.is_none() {
            let (a, b) = trim_range(&chars, pos, end);
            let prefix_len = "FAMILY_NAME ".unicode_len();
            if range_starts_with(&chars, a, b, "FAMILY_NAME ") {
                let ghost t = chars@.subrange(a as int, b as int);
                assert(t.skip(prefix_len as int) =~= chars@.subrange(a + prefix_len, b as int));
                let (c, d) = trim_range(&chars, a + prefix_len, b);
                let (e, f) = trim_quotes_range(&chars, c, d);
                found = Some(string_from_range(&chars, e, f));
                proof {
                    found_view = Some(chars@.subrange(e as int, f as int));
                }
            }
        }
        pos = if end < n {
            end + 1
        } else {
            n
        };
    }
    assert(chars@.skip(n as int) =~= Seq::<char>::empty());
    found
}

/// The name a BDF font is listed under: the family name it declares, else
/// its file's stem, else "Unnamed BDF Font".
pub open spec fn bdf_font_name_of(family: Option<Seq<char>>, stem: Option<Seq<char>>) -> Seq<
    char,
> {
    match family {
        Some(f) => f,
        None => match stem {
            Some(s) => s,
            None => "Unnamed BDF Font"@,
        },
    }
}

/// The name a BDF font is listed under (see `bdf_font_name_of`).
pub fn bdf_font_name(family: Option<String>, stem: Option<String>) -> (r: String)
    ensures
        r@ == bdf_font_name_of(
            match family {
                Some(f) => Some(f@),
                None => None,
            },
            match stem {
                Some(s) => Some(s@),
                None => None,
            },
        ),
{
    match family {
        Some(f) => f,
        None => match stem {
            Some(s) => s,
            None => {
                let v = chars_of("Unnamed BDF Font");
                string_from_range(&v, 0, v.len())
            },
        },
    }
}

// ---------------------------------------------------------------------------
// Previews
// ---------------------------------------------------------------------------

/// Some pixel of the grid is lit in a colour other than black.
pub open spec fn has_visible_pixel(g: Grid) -> bool {
    exists|y: int, x: int| 0 <= y < g.len() && 0 <= x < g[y].len() && is_visible(#[trigger] g[y][x])
}

/// Whether some pixel is lit in a colour other than black.
pub fn matrix_has_visible_pixel(matrix: &Matrix) -> (b: bool)
    ensures
        b == has_visible_pixel(grid(*matrix)),
{
    let ghost g = grid(*matrix);
    let mut y: usize = 0;
    while y < matrix.len()
        invariant
            y <= matrix.len(),
            g == grid(*matrix),
            forall|yy: int, xx: int|
                0 <= yy < y && 0 <= xx < g[yy].len() ==> !is_visible(#[trigger] g[yy][xx]),
        decreases matrix.len() - y,
    {
        let row = &matrix[y];
        let mut x: usize = 0;
        while x < row.len()
            invariant
                x <= row.len(),
                y < g.len(),
                g == grid(*matrix),
                row@ == g[y as int],
                forall|xx: int| 0 <= xx < x ==> !is_visible(#[trigger] row@[xx]),
            decreases row.len() - x,
        {
            match row[x] {
                Some(c) => {
                    if c.0[0] != 0 || c.0[1] != 0 || c.0[2] != 0 {
                        assert(g[y as int][x as int] == row@[x as int]);
                        return true;
                    }
                },
                None => {},
            }
            x = x + 1;
        }
        y = y + 1;
    }
    false
}

/// What a font's preview shows: the preview text in the font, bottom-aligned
/// in the preview colour, if anything of it shows.
pub fn preview_matrix(glyphs: &GlyphMap) -> (r: Option<Matrix>)
    ensures
        ({
            let g = text_grid(
                PREVIEW_TEXT@,
                glyph_table(*glyphs),
                preview_color(),
                VerticalAlign::Bottom,
            );
            if has_visible_pixel(g) {
                r matches Some(m) && grid(m) == g
            } else {
                r is None
            }
        }),
{
    let m = text_to_matrix(PREVIEW_TEXT, glyphs, Color([255, 80, 80]), VerticalAlign::Bottom);
    if matrix_has_visible_pixel(&m) {
        Some(m)
    } else {
        None
    }
}

/// How a font's preview is drawn: small LEDs, close together, dim.
pub fn preview_led_options() -> (o: LedRenderOptions)
    ensures
        o.led_size == 8,
        o.spacing == 2,
        o.off_color == [35u8, 8u8, 8u8],
        o.bg_color == [8u8, 2u8, 2u8],
{
    LedRenderOptions { led_size: 8, spacing: 2, off_color: [35, 8, 8], bg_color: [8, 2, 2] }
}

} // verus!
