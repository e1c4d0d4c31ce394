use std::collections::HashMap;
use vstd::prelude::*;
use vstd::utf8::*;
use crate::matrix::{concat_grids, concat_horizontal_aligned, grid, Grid, Matrix, Color, VerticalAlign};
use crate::text::{
    ascii_upper_char, chars_of, find_char, hex_digit, hex_u32_range, find_in_range, first_word,
    fold_lines, hex_value, lemma_find_char_range, lemma_fold_lines_unfold, split_first_line,
    parse_hex_u16, parse_hex_u16_range, parse_i32, parse_i32_range, parse_usize, parse_usize_range,
    range_equals, range_starts_with, skip_spaces, starts_with, string_from_range, uppercase_of,
    to_uppercase, trim, trim_range, word_end, word_len,
};

verus! {

broadcast use vstd::std_specs::hash::group_hash_axioms;

/// Glyphs are this many rows tall.
pub const GLYPH_HEIGHT: usize = 16;

/// Glyph bitmaps by codepoint: each bitmap is 16 rows of 2 or 4 hex digits,
/// written one after the other.
pub type GlyphMap = HashMap<u32, String>;

/// The bitmaps that a glyph map holds, by codepoint.
pub open spec fn glyph_table(m: GlyphMap) -> Map<u32, Seq<char>> {
    Map::new(|k: u32| m@.contains_key(k), |k: u32| m@[k]@)
}

// ---------------------------------------------------------------------------
// Bitmaps to matrices
// ---------------------------------------------------------------------------

/// Bit `b` of `v` is set.
pub open spec fn bit_set(v: u16, b: u16) -> bool {
    (v >> b) & 1u16 == 1u16
}

/// The number of hex digits per row of a bitmap: 2 for 32 digits, 4 for 64.
pub open spec fn row_hex_len(bits: Seq<char>) -> int {
    if bits.len() == 32 {
        2
    } else {
        4
    }
}

/// The hex digits of row `y` of a bitmap.
pub open spec fn bitmap_row_digits(bits: Seq<char>, y: int) -> Seq<char> {
    let n = row_hex_len(bits);
    bits.subrange(y * n, y * n + n)
}

/// A bitmap reads as a glyph: it is ASCII, 32 or 64 characters long, and
/// each row's digits parse as a `u16` in base 16.
pub open spec fn bitmap_is_valid(bits: Seq<char>) -> bool {
    &&& is_ascii_chars(bits)
    &&& (bits.len() == 32 || bits.len() == 64)
    &&& forall|y: int|
        0 <= y < 16 ==> #[trigger] parse_hex_u16(bitmap_row_digits(bits, y)) is Some
}

/// The glyph a bitmap draws in `color`: 16 rows of 8 (or 16) pixels, pixel
/// `x` lit where bit `width - 1 - x` of the row's value is set, else
/// transparent. `None` when the bitmap does not read as a glyph.
pub open spec fn glyph_grid(bits: Seq<char>, color: Color) -> Option<Grid> {
    if bitmap_is_valid(bits) {
        let width = row_hex_len(bits) * 4;
        Some(
            Seq::new(
                16,
                |y: int|
                    Seq::new(
                        width as nat,
                        |x: int|
                            if bit_set(
                                parse_hex_u16(bitmap_row_digits(bits, y))->0,
                                (width - 1 - x) as u16,
                            ) {
                                Some(color)
                            } else {
                                None
                            },
                    ),
            ),
        )
    } else {
        None
    }
}

/// The pixels of one glyph row.
fn glyph_row(value: u16, width: usize, color: Color) -> (row: Vec<Option<Color>>)
    requires
        width == 8 || width == 16,
    ensures
        row@ == Seq::new(
            width as nat,
            |x: int|
                if bit_set(value, (width - 1 - x) as u16) {
                    Some(color)
                } else {
                    None
                },
        ),
{
    let mut row: Vec<Option<Color>> = Vec::new();
    let mut x: usize = 0;
    while x < width
        invariant
            x <= width,
            width == 8 || width == 16,
            row.len() == x,
            forall|k: int|
                0 <= k < x ==> #[trigger] row@[k] == if bit_set(value, (width - 1 - k) as u16) {
                    Some(color)
                } else {
                    None
                },
        decreases width - x,
    {
        let bit_index: u16 = (width - 1 - x) as u16;
        let bit = ((value >> bit_index) & 1) as u8;
        let pixel = if bit == 1 {
            Some(color)
        } else {
            None
        };
        assert(bit == 1 <==> bit_set(value, bit_index)) by (bit_vector)
            requires
                bit == ((value >> bit_index) & 1) as u8,
        ;
        row.push(pixel);
        x = x + 1;
    }
    assert(row@ =~= Seq::new(
        width as nat,
        |x: int|
            if bit_set(value, (width - 1 - x) as u16) {
                Some(color)
            } else {
                None
            },
    ));
    row
}

/// The glyph that a bitmap of 16 rows of 2 (or 4) hex digits draws in
/// `color`, lit where a bit is set; `None` when the bitmap does not read as
/// one (see `glyph_grid`).
pub fn bitmap_to_matrix(bitmap: &str, color: Color) -> (r: Option<Matrix>)
    ensures
        match r {
            Some(m) => glyph_grid(bitmap@, color) == Some(grid(m)),
            None => glyph_grid(bitmap@, color) is None,
        },
{
    if !bitmap.is_ascii() {
        return None;
    }
    let bits = chars_of(bitmap);
    let (width, row_hex) = if bits.len() == 32 {
        (8usize, 2usize)
    } else if bits.len() == 64 {
        (16usize, 4usize)
    } else {
        return None;
    };
    let ghost want = glyph_grid(bits@, color);
    let mut matrix: Matrix = Vec::new();
    let mut y: usize = 0;
    while y < GLYPH_HEIGHT
        invariant
            y <= 16,
            bits@ == bitmap@,
            is_ascii_chars(bits@),
            bits.len() == 32 || bits.len() == 64,
            row_hex == row_hex_len(bits@),
            width == row_hex * 4,
            matrix.len() == y,
            forall|k: int|
                0 <= k < y ==> #[trigger] parse_hex_u16(bitmap_row_digits(bits@, k)) is Some,
            forall|k: int|
                0 <= k < y ==> (#[trigger] matrix@[k])@ == Seq::new(
                    width as nat,
                    |x: int|
                        if bit_set(
                            parse_hex_u16(bitmap_row_digits(bits@, k))->0,
                            (width - 1 - x) as u16,
                        ) {
                            Some(color)
                        } else {
                            None
                        },
                ),
        decreases 16 - y,
    {
        let start = y * row_hex;
        let end = start + row_hex;
        let value = match parse_hex_u16_range(&bits, start, end) {
            Some(v) => v,
            None => {
                assert(!bitmap_is_valid(bits@)) by {
                    assert(parse_hex_u16(bitmap_row_digits(bits@, y as int)) is None);
                }
                return None;
            },
        };
        let row = glyph_row(value, width, color);
        matrix.push(row);
        y = y + 1;
    }
    assert(bitmap_is_valid(bits@));
    assert(grid(matrix) =~= want->0);
    Some(matrix)
}

/// The glyph that `glyphs` gives for `c` in `color`, if it has one that reads.
pub open spec fn char_glyph(c: char, glyphs: Map<u32, Seq<char>>, color: Color) -> Option<Grid> {
    if glyphs.contains_key(c as u32) {
        glyph_grid(glyphs[c as u32], color)
    } else {
        None
    }
}

/// The glyphs of `chars` concatenated left to right with `align`; characters
/// without a readable glyph are skipped.
pub open spec fn text_grid(
    chars: Seq<char>,
    glyphs: Map<u32, Seq<char>>,
    color: Color,
    align: VerticalAlign,
) -> Grid
    decreases chars.len(),
{
    if chars.len() == 0 {
        Seq::empty()
    } else {
        let prev = text_grid(chars.drop_last(), glyphs, color, align);
        match char_glyph(chars.last(), glyphs, color) {
            Some(g) => concat_grids(prev, g, align),
            None => prev,
        }
    }
}

/// The glyph for `c`, if the map has one that reads.
fn lookup_glyph(c: char, glyphs: &GlyphMap, color: Color) -> (r: Option<Matrix>)
    ensures
        match r {
            Some(m) => char_glyph(c, glyph_table(*glyphs), color) == Some(grid(m)),
            None => char_glyph(c, glyph_table(*glyphs), color) is None,
        },
{
    let key: u32 = c as u32;
    match glyphs.get(&key) {
        Some(bitmap) => bitmap_to_matrix(bitmap.as_str(), color),
        None => None,
    }
}

/// `text` drawn with `glyphs` in `color`, one glyph after the other aligned
/// by `align`; characters without a readable glyph are skipped.
pub fn text_to_matrix(text: &str, glyphs: &GlyphMap, color: Color, align: VerticalAlign) -> (m:
    Matrix)
    ensures
        grid(m) == text_grid(text@, glyph_table(*glyphs), color, align),
{
    let chars = chars_of(text);
    let mut merged: Matrix = Vec::new();
    let mut i: usize = 0;
    assert(grid(merged) =~= Seq::empty());
    while i < chars.len()
        invariant
            i <= chars.len(),
            chars@ == text@,
            grid(merged) == text_grid(chars@.take(i as int), glyph_table(*glyphs), color, align),
        decreases chars.len() - i,
    {
        assert(chars@.take(i + 1).drop_last() =~= chars@.take(i as int));
        match lookup_glyph(chars[i], glyphs, color) {
            Some(g) => {
                merged = concat_horizontal_aligned(&merged, &g, align);
            },
            None => {},
        }
        i = i + 1;
    }
    assert(chars@.take(chars.len() as int) =~= chars@);
    merged
}


// ---------------------------------------------------------------------------
// Unifont .hex files
// ---------------------------------------------------------------------------

/// An uppercase hex digit.
pub open spec fn is_upper_hex(c: char) -> bool {
    ('0' <= c <= '9') || ('A' <= c <= 'F')
}

/// The codepoint that `k` names as `format!("{:04X}", cp)` spells it: at
/// least four uppercase hex digits, with no leading zero beyond four, and a
/// value that fits in a `u32`. Other keys name no codepoint: characters are
/// looked up by that spelling of their codepoint, so an entry under any
/// other key could never be found (see `lemma_codepoint_key_is_format`).
pub open spec fn codepoint_of_key(k: Seq<char>) -> Option<u32> {
    if k.len() >= 4 && (forall|i: int| 0 <= i < k.len() ==> is_upper_hex(#[trigger] k[i])) && (
    k.len() > 4 ==> k[0] != '0') && hex_value(k)->0 <= u32::MAX {
        Some(hex_value(k)->0 as u32)
    } else {
        None
    }
}

/// One line of a `.hex` file, `codepoint:bitmap`: the bitmap (trimmed) is
/// stored under the codepoint that the uppercased key names.
pub open spec fn unifont_line(m: Map<u32, Seq<char>>, line: Seq<char>) -> Map<u32, Seq<char>> {
    match find_char(line, ':') {
        Some(i) => match codepoint_of_key(uppercase_of(line.take(i))) {
            Some(cp) => m.insert(cp, trim(line.skip(i + 1))),
            None => m,
        },
        None => m,
    }
}

pub open spec fn unifont_step() -> spec_fn(Map<u32, Seq<char>>, Seq<char>) -> Map<u32, Seq<char>> {
    |m: Map<u32, Seq<char>>, line: Seq<char>| unifont_line(m, line)
}

/// The glyphs of a `.hex` file, later lines winning.
pub open spec fn unifont_glyphs(content: Seq<char>) -> Map<u32, Seq<char>> {
    fold_lines(Map::empty(), content, unifont_step())
}

/// The codepoint that an uppercased `.hex` key names, if it is how
/// `format!("{:04X}", cp)` spells one (see `codepoint_of_key`).
pub fn codepoint_of_upper_key(key: &str) -> (r: Option<u32>)
    ensures
        r == codepoint_of_key(key@),
{
    let chars = chars_of(key);
    key_codepoint(&chars)
}

/// The codepoint that the characters of `v` name (see `codepoint_of_key`).
fn key_codepoint(v: &Vec<char>) -> (r: Option<u32>)
    ensures
        r == codepoint_of_key(v@),
{
    let n = v.len();
    if n < 4 {
        return None;
    }
    let mut i: usize = 0;
    while i < n
        invariant
            i <= n == v.len(),
            forall|k: int| 0 <= k < i ==> is_upper_hex(#[trigger] v@[k]),
        decreases n - i,
    {
        let c = v[i];
        if !(('0' <= c && c <= '9') || ('A' <= c && c <= 'F')) {
            return None;
        }
        i = i + 1;
    }
    if n > 4 && v[0] == '0' {
        return None;
    }
    assert(v@.subrange(0, n as int) =~= v@);
    proof {
        lemma_upper_hex_value(v@);
    }
    hex_u32_range(v, 0, n)
}

proof fn lemma_upper_hex_value(k: Seq<char>)
    requires
        forall|i: int| 0 <= i < k.len() ==> is_upper_hex(#[trigger] k[i]),
    ensures
        hex_value(k) is Some,
    decreases k.len(),
{
    if k.len() > 0 {
        let d = k.drop_last();
        assert forall|i: int| 0 <= i < d.len() implies is_upper_hex(#[trigger] d[i]) by {
            assert(d[i] == k[i]);
        }
        lemma_upper_hex_value(d);
        assert(is_upper_hex(k.last()));
    }
}

/// Stores `bitmap` for `cp` in `glyphs`.
fn insert_glyph(glyphs: &mut GlyphMap, cp: u32, bitmap: String)
    ensures
        glyph_table(*final(glyphs)) == glyph_table(*old(glyphs)).insert(cp, bitmap@),
{
    let ghost b = bitmap@;
    glyphs.insert(cp, bitmap);
    assert(glyph_table(*glyphs) =~= glyph_table(*old(glyphs)).insert(cp, b));
}

/// The glyphs of the content of a Unifont `.hex` file (see `unifont_glyphs`).
pub fn parse_unifont_hex(content: &str) -> (glyphs: GlyphMap)
    ensures
        glyph_table(glyphs) == unifont_glyphs(content@),
{
    let chars = chars_of(content);
    let n = chars.len();
    let mut glyphs: GlyphMap = HashMap::new();
    assert(glyph_table(glyphs) =~= Map::empty());
    assert(chars@.skip(0) =~= chars@);
    let mut pos: usize = 0;
    while pos < n
        invariant
            pos <= n == chars.len(),
            chars@ == content@,
            unifont_glyphs(content@) == fold_lines(
                glyph_table(glyphs),
                chars@.skip(pos as int),
                unifont_step(),
            ),
        decreases n - pos,
    {
        let end = find_in_range(&chars, pos, n, '\n');
        proof {
            lemma_fold_lines_unfold(glyph_table(glyphs), chars@, pos as int, end as int, unifont_step());
        }
        let ghost line = chars@.subrange(pos as int, end as int);
        let ghost before = glyph_table(glyphs);
        let colon = find_in_range(&chars, pos, end, ':');
        if colon < end {
            assert(line.take(colon - pos) =~= chars@.subrange(pos as int, colon as int));
            assert(line.skip(colon - pos + 1) =~= chars@.subrange(colon + 1, end as int));
            let key = string_from_range(&chars, pos, colon);
            let upper = to_uppercase(key.as_str());
            match codepoint_of_upper_key(upper.as_str()) {
                Some(cp) => {
                    let (a, b) = trim_range(&chars, colon + 1, end);
                    let bitmap = string_from_range(&chars, a, b);
                    insert_glyph(&mut glyphs, cp, bitmap);
                },
                None => {},
            }
        }
        assert(glyph_table(glyphs) == unifont_line(before, line));
        pos = if end < n {
            end + 1
        } else {
            n
        };
    }
    assert(chars@.skip(n as int) =~= Seq::<char>::empty());
    glyphs
}

// ---------------------------------------------------------------------------
// BDF fonts
// ---------------------------------------------------------------------------

/// Where a BDF scan stands: the glyphs so far, and what has been read of
/// the glyph being described.
pub ghost struct BdfScan {
    pub glyphs: Map<u32, Seq<char>>,
    pub encoding: Option<u32>,
    pub bbx_width: Option<usize>,
    pub in_bitmap: bool,
    pub rows: Seq<Seq<char>>,
}

/// A scan that forgets the glyph being described.
pub open spec fn bdf_reset(glyphs: Map<u32, Seq<char>>) -> BdfScan {
    BdfScan { glyphs, encoding: None, bbx_width: None, in_bitmap: false, rows: Seq::empty() }
}

/// The length of `r` in UTF-8 bytes, as `str::len` reports it.
pub open spec fn byte_len(r: Seq<char>) -> int {
    (encode_utf8(r).len() as usize) as int
}

/// The longest UTF-8 byte length of the rows, 0 for none.
pub open spec fn max_byte_len(rows: Seq<Seq<char>>) -> int
    decreases rows.len(),
{
    if rows.len() == 0 {
        0
    } else {
        let m = max_byte_len(rows.drop_last());
        let l = byte_len(rows.last());
        if l > m {
            l
        } else {
            m
        }
    }
}

/// `n` zero digits.
pub open spec fn zeros(n: int) -> Seq<char> {
    Seq::new(n as nat, |i: int| '0')
}

/// `r` padded on the left with zeros to `t` characters (`{:0>t$}`).
pub open spec fn pad_left(r: Seq<char>, t: int) -> Seq<char> {
    if r.len() >= t {
        r
    } else {
        zeros(t - r.len()) + r
    }
}

/// Row `i` of a normalized bitmap: the padded source row, or zeros.
pub open spec fn normalized_row(rows: Seq<Seq<char>>, t: int, i: int) -> Seq<char> {
    if i < rows.len() {
        pad_left(rows[i], t)
    } else {
        zeros(t)
    }
}

/// The first `k` normalized rows, one after the other.
pub open spec fn normalized_prefix(rows: Seq<Seq<char>>, t: int, k: int) -> Seq<char>
    decreases k,
{
    if k <= 0 {
        Seq::empty()
    } else {
        normalized_prefix(rows, t, k - 1) + normalized_row(rows, t, k - 1)
    }
}

/// Hex digits per row for a glyph: 2 where the box is at most 8 wide and the
/// rows at most 2 bytes, 4 where at most 16 wide and 4 bytes; without a box,
/// by the rows alone.
pub open spec fn target_hex_len(bbx_width: Option<usize>, max_len: int) -> Option<int> {
    match bbx_width {
        Some(w) => if w <= 8 && max_len <= 2 {
            Some(2)
        } else if w <= 16 && max_len <= 4 {
            Some(4)
        } else {
            None
        },
        None => if max_len <= 2 {
            Some(2)
        } else if max_len <= 4 {
            Some(4)
        } else {
            None
        },
    }
}

/// The glyph that `rows` describe under `encoding` with box width
/// `bbx_width`: its first 16 rows padded on the left with zeros to the same
/// number of digits, one after the other, under its codepoint. `None` when
/// it has no encoding, no rows, a row longer than 4 bytes, or rows too long
/// for its box.
pub open spec fn bdf_glyph(
    encoding: Option<u32>,
    bbx_width: Option<usize>,
    rows: Seq<Seq<char>>,
) -> Option<(u32, Seq<char>)> {
    match encoding {
        None => None,
        Some(cp) => if rows.len() == 0 || max_byte_len(rows) > 4 {
            None
        } else {
            match target_hex_len(bbx_width, max_byte_len(rows)) {
                Some(t) => Some((cp, normalized_prefix(rows, t, 16))),
                None => None,
            }
        },
    }
}

/// The glyphs after the glyph being described ends: it is stored, if it
/// makes one (see `bdf_glyph`).
pub open spec fn bdf_flush(st: BdfScan) -> Map<u32, Seq<char>> {
    match bdf_glyph(st.encoding, st.bbx_width, st.rows) {
        Some((cp, bitmap)) => st.glyphs.insert(cp, bitmap),
        None => st.glyphs,
    }
}

/// One line of a BDF file, trimmed, read in the scan `st`.
pub open spec fn bdf_line(st: BdfScan, raw: Seq<char>) -> BdfScan {
    let line = trim(raw);
    if starts_with(line, "STARTCHAR"@) {
        bdf_reset(st.glyphs)
    } else if st.in_bitmap {
        if line == "ENDCHAR"@ {
            bdf_reset(bdf_flush(st))
        } else if line.len() > 0 {
            BdfScan { rows: st.rows.push(uppercase_of(line)), ..st }
        } else {
            st
        }
    } else if starts_with(line, "ENCODING "@) && parse_i32(
        trim(line.skip("ENCODING "@.len() as int)),
    ) is Some {
        let p = parse_i32(trim(line.skip("ENCODING "@.len() as int)))->0;
        if p >= 0 {
            BdfScan { encoding: Some(p as u32), ..st }
        } else {
            st
        }
    } else if starts_with(line, "BBX "@) {
        match first_word(line.skip("BBX "@.len() as int)) {
            Some(w) => BdfScan { bbx_width: parse_usize(w), ..st },
            None => st,
        }
    } else if line == "BITMAP"@ {
        BdfScan { in_bitmap: true, ..st }
    } else {
        st
    }
}

pub open spec fn bdf_step() -> spec_fn(BdfScan, Seq<char>) -> BdfScan {
    |st: BdfScan, line: Seq<char>| bdf_line(st, line)
}

/// The glyphs of a BDF file: each glyph between `STARTCHAR` and `ENDCHAR`
/// with an `ENCODING`, an optional `BBX` width and `BITMAP` rows.
pub open spec fn bdf_glyphs(content: Seq<char>) -> Map<u32, Seq<char>> {
    fold_lines(bdf_reset(Map::empty()), content, bdf_step()).glyphs
}

/// The scan that the executable state stands for.
pub open spec fn scan_of(
    glyphs: GlyphMap,
    encoding: Option<u32>,
    bbx_width: Option<usize>,
    in_bitmap: bool,
    rows: Seq<String>,
) -> BdfScan {
    BdfScan {
        glyphs: glyph_table(glyphs),
        encoding,
        bbx_width,
        in_bitmap,
        rows: rows.map_values(|r: String| r@),
    }
}

/// Appends `n` zero digits to `v`.
fn push_zeros(v: &mut Vec<char>, n: usize)
    ensures
        final(v)@ == old(v)@ + zeros(n as int),
{
    let ghost start = v@;
    let mut i: usize = 0;
    while i < n
        invariant
            i <= n,
            v@ == start + zeros(i as int),
        decreases n - i,
    {
        v.push('0');
        assert(start + zeros(i + 1) =~= (start + zeros(i as int)).push('0'));
        i = i + 1;
    }
}

/// Appends the characters of `s` to `v`.
fn push_chars(v: &mut Vec<char>, s: &Vec<char>)
    ensures
        final(v)@ == old(v)@ + s@,
{
    let ghost start = v@;
    let mut i: usize = 0;
    while i < s.len()
        invariant
            i <= s.len(),
            v@ == start + s@.take(i as int),
        decreases s.len() - i,
    {
        v.push(s[i]);
        assert(start + s@.take(i + 1) =~= (start + s@.take(i as int)).push(s@[i as int]));
        i = i + 1;
    }
    assert(s@.take(s.len() as int) =~= s@);
}

/// The glyph that the uppercased bitmap `rows` of a BDF character describe
/// under `encoding` and box width `bbx_width` (see `bdf_glyph`).
pub fn glyph_from_rows(encoding: Option<u32>, bbx_width: Option<usize>, rows: &Vec<String>) -> (r:
    Option<(u32, String)>)
    ensures
        match r {
            Some((cp, bitmap)) => bdf_glyph(
                encoding,
                bbx_width,
                rows@.map_values(|r: String| r@),
            ) == Some((cp, bitmap@)),
            None => bdf_glyph(encoding, bbx_width, rows@.map_values(|r: String| r@)) is None,
        },
{
    let ghost rs = rows@.map_values(|r: String| r@);
    let cp = match encoding {
        Some(c) => c,
        None => return None,
    };
    if rows.len() == 0 {
        return None;
    }
    let mut max_len: usize = 0;
    let mut i: usize = 0;
    while i < rows.len()
        invariant
            i <= rows.len(),
            rs == rows@.map_values(|r: String| r@),
            max_len == max_byte_len(rs.take(i as int)),
        decreases rows.len() - i,
    {
        assert(rs.take(i + 1).drop_last() =~= rs.take(i as int));
        let l = rows[i].as_str().len();
        assert(rs.take(i + 1).last() == rows@[i as int]@);
        if l > max_len {
            max_len = l;
        }
        i = i + 1;
    }
    assert(rs.take(rows.len() as int) =~= rs);
    if max_len > 4 {
        return None;
    }
    let target: usize = match bbx_width {
        Some(w) => {
            if w <= 8 && max_len <= 2 {
                2
            } else if w <= 16 && max_len <= 4 {
                4
            } else {
                return None;
            }
        },
        None => {
            if max_len <= 2 {
                2
            } else {
                4
            }
        },
    };
    let mut bitmap: Vec<char> = Vec::new();
    let mut k: usize = 0;
    while k < GLYPH_HEIGHT
        invariant
            k <= 16,
            rs == rows@.map_values(|r: String| r@),
            bitmap@ == normalized_prefix(rs, target as int, k as int),
        decreases 16 - k,
    {
        if k < rows.len() {
            let row = chars_of(rows[k].as_str());
            if row.len() < target {
                push_zeros(&mut bitmap, target - row.len());
            }
            push_chars(&mut bitmap, &row);
            assert(bitmap@ =~= normalized_prefix(rs, target as int, k as int) + normalized_row(
                rs,
                target as int,
                k as int,
            ));
        } else {
            push_zeros(&mut bitmap, target);
        }
        k = k + 1;
    }
    let s = string_from_range(&bitmap, 0, bitmap.len());
    assert(bitmap@.subrange(0, bitmap.len() as int) =~= bitmap@);
    Some((cp, s))
}

/// Stores the glyph being described (see `bdf_flush`).
fn flush_glyph(
    glyphs: &mut GlyphMap,
    encoding: Option<u32>,
    bbx_width: Option<usize>,
    rows: &Vec<String>,
)
    ensures
        glyph_table(*final(glyphs)) == bdf_flush(
            scan_of(*old(glyphs), encoding, bbx_width, true, rows@),
        ),
{
    match glyph_from_rows(encoding, bbx_width, rows) {
        Some((cp, bitmap)) => insert_glyph(glyphs, cp, bitmap),
        None => {},
    }
}

/// The glyphs of the content of a BDF font file (see `bdf_glyphs`).
pub fn parse_bdf(content: &str) -> (glyphs: GlyphMap)
    ensures
        glyph_table(glyphs) == bdf_glyphs(content@),
{
    let chars = chars_of(content);
    let n = chars.len();
    let mut glyphs: GlyphMap = HashMap::new();
    let mut encoding: Option<u32> = None;
    let mut bbx_width: Option<usize> = None;
    let mut in_bitmap = false;
    let mut rows: Vec<String> = Vec::new();
    assert(glyph_table(glyphs) =~= Map::empty());
    assert(rows@.map_values(|r: String| r@) =~= Seq::empty());
    assert(chars@.skip(0) =~= chars@);
    let mut pos: usize = 0;
    while pos < n
        invariant
            pos <= n == chars.len(),
            chars@ == content@,
            fold_lines(bdf_reset(Map::empty()), content@, bdf_step()) == fold_lines(
                scan_of(glyphs, encoding, bbx_width, in_bitmap, rows@),
                chars@.skip(pos as int),
                bdf_step(),
            ),
        decreases n - pos,
    {
        let end = find_in_range(&chars, pos, n, '\n');
        let ghost st = scan_of(glyphs, encoding, bbx_width, in_bitmap, rows@);
        proof {
            lemma_fold_lines_unfold(st, chars@, pos as int, end as int, bdf_step());
        }
        let ghost raw = chars@.subrange(pos as int, end as int);
        let (a, b) = trim_range(&chars, pos, end);
        let ghost line = chars@.subrange(a as int, b as int);
        assert(line == trim(raw));
        if range_starts_with(&chars, a, b, "STARTCHAR") {
            encoding = None;
            bbx_width = None;
            in_bitmap = false;
            rows = Vec::new();
            assert(rows@.map_values(|r: String| r@) =~= Seq::empty());
        } else if in_bitmap {
            if range_equals(&chars, a, b, "ENDCHAR") {
                flush_glyph(&mut glyphs, encoding, bbx_width, &rows);
                encoding = None;
                bbx_width = None;
                in_bitmap = false;
                rows = Vec::new();
                assert(rows@.map_values(|r: String| r@) =~= Seq::empty());
            } else if a < b {
                let text = string_from_range(&chars, a, b);
                let upper = to_uppercase(text.as_str());
                let ghost old_rows = rows@;
                rows.push(upper);
                assert(rows@.map_values(|r: String| r@) =~= old_rows.map_values(|r: String| r@).push(
                    uppercase_of(line),
                ));
            }
        } else {
            let enc_len = "ENCODING ".unicode_len();
            let bbx_len = "BBX ".unicode_len();
            let mut parsed: Option<i32> = None;
            let is_encoding = range_starts_with(&chars, a, b, "ENCODING ");
            if is_encoding {
                let (va, vb) = trim_range(&chars, a + enc_len, b);
                assert(line.skip(enc_len as int) =~= chars@.subrange(a + enc_len, b as int));
                parsed = parse_i32_range(&chars, va, vb);
            }
            if is_encoding && parsed.is_some() {
                let p = parsed.unwrap();
                if p >= 0 {
                    encoding = Some(p as u32);
                }
            } else if range_starts_with(&chars, a, b, "BBX ") {
                assert(line.skip(bbx_len as int) =~= chars@.subrange(a + bbx_len, b as int));
                let wa = skip_spaces(&chars, a + bbx_len, b);
                if wa < b {
                    let we = word_end(&chars, wa, b);
                    assert(chars@.subrange(wa as int, b as int).take(we - wa) =~= chars@.subrange(
                        wa as int,
                        we as int,
                    ));
                    bbx_width = parse_usize_range(&chars, wa, we);
                }
            } else if range_equals(&chars, a, b, "BITMAP") {
                in_bitmap = true;
            }
        }
        assert(scan_of(glyphs, encoding, bbx_width, in_bitmap, rows@) == bdf_line(st, raw));
        pos = if end < n {
            end + 1
        } else {
            n
        };
    }
    assert(chars@.skip(n as int) =~= Seq::<char>::empty());
    glyphs
}


// ---------------------------------------------------------------------------
// Laws
// ---------------------------------------------------------------------------

/// A glyph is 16 rows of 8 or 16 pixels.
pub proof fn lemma_glyph_shape(bits: Seq<char>, color: Color)
    ensures
        glyph_grid(bits, color) matches Some(g) ==> g.len() == 16 && crate::matrix::is_rectangular(g)
            && (crate::matrix::max_row_len(g) == 8 || crate::matrix::max_row_len(g) == 16),
{
    if let Some(g) = glyph_grid(bits, color) {
        let w = row_hex_len(bits) * 4;
        assert(crate::matrix::all_rows_len(g, w));
        crate::matrix::lemma_uniform_max_row_len(g, w);
    }
}

/// Text is drawn as one line: nothing at all, or 16 rows all as wide as
/// the drawn glyphs together.
pub proof fn lemma_text_is_one_line(
    chars: Seq<char>,
    glyphs: Map<u32, Seq<char>>,
    color: Color,
    align: VerticalAlign,
)
    ensures
        text_grid(chars, glyphs, color, align).len() == 0 || text_grid(
            chars,
            glyphs,
            color,
            align,
        ).len() == 16,
        crate::matrix::is_rectangular(text_grid(chars, glyphs, color, align)),
    decreases chars.len(),
{
    if chars.len() > 0 {
        let prev = text_grid(chars.drop_last(), glyphs, color, align);
        lemma_text_is_one_line(chars.drop_last(), glyphs, color, align);
        let c = chars.last();
        if glyphs.contains_key(c as u32) {
            lemma_glyph_shape(glyphs[c as u32], color);
            if let Some(g) = glyph_grid(glyphs[c as u32], color) {
                crate::matrix::lemma_concat_rectangular(prev, g, align);
                crate::matrix::lemma_concat_shape(prev, g, align);
            }
        }
    }
}


/// Each character is drawn with the glyph stored under its own codepoint:
/// appending `c` to a text appends the glyph `glyphs[c as u32]` (when it
/// reads) and changes nothing otherwise.
pub proof fn lemma_text_appends_own_glyph(
    chars: Seq<char>,
    c: char,
    glyphs: Map<u32, Seq<char>>,
    color: Color,
    align: VerticalAlign,
)
    ensures
        text_grid(chars.push(c), glyphs, color, align) == if glyphs.contains_key(c as u32)
            && glyph_grid(glyphs[c as u32], color) is Some {
            concat_grids(
                text_grid(chars, glyphs, color, align),
                glyph_grid(glyphs[c as u32], color)->0,
                align,
            )
        } else {
            text_grid(chars, glyphs, color, align)
        },
{
    assert(chars.push(c).drop_last() =~= chars);
    assert(chars.push(c).last() == c);
}

/// A one-character text drawn top-aligned is exactly the glyph stored under
/// that character's codepoint.
pub proof fn lemma_one_char_text(c: char, glyphs: Map<u32, Seq<char>>, color: Color, g: Grid)
    requires
        glyphs.contains_key(c as u32),
        glyph_grid(glyphs[c as u32], color) == Some(g),
    ensures
        text_grid(seq![c], glyphs, color, VerticalAlign::Top) == g,
{
    lemma_text_appends_own_glyph(Seq::empty(), c, glyphs, color, VerticalAlign::Top);
    assert(Seq::<char>::empty().push(c) =~= seq![c]);
    crate::matrix::lemma_concat_empty_left(g);
}

/// The characters of `chars` that have a readable glyph, in order.
pub open spec fn drawn_chars(chars: Seq<char>, glyphs: Map<u32, Seq<char>>, color: Color) -> Seq<
    char,
> {
    chars.filter(|c: char| char_glyph(c, glyphs, color) is Some)
}

/// Characters without a readable glyph leave no trace: text is drawn as
/// its drawable characters alone would be, with no gap where one was.
pub proof fn lemma_skipped_chars_leave_no_trace(
    chars: Seq<char>,
    glyphs: Map<u32, Seq<char>>,
    color: Color,
    align: VerticalAlign,
)
    ensures
        text_grid(chars, glyphs, color, align) == text_grid(
            drawn_chars(chars, glyphs, color),
            glyphs,
            color,
            align,
        ),
    decreases chars.len(),
{
    reveal(Seq::filter);
    if chars.len() > 0 {
        lemma_skipped_chars_leave_no_trace(chars.drop_last(), glyphs, color, align);
        let f = drawn_chars(chars, glyphs, color);
        let p = drawn_chars(chars.drop_last(), glyphs, color);
        if char_glyph(chars.last(), glyphs, color) is Some {
            assert(f == p.push(chars.last()));
            assert(f.drop_last() =~= p);
        } else {
            assert(f == p);
        }
    }
}

// ---------------------------------------------------------------------------
// Every BDF glyph can be drawn
// ---------------------------------------------------------------------------

/// `r` consists of ASCII hex digits.
pub open spec fn is_hex_row(r: Seq<char>) -> bool {
    forall|i: int| 0 <= i < r.len() ==> #[trigger] hex_digit(r[i]) is Some
}

/// A line read in the scan `st` is, if the scan takes it as a bitmap row,
/// made of ASCII hex digits.
pub open spec fn bdf_row_line_ok(st: BdfScan, raw: Seq<char>) -> bool {
    let line = trim(raw);
    (st.in_bitmap && !starts_with(line, "STARTCHAR"@) && line != "ENDCHAR"@ && line.len() > 0)
        ==> is_hex_row(line)
}

/// Every line that a scan from `st` over `s` takes as a bitmap row is made
/// of ASCII hex digits.
pub open spec fn bdf_rows_hex_from(st: BdfScan, s: Seq<char>) -> bool
    decreases s.len(),
{
    if s.len() == 0 {
        true
    } else {
        proof {
            lemma_find_char_range(s, '\n');
        }
        bdf_row_line_ok(st, split_first_line(s).0) && bdf_rows_hex_from(
            bdf_line(st, split_first_line(s).0),
            split_first_line(s).1,
        )
    }
}

/// Every line that a BDF file gives as a bitmap row is made of ASCII hex
/// digits.
pub open spec fn bdf_rows_are_hex(content: Seq<char>) -> bool {
    bdf_rows_hex_from(bdf_reset(Map::empty()), content)
}

/// A scan whose glyphs all read and whose rows are hex digits.
spec fn scan_drawable(st: BdfScan) -> bool {
    &&& forall|k: u32| st.glyphs.contains_key(k) ==> bitmap_is_valid(#[trigger] st.glyphs[k])
    &&& forall|i: int|
        0 <= i < st.rows.len() ==> is_hex_row(#[trigger] st.rows[i]) && st.rows[i].len()
            <= usize::MAX
}

spec fn pow16(n: nat) -> int
    decreases n,
{
    if n == 0 {
        1
    } else {
        16 * pow16((n - 1) as nat)
    }
}

proof fn lemma_hex_row_value(r: Seq<char>)
    requires
        is_hex_row(r),
    ensures
        hex_value(r) matches Some(v) && 0 <= v < pow16(r.len()),
    decreases r.len(),
{
    if r.len() > 0 {
        let d = r.drop_last();
        assert forall|i: int| 0 <= i < d.len() implies #[trigger] hex_digit(d[i]) is Some by {
            assert(d[i] == r[i]);
        }
        lemma_hex_row_value(d);
        assert(hex_digit(r[r.len() - 1]) is Some);
        let v = hex_value(d)->0;
        let x = hex_digit(r.last())->0;
        let p = pow16(d.len());
        assert(0 <= v * 16 + x < 16 * p) by (nonlinear_arith)
            requires
                0 <= v < p,
                0 <= x < 16,
        ;
    }
}

/// A row of one to four hex digits reads as a `u16`.
proof fn lemma_hex_row_parses(r: Seq<char>)
    requires
        is_hex_row(r),
        1 <= r.len() <= 4,
    ensures
        parse_hex_u16(r) is Some,
{
    lemma_hex_row_value(r);
    assert(hex_digit(r[0]) is Some);
    assert(pow16(4) == 65536) by {
        reveal_with_fuel(pow16, 5);
    }
    assert(pow16(r.len()) <= 65536) by {
        reveal_with_fuel(pow16, 5);
    }
}

proof fn lemma_max_byte_len_ge(rows: Seq<Seq<char>>, i: int)
    requires
        0 <= i < rows.len(),
    ensures
        byte_len(rows[i]) <= max_byte_len(rows),
    decreases rows.len(),
{
    if i < rows.len() - 1 {
        lemma_max_byte_len_ge(rows.drop_last(), i);
        assert(rows.drop_last()[i] == rows[i]);
    }
}

/// The normalized rows laid one after the other: `k` rows of `t` hex digits.
proof fn lemma_normalized_prefix(rows: Seq<Seq<char>>, t: int, k: int)
    requires
        t >= 0,
        k >= 0,
        forall|i: int| 0 <= i < rows.len() ==> is_hex_row(#[trigger] rows[i]) && rows[i].len() <= t,
    ensures
        normalized_prefix(rows, t, k).len() == k * t,
        is_hex_row(normalized_prefix(rows, t, k)),
        forall|y: int|
            0 <= y < k ==> #[trigger] normalized_prefix(rows, t, k).subrange(y * t, y * t + t)
                == normalized_row(rows, t, y),
    decreases k,
{
    if k == 0 {
        assert(k * t == 0) by (nonlinear_arith)
            requires
                k == 0,
        ;
    } else {
        lemma_normalized_prefix(rows, t, k - 1);
        let p = normalized_prefix(rows, t, k - 1);
        let row = normalized_row(rows, t, k - 1);
        let full = normalized_prefix(rows, t, k);
        assert(full == p + row);
        assert(row.len() == t && is_hex_row(row)) by {
            if k - 1 < rows.len() {
                let r = rows[k - 1];
                assert(is_hex_row(r));
                if r.len() < t {
                    assert forall|i: int| 0 <= i < row.len() implies #[trigger] hex_digit(row[i]) is Some by {
                        if i >= t - r.len() {
                            assert(row[i] == r[i - (t - r.len())]);
                        }
                    }
                }
            }
        }
        assert((k - 1) * t + t == k * t) by (nonlinear_arith);
        assert forall|i: int| 0 <= i < full.len() implies #[trigger] hex_digit(full[i]) is Some by {
            if i < p.len() {
                assert(full[i] == p[i]);
            } else {
                assert(full[i] == row[i - p.len()]);
            }
        }
        assert forall|y: int| 0 <= y < k implies #[trigger] full.subrange(y * t, y * t + t)
            == normalized_row(rows, t, y) by {
            if y < k - 1 {
                assert(y * t + t <= (k - 1) * t) by (nonlinear_arith)
                    requires
                        y + 1 <= k - 1,
                        t >= 0,
                ;
                assert(y * t >= 0) by (nonlinear_arith)
                    requires
                        y >= 0,
                        t >= 0,
                ;
                assert(full.subrange(y * t, y * t + t) =~= p.subrange(y * t, y * t + t));
            } else {
                assert(full.subrange(y * t, y * t + t) =~= row);
            }
        }
    }
}

/// A glyph that rows of hex digits describe reads as a bitmap.
proof fn lemma_bdf_glyph_valid(
    encoding: Option<u32>,
    bbx_width: Option<usize>,
    rows: Seq<Seq<char>>,
)
    requires
        forall|i: int|
            0 <= i < rows.len() ==> is_hex_row(#[trigger] rows[i]) && rows[i].len() <= usize::MAX,
    ensures
        bdf_glyph(encoding, bbx_width, rows) matches Some((cp, b)) ==> bitmap_is_valid(b),
{
    if let Some((cp, b)) = bdf_glyph(encoding, bbx_width, rows) {
        let m = max_byte_len(rows);
        let t = target_hex_len(bbx_width, m)->0;
        assert(t == 2 || t == 4);
        assert(m <= t);
        assert forall|i: int| 0 <= i < rows.len() implies is_hex_row(#[trigger] rows[i])
            && rows[i].len() <= t by {
            lemma_max_byte_len_ge(rows, i);
            let r = rows[i];
            assert(vstd::utf8::is_ascii_chars(r)) by {
                assert forall|j: int| 0 <= j < r.len() implies '\0' <= #[trigger] r[j] <= '\u{7f}' by {
                    assert(hex_digit(r[j]) is Some);
                }
            }
            vstd::utf8::is_ascii_chars_encode_utf8(r);
        }
        lemma_normalized_prefix(rows, t, 16);
        assert(b == normalized_prefix(rows, t, 16));
        assert(row_hex_len(b) == t);
        assert(vstd::utf8::is_ascii_chars(b)) by {
            assert forall|j: int| 0 <= j < b.len() implies '\0' <= #[trigger] b[j] <= '\u{7f}' by {
                assert(hex_digit(b[j]) is Some);
            }
        }
        assert forall|y: int| 0 <= y < 16 implies #[trigger] parse_hex_u16(
            bitmap_row_digits(b, y),
        ) is Some by {
            assert(b.subrange(y * t, y * t + t) == normalized_row(rows, t, y));
            let row = normalized_row(rows, t, y);
            if y < rows.len() {
                if rows[y].len() < t {
                    assert forall|i: int| 0 <= i < row.len() implies #[trigger] hex_digit(row[i]) is Some by {
                        if i >= t - rows[y].len() {
                            assert(row[i] == rows[y][i - (t - rows[y].len())]);
                        }
                    }
                }
            }
            lemma_hex_row_parses(row);
        }
    }
}

/// One line keeps a scan drawable when a bitmap row it gives is hex.
proof fn lemma_bdf_line_drawable(st: BdfScan, raw: Seq<char>)
    requires
        scan_drawable(st),
        bdf_row_line_ok(st, raw),
        raw.len() <= usize::MAX,
    ensures
        scan_drawable(bdf_line(st, raw)),
{
    let line = trim(raw);
    lemma_trim_len(raw);
    if starts_with(line, "STARTCHAR"@) {
    } else if st.in_bitmap {
        if line == "ENDCHAR"@ {
            lemma_bdf_glyph_valid(st.encoding, st.bbx_width, st.rows);
        } else if line.len() > 0 {
            let up = uppercase_of(line);
            assert(vstd::utf8::is_ascii_chars(line)) by {
                assert forall|j: int| 0 <= j < line.len() implies '\0' <= #[trigger] line[j] <= '\u{7f}' by {
                    assert(hex_digit(line[j]) is Some);
                }
            }
            assert(is_hex_row(up)) by {
                assert forall|j: int| 0 <= j < up.len() implies #[trigger] hex_digit(up[j]) is Some by {
                    assert(hex_digit(line[j]) is Some);
                    assert(up[j] == ascii_upper_char(line[j]));
                }
            }
            let n = bdf_line(st, raw);
            assert forall|i: int| 0 <= i < n.rows.len() implies is_hex_row(#[trigger] n.rows[i])
                && n.rows[i].len() <= usize::MAX by {
                if i < st.rows.len() {
                    assert(n.rows[i] == st.rows[i]);
                }
            }
        }
    }
}

/// `trim` never lengthens.
proof fn lemma_trim_len(s: Seq<char>)
    ensures
        trim(s).len() <= s.len(),
{
    lemma_trim_start_len(s);
    lemma_trim_end_len(crate::text::trim_start(s));
}

proof fn lemma_trim_start_len(s: Seq<char>)
    ensures
        crate::text::trim_start(s).len() <= s.len(),
    decreases s.len(),
{
    if s.len() > 0 {
        lemma_trim_start_len(s.drop_first());
    }
}

proof fn lemma_trim_end_len(s: Seq<char>)
    ensures
        crate::text::trim_end(s).len() <= s.len(),
    decreases s.len(),
{
    if s.len() > 0 {
        lemma_trim_end_len(s.drop_last());
    }
}

proof fn lemma_bdf_fold_drawable(st: BdfScan, s: Seq<char>)
    requires
        scan_drawable(st),
        bdf_rows_hex_from(st, s),
        s.len() <= usize::MAX,
    ensures
        scan_drawable(fold_lines(st, s, bdf_step())),
    decreases s.len(),
{
    if s.len() > 0 {
        lemma_find_char_range(s, '\n');
        let (line, rest) = split_first_line(s);
        lemma_bdf_line_drawable(st, line);
        lemma_bdf_fold_drawable(bdf_line(st, line), rest);
    }
}

/// The bitmap draws, in `color`, a glyph of 16 rows 8 or 16 pixels wide.
pub open spec fn draws_glyph(bits: Seq<char>, color: Color) -> bool {
    glyph_grid(bits, color) matches Some(g) && g.len() == 16 && crate::matrix::is_rectangular(g)
        && (crate::matrix::max_row_len(g) == 8 || crate::matrix::max_row_len(g) == 16)
}

/// Every glyph that a BDF file yields can be drawn, whenever every line it
/// gives as a bitmap row is made of hex digits: a 16-row matrix 8 or 16
/// pixels wide, in any colour.
pub proof fn lemma_bdf_glyphs_drawable(content: Seq<char>, color: Color)
    requires
        bdf_rows_are_hex(content),
        content.len() <= usize::MAX,
    ensures
        forall|k: u32|
            #[trigger] bdf_glyphs(content).contains_key(k) ==> draws_glyph(
                bdf_glyphs(content)[k],
                color,
            ),
{
    lemma_bdf_fold_drawable(bdf_reset(Map::empty()), content);
    assert forall|k: u32| #[trigger] bdf_glyphs(content).contains_key(k) implies draws_glyph(
        bdf_glyphs(content)[k],
        color,
    ) by {
        lemma_glyph_shape(bdf_glyphs(content)[k], color);
    }
}

// ---------------------------------------------------------------------------
// Codepoint keys
// ---------------------------------------------------------------------------

/// The uppercase hex digit for `d` in `0..16`.
pub open spec fn upper_hex_char(d: int) -> char {
    if d < 10 {
        (('0' as u32) + d) as char
    } else {
        (('A' as u32) + d - 10) as char
    }
}

/// The uppercase hex digits of `v`, without leading zeros (`"0"` for 0).
pub open spec fn hex_digits(v: nat) -> Seq<char>
    decreases v,
{
    if v < 16 {
        seq![upper_hex_char(v as int)]
    } else {
        hex_digits(v / 16).push(upper_hex_char((v % 16) as int))
    }
}

/// `format!("{:04X}", v)`: the uppercase hex digits of `v`, padded with
/// zeros on the left to four.
pub open spec fn hex_key(v: u32) -> Seq<char> {
    let d = hex_digits(v as nat);
    if d.len() >= 4 {
        d
    } else {
        zeros(4 - d.len()) + d
    }
}

proof fn lemma_upper_hex_char(d: int)
    requires
        0 <= d < 16,
    ensures
        is_upper_hex(upper_hex_char(d)),
        hex_digit(upper_hex_char(d)) == Some(d),
        (upper_hex_char(d) == '0') == (d == 0),
{
}

proof fn lemma_char_of_digit(c: char)
    requires
        is_upper_hex(c),
    ensures
        hex_digit(c) matches Some(d) && 0 <= d < 16 && upper_hex_char(d) == c,
{
}

proof fn lemma_hex_digits(v: nat)
    ensures
        hex_value(hex_digits(v)) == Some(v as int),
        hex_digits(v).len() >= 1,
        forall|i: int| 0 <= i < hex_digits(v).len() ==> is_upper_hex(#[trigger] hex_digits(v)[i]),
        v > 0 ==> hex_digits(v)[0] != '0',
        v < 16 <==> hex_digits(v).len() == 1,
    decreases v,
{
    if v < 16 {
        lemma_upper_hex_char(v as int);
        let d = hex_digits(v);
        assert(d.drop_last() =~= Seq::<char>::empty());
        assert(hex_value(d.drop_last()) == Some(0int));
        assert(d.last() == upper_hex_char(v as int));
        assert(hex_value(d) == Some(v as int));
    } else {
        lemma_hex_digits(v / 16);
        lemma_upper_hex_char((v % 16) as int);
        let d = hex_digits(v);
        assert(d.drop_last() =~= hex_digits(v / 16));
        assert(v == (v / 16) * 16 + v % 16);
        assert(d.last() == upper_hex_char((v % 16) as int));
        assert(hex_value(d) == Some(((v / 16) * 16 + v % 16) as int));
        assert forall|i: int| 0 <= i < d.len() implies is_upper_hex(#[trigger] d[i]) by {
            if i < d.len() - 1 {
                assert(d[i] == hex_digits(v / 16)[i]);
            }
        }
        assert(d[0] == hex_digits(v / 16)[0]);
    }
}

proof fn lemma_hex_value_zeros(n: int)
    requires
        n >= 0,
    ensures
        hex_value(zeros(n)) == Some(0int),
    decreases n,
{
    if n > 0 {
        assert(zeros(n).drop_last() =~= zeros(n - 1));
        lemma_hex_value_zeros(n - 1);
    }
}

proof fn lemma_hex_value_leading_zeros(n: int, d: Seq<char>)
    requires
        n >= 0,
    ensures
        hex_value(zeros(n) + d) == hex_value(d),
    decreases d.len(),
{
    if d.len() == 0 {
        assert(zeros(n) + d =~= zeros(n));
        lemma_hex_value_zeros(n);
    } else {
        assert((zeros(n) + d).drop_last() =~= zeros(n) + d.drop_last());
        lemma_hex_value_leading_zeros(n, d.drop_last());
    }
}

/// The digits of a value that has no leading zero spell it back.
proof fn lemma_digits_of_value(k: Seq<char>)
    requires
        k.len() >= 1,
        k[0] != '0',
        forall|i: int| 0 <= i < k.len() ==> is_upper_hex(#[trigger] k[i]),
    ensures
        hex_value(k) matches Some(v) && v >= 1 && hex_digits(v as nat) == k,
    decreases k.len(),
{
    lemma_char_of_digit(k.last());
    if k.len() == 1 {
        assert(k.drop_last() =~= Seq::<char>::empty());
        assert(hex_digits(hex_value(k)->0 as nat) =~= k);
    } else {
        let p = k.drop_last();
        assert forall|i: int| 0 <= i < p.len() implies is_upper_hex(#[trigger] p[i]) by {
            assert(p[i] == k[i]);
        }
        assert(p[0] == k[0]);
        lemma_digits_of_value(p);
        let vp = hex_value(p)->0;
        let d = hex_digit(k.last())->0;
        let v = vp * 16 + d;
        assert(v / 16 == vp && v % 16 == d) by (nonlinear_arith)
            requires
                v == vp * 16 + d,
                0 <= d < 16,
                vp >= 1,
        ;
        assert(hex_digits(v as nat) =~= hex_digits(vp as nat).push(upper_hex_char(d)));
        assert(hex_digits(v as nat) =~= k);
    }
}

/// A key names a codepoint exactly when it is how `{:04X}` spells it:
/// looking a character up by codepoint finds the same entries as looking
/// it up by its `{:04X}` spelling would.
pub proof fn lemma_codepoint_key_is_format(k: Seq<char>, v: u32)
    ensures
        codepoint_of_key(k) == Some(v) <==> k == hex_key(v),
{
    let d = hex_digits(v as nat);
    lemma_hex_digits(v as nat);
    if k == hex_key(v) {
        if d.len() >= 4 {
            assert(k == d);
            assert(hex_digits(v as nat)[0] != '0') by {
                if v == 0 {
                    assert(d.len() == 1);
                }
            }
        } else {
            lemma_hex_value_leading_zeros(4 - d.len(), d);
            assert forall|i: int| 0 <= i < k.len() implies is_upper_hex(#[trigger] k[i]) by {
                if i >= 4 - d.len() {
                    assert(k[i] == d[i - (4 - d.len())]);
                }
            }
        }
    }
    if codepoint_of_key(k) == Some(v) {
        // strip the leading zeros of k
        let j = leading_zero_count(k);
        lemma_leading_zero_count(k);
        let r = k.skip(j);
        assert(k =~= zeros(j) + r);
        lemma_hex_value_leading_zeros(j, r);
        if r.len() == 0 {
            assert(hex_value(r) == Some(0int));
            assert(v == 0);
            assert(k =~= zeros(4));
            assert(d =~= seq!['0']);
            assert(hex_key(v) =~= zeros(3) + seq!['0']);
            assert(zeros(3) + seq!['0'] =~= zeros(4));
        } else {
            assert forall|i: int| 0 <= i < r.len() implies is_upper_hex(#[trigger] r[i]) by {
                assert(r[i] == k[i + j]);
            }
            lemma_digits_of_value(r);
            assert(d == r);
            if k.len() > 4 {
                assert(j == 0);
            }
        }
    }
}

/// The number of `'0'`s that `k` begins with.
pub open spec fn leading_zero_count(k: Seq<char>) -> int
    decreases k.len(),
{
    if k.len() > 0 && k[0] == '0' {
        1 + leading_zero_count(k.drop_first())
    } else {
        0
    }
}

proof fn lemma_leading_zero_count(k: Seq<char>)
    ensures
        0 <= leading_zero_count(k) <= k.len(),
        forall|i: int| 0 <= i < leading_zero_count(k) ==> #[trigger] k[i] == '0',
        leading_zero_count(k) < k.len() ==> k[leading_zero_count(k)] != '0',
    decreases k.len(),
{
    if k.len() > 0 && k[0] == '0' {
        lemma_leading_zero_count(k.drop_first());
        assert forall|i: int| 0 <= i < leading_zero_count(k) implies #[trigger] k[i] == '0' by {
            if i > 0 {
                assert(k[i] == k.drop_first()[i - 1]);
            }
        }
    }
}

} // verus!
