use vstd::prelude::*;

verus! {

/// An 8-bit RGB colour.
#[derive(Debug, Clone, Copy, PartialEq, Eq)]
pub struct Color(pub [u8; 3]);

/// A matrix of pixels, stored row by row; a pixel is lit in a colour or
/// transparent (`None`). Rows may differ in length.
pub type Matrix = Vec<Vec<Option<Color>>>;

/// The mathematical picture of a matrix: a sequence of rows.
pub type Grid = Seq<Seq<Option<Color>>>;

/// How a shorter matrix is placed beside a taller one.
#[derive(Debug, Clone, Copy, PartialEq, Eq)]
pub enum VerticalAlign {
    Top,
    Center,
    Bottom,
}

// ---------------------------------------------------------------------------
// The model
// ---------------------------------------------------------------------------

/// The grid that a matrix holds.
pub open spec fn grid(m: Matrix) -> Grid {
    m@.map_values(|r: Vec<Option<Color>>| r@)
}

/// A row of `n` transparent pixels.
pub open spec fn blank_row(n: int) -> Seq<Option<Color>> {
    Seq::new(n as nat, |i: int| None::<Color>)
}

/// A colour with all channels zero.
pub open spec fn is_black(c: Color) -> bool {
    c.0[0] == 0 && c.0[1] == 0 && c.0[2] == 0
}

/// A pixel lit in a colour other than black.
pub open spec fn is_visible(p: Option<Color>) -> bool {
    match p {
        Some(c) => !is_black(c),
        None => false,
    }
}

/// A row shows nothing: each pixel is transparent or black.
pub open spec fn row_is_blank(r: Seq<Option<Color>>) -> bool {
    forall|x: int| 0 <= x < r.len() ==> !is_visible(#[trigger] r[x])
}

/// Some row of the grid holds a visible (non-black) pixel.
pub open spec fn has_content(g: Grid) -> bool {
    exists|y: int| 0 <= y < g.len() && !row_is_blank(#[trigger] g[y])
}

/// `f` is the index of the topmost row that holds a visible pixel.
pub open spec fn is_first_content_row(g: Grid, f: int) -> bool {
    &&& 0 <= f < g.len()
    &&& !row_is_blank(g[f])
    &&& forall|j: int| 0 <= j < f ==> row_is_blank(#[trigger] g[j])
}

/// `l` is the index of the bottommost row that holds a visible pixel.
pub open spec fn is_last_content_row(g: Grid, l: int) -> bool {
    &&& 0 <= l < g.len()
    &&& !row_is_blank(g[l])
    &&& forall|j: int| l < j < g.len() ==> row_is_blank(#[trigger] g[j])
}

pub open spec fn first_content_row(g: Grid) -> int {
    choose|f: int| is_first_content_row(g, f)
}

pub open spec fn last_content_row(g: Grid) -> int {
    choose|l: int| is_last_content_row(g, l)
}

/// The number of rows that count as the matrix's content for an alignment:
/// up to the last row that shows anything (`Bottom`), from the first such
/// row (`Top`), or the span between them (`Center`). An empty matrix has none; a matrix without
/// any visible pixel counts all its rows.
pub open spec fn content_height(g: Grid, align: VerticalAlign) -> int {
    if g.len() == 0 {
        0
    } else if !has_content(g) {
        g.len() as int
    } else {
        match align {
            VerticalAlign::Bottom => last_content_row(g) + 1,
            VerticalAlign::Top => g.len() - first_content_row(g),
            VerticalAlign::Center => last_content_row(g) - first_content_row(g) + 1,
        }
    }
}

/// Where `source` rows start inside `container` rows for an alignment.
pub open spec fn offset_for(container: int, source: int, align: VerticalAlign) -> int {
    if source >= container {
        0
    } else {
        match align {
            VerticalAlign::Top => 0,
            VerticalAlign::Center => (container - source) / 2,
            VerticalAlign::Bottom => container - source,
        }
    }
}

/// The length of the longest row, 0 for no rows.
pub open spec fn max_row_len(g: Grid) -> int
    decreases g.len(),
{
    if g.len() == 0 {
        0
    } else {
        let m = max_row_len(g.drop_last());
        if g.last().len() > m {
            g.last().len() as int
        } else {
            m
        }
    }
}

/// The length of the first row, 0 for no rows.
pub open spec fn first_row_len(g: Grid) -> int {
    if g.len() == 0 {
        0
    } else {
        g[0].len() as int
    }
}

pub open spec fn max_int(a: int, b: int) -> int {
    if a >= b {
        a
    } else {
        b
    }
}

/// Row `y` of an output where `g` starts at row `offset`: the source row
/// if there is one, else `pad` transparent pixels.
pub open spec fn placed_row(g: Grid, offset: int, y: int, pad: int) -> Seq<Option<Color>> {
    if offset <= y && y - offset < g.len() {
        g[y - offset]
    } else {
        blank_row(pad)
    }
}

/// Row offset of one side in a horizontal concatenation.
pub open spec fn side_offset(side: Grid, l: Grid, r: Grid, align: VerticalAlign) -> int {
    let rows = max_int(l.len() as int, r.len() as int);
    let content_max = max_int(content_height(l, align), content_height(r, align));
    offset_for(content_max, content_height(side, align), align) + offset_for(rows, content_max, align)
}

/// `l` and `r` side by side. There are as many rows as the taller has; each
/// side is shifted down by its offset, and where a side has no row its
/// place is filled with as many transparent pixels as its longest row.
pub open spec fn concat_grids(l: Grid, r: Grid, align: VerticalAlign) -> Grid {
    let rows = max_int(l.len() as int, r.len() as int);
    let lo = side_offset(l, l, r, align);
    let ro = side_offset(r, l, r, align);
    Seq::new(
        rows as nat,
        |y: int| placed_row(l, lo, y, max_row_len(l)) + placed_row(r, ro, y, max_row_len(r)),
    )
}

/// Row `b` with row `o` laid over it from column `ox`: lit pixels of `o`
/// replace those beneath, and the row grows to hold all of `o`.
pub open spec fn overlay_row(b: Seq<Option<Color>>, o: Seq<Option<Color>>, ox: int) -> Seq<
    Option<Color>,
> {
    let n = max_int(b.len() as int, ox + o.len());
    Seq::new(
        n as nat,
        |x: int|
            if ox <= x < ox + o.len() && o[x - ox] is Some {
                o[x - ox]
            } else if x < b.len() {
                b[x]
            } else {
                None
            },
    )
}

/// `o` laid over `b` with its top-left corner at column `ox`, row `oy`.
/// Rows of `o` that fall below `b` are dropped.
pub open spec fn overlay_grids(b: Grid, o: Grid, ox: int, oy: int) -> Grid {
    Seq::new(
        b.len(),
        |ty: int|
            if oy <= ty < oy + o.len() {
                overlay_row(b[ty], o[ty - oy], ox)
            } else {
                b[ty]
            },
    )
}

/// `o` laid over `b` with its top-left corner at (`ox`, `oy`), which may be
/// negative; nothing outside `b` is drawn, columns only below the length of
/// the first row of `b`, and `b` keeps its shape.
pub open spec fn clipped_overlay_grids(b: Grid, o: Grid, ox: int, oy: int) -> Grid {
    let w = first_row_len(b);
    Seq::new(
        b.len(),
        |ty: int|
            Seq::new(
                b[ty].len(),
                |tx: int|
                    {
                        let y = ty - oy;
                        let x = tx - ox;
                        if 0 <= y < o.len() && 0 <= x < o[y].len() && tx < w && o[y][x] is Some {
                            o[y][x]
                        } else {
                            b[ty][tx]
                        }
                    },
            ),
    )
}

// ---------------------------------------------------------------------------
// Lemmas
// ---------------------------------------------------------------------------

proof fn lemma_first_unique(g: Grid, a: int, b: int)
    requires
        is_first_content_row(g, a),
        is_first_content_row(g, b),
    ensures
        a == b,
{
    if a < b {
        assert(row_is_blank(g[a]));
    } else if b < a {
        assert(row_is_blank(g[b]));
    }
}

proof fn lemma_last_unique(g: Grid, a: int, b: int)
    requires
        is_last_content_row(g, a),
        is_last_content_row(g, b),
    ensures
        a == b,
{
    if a < b {
        assert(row_is_blank(g[b]));
    } else if b < a {
        assert(row_is_blank(g[a]));
    }
}

/// The content height never exceeds the number of rows.
pub proof fn lemma_content_height_bounds(g: Grid, align: VerticalAlign)
    ensures
        0 <= content_height(g, align) <= g.len(),
        g.len() > 0 ==> content_height(g, align) > 0,
{
    if g.len() > 0 && has_content(g) {
        let y = choose|y: int| 0 <= y < g.len() && !row_is_blank(#[trigger] g[y]);
        lemma_first_exists(g, y);
        lemma_last_exists(g, y);
        let f = first_content_row(g);
        let l = last_content_row(g);
        if l < f {
            assert(row_is_blank(g[l]));
        }
    }
}

proof fn lemma_first_exists(g: Grid, y: int)
    requires
        0 <= y < g.len(),
        !row_is_blank(g[y]),
    ensures
        is_first_content_row(g, first_content_row(g)),
    decreases y,
{
    if forall|j: int| 0 <= j < y ==> row_is_blank(#[trigger] g[j]) {
        assert(is_first_content_row(g, y));
    } else {
        let j = choose|j: int| 0 <= j < y && !row_is_blank(#[trigger] g[j]);
        lemma_first_exists(g, j);
    }
}

proof fn lemma_last_exists(g: Grid, y: int)
    requires
        0 <= y < g.len(),
        !row_is_blank(g[y]),
    ensures
        is_last_content_row(g, last_content_row(g)),
    decreases g.len() - y,
{
    if forall|j: int| y < j < g.len() ==> row_is_blank(#[trigger] g[j]) {
        assert(is_last_content_row(g, y));
    } else {
        let j = choose|j: int| y < j < g.len() && !row_is_blank(#[trigger] g[j]);
        lemma_last_exists(g, j);
    }
}

// ---------------------------------------------------------------------------
// Executable functions
// ---------------------------------------------------------------------------

/// Number of rows of a matrix.
pub fn matrix_height(matrix: &Matrix) -> (h: usize)
    ensures
        h == grid(*matrix).len(),
{
    matrix.len()
}

/// Length of the first row of a matrix, 0 for no rows.
pub fn matrix_width(matrix: &Matrix) -> (w: usize)
    ensures
        w == first_row_len(grid(*matrix)),
{
    if matrix.len() == 0 {
        0
    } else {
        matrix[0].len()
    }
}

/// Length of the longest row of a matrix, 0 for no rows.
pub fn max_row_width(matrix: &Matrix) -> (w: usize)
    ensures
        w == max_row_len(grid(*matrix)),
{
    let ghost g = grid(*matrix);
    let mut w: usize = 0;
    let mut i: usize = 0;
    while i < matrix.len()
        invariant
            i <= matrix.len(),
            g == grid(*matrix),
            w == max_row_len(g.take(i as int)),
        decreases matrix.len() - i,
    {
        assert(g.take(i + 1).drop_last() =~= g.take(i as int));
        if matrix[i].len() > w {
            w = matrix[i].len();
        }
        i = i + 1;
    }
    assert(g.take(matrix.len() as int) =~= g);
    w
}

/// Whether a row shows nothing (only transparent or black pixels).
pub fn is_blank_row(row: &Vec<Option<Color>>) -> (b: bool)
    ensures
        b == row_is_blank(row@),
{
    let mut x: usize = 0;
    while x < row.len()
        invariant
            x <= row.len(),
            forall|k: int| 0 <= k < x ==> !is_visible(#[trigger] row@[k]),
        decreases row.len() - x,
    {
        match row[x] {
            Some(c) => {
                if c.0[0] != 0 || c.0[1] != 0 || c.0[2] != 0 {
                    assert(is_visible(row@[x as int]));
                    return false;
                }
            },
            None => {},
        }
        x = x + 1;
    }
    true
}

/// The index of the topmost row with a visible pixel, if any.
fn find_first_content_row(matrix: &Matrix) -> (r: Option<usize>)
    ensures
        match r {
            Some(f) => is_first_content_row(grid(*matrix), f as int) && first_content_row(
                grid(*matrix),
            ) == f,
            None => !has_content(grid(*matrix)),
        },
{
    let ghost g = grid(*matrix);
    let mut i: usize = 0;
    while i < matrix.len()
        invariant
            i <= matrix.len(),
            g == grid(*matrix),
            forall|j: int| 0 <= j < i ==> row_is_blank(#[trigger] g[j]),
        decreases matrix.len() - i,
    {
        if !is_blank_row(&matrix[i]) {
            proof {
                assert(is_first_content_row(g, i as int));
                lemma_first_exists(g, i as int);
                lemma_first_unique(g, i as int, first_content_row(g));
            }
            return Some(i);
        }
        assert(row_is_blank(g[i as int]));
        i = i + 1;
    }
    None
}

/// The index of the bottommost row with a visible pixel, if any.
fn find_last_content_row(matrix: &Matrix) -> (r: Option<usize>)
    ensures
        match r {
            Some(l) => is_last_content_row(grid(*matrix), l as int) && last_content_row(
                grid(*matrix),
            ) == l,
            None => !has_content(grid(*matrix)),
        },
{
    let ghost g = grid(*matrix);
    let mut i: usize = matrix.len();
    while i > 0
        invariant
            i <= matrix.len(),
            g == grid(*matrix),
            forall|j: int| i <= j < g.len() ==> row_is_blank(#[trigger] g[j]),
        decreases i,
    {
        if !is_blank_row(&matrix[i - 1]) {
            proof {
                assert(is_last_content_row(g, i - 1));
                lemma_last_exists(g, i - 1);
                lemma_last_unique(g, i - 1, last_content_row(g));
            }
            return Some(i - 1);
        }
        assert(row_is_blank(g[i - 1]));
        i = i - 1;
    }
    None
}

/// Rows that hold content for an alignment (see `content_height`).
pub fn content_rows(matrix: &Matrix, align: VerticalAlign) -> (n: usize)
    ensures
        n == content_height(grid(*matrix), align),
{
    let total = matrix.len();
    if total == 0 {
        return 0;
    }
    match align {
        VerticalAlign::Bottom => match find_last_content_row(matrix) {
            Some(l) => l + 1,
            None => total,
        },
        VerticalAlign::Top => match find_first_content_row(matrix) {
            Some(f) => total - f,
            None => total,
        },
        VerticalAlign::Center => {
            let first = find_first_content_row(matrix);
            let last = find_last_content_row(matrix);
            match (first, last) {
                (Some(f), Some(l)) => {
                    proof {
                        let g = grid(*matrix);
                        if (l as int) < (f as int) {
                            assert(row_is_blank(g[l as int]));
                        }
                    }
                    l - f + 1
                },
                _ => total,
            }
        },
    }
}

/// Where `source_rows` rows start inside `container_rows` rows.
pub fn vertical_offset(container_rows: usize, source_rows: usize, align: VerticalAlign) -> (o:
    usize)
    ensures
        o == offset_for(container_rows as int, source_rows as int, align),
        source_rows < container_rows ==> o <= container_rows - source_rows,
{
    if source_rows >= container_rows {
        return 0;
    }
    let extra = container_rows - source_rows;
    match align {
        VerticalAlign::Top => 0,
        VerticalAlign::Center => extra / 2,
        VerticalAlign::Bottom => extra,
    }
}

/// Appends the pixels of `src` to `row`.
fn extend_row(row: &mut Vec<Option<Color>>, src: &Vec<Option<Color>>)
    ensures
        final(row)@ == old(row)@ + src@,
{
    let ghost start = row@;
    let mut i: usize = 0;
    while i < src.len()
        invariant
            i <= src.len(),
            row@ == start + src@.take(i as int),
        decreases src.len() - i,
    {
        row.push(src[i]);
        assert(start + src@.take(i + 1) =~= (start + src@.take(i as int)).push(src@[i as int]));
        i = i + 1;
    }
    assert(src@.take(src.len() as int) =~= src@);
}

/// Appends `n` transparent pixels to `row`.
fn push_blanks(row: &mut Vec<Option<Color>>, n: usize)
    ensures
        final(row)@ == old(row)@ + blank_row(n as int),
{
    let ghost start = row@;
    let mut i: usize = 0;
    while i < n
        invariant
            i <= n,
            row@ == start + blank_row(i as int),
        decreases n - i,
    {
        row.push(None);
        assert(start + blank_row(i + 1) =~= (start + blank_row(i as int)).push(None));
        i = i + 1;
    }
}

/// `left` and `right` side by side, top-aligned.
pub fn concat_horizontal(left: &Matrix, right: &Matrix) -> (out: Matrix)
    ensures
        grid(out) == concat_grids(grid(*left), grid(*right), VerticalAlign::Top),
{
    concat_horizontal_aligned(left, right, VerticalAlign::Top)
}

/// `left` and `right` side by side, the shorter placed by `align` after its
/// blank rows are set aside (see `concat_grids`).
pub fn concat_horizontal_aligned(left: &Matrix, right: &Matrix, align: VerticalAlign) -> (out:
    Matrix)
    ensures
        grid(out) == concat_grids(grid(*left), grid(*right), align),
{
    let ghost gl = grid(*left);
    let ghost gr = grid(*right);
    let left_content = content_rows(left, align);
    let right_content = content_rows(right, align);
    proof {
        lemma_content_height_bounds(gl, align);
        lemma_content_height_bounds(gr, align);
    }
    let rows = if left.len() >= right.len() {
        left.len()
    } else {
        right.len()
    };
    let content_max = if left_content >= right_content {
        left_content
    } else {
        right_content
    };
    let shift = vertical_offset(rows, content_max, align);
    let left_offset = vertical_offset(content_max, left_content, align) + shift;
    let right_offset = vertical_offset(content_max, right_content, align) + shift;
    let left_w = max_row_width(left);
    let right_w = max_row_width(right);
    let ghost spec_out = concat_grids(gl, gr, align);
    assert(left_offset == side_offset(gl, gl, gr, align));
    assert(right_offset == side_offset(gr, gl, gr, align));

    let mut out: Matrix = Vec::new();
    let mut y: usize = 0;
    while y < rows
        invariant
            y <= rows,
            rows == spec_out.len(),
            gl == grid(*left),
            gr == grid(*right),
            spec_out == concat_grids(gl, gr, align),
            left_offset == side_offset(gl, gl, gr, align),
            right_offset == side_offset(gr, gl, gr, align),
            left_w == max_row_len(gl),
            right_w == max_row_len(gr),
            out.len() == y,
            forall|i: int| 0 <= i < y ==> (#[trigger] out@[i])@ == spec_out[i],
        decreases rows - y,
    {
        let mut row: Vec<Option<Color>> = Vec::new();
        if y >= left_offset && y - left_offset < left.len() {
            extend_row(&mut row, &left[y - left_offset]);
        } else {
            push_blanks(&mut row, left_w);
        }
        assert(row@ =~= placed_row(gl, left_offset as int, y as int, left_w as int));
        let ghost mid = row@;
        if y >= right_offset && y - right_offset < right.len() {
            extend_row(&mut row, &right[y - right_offset]);
        } else {
            push_blanks(&mut row, right_w);
        }
        assert(row@ =~= mid + placed_row(gr, right_offset as int, y as int, right_w as int));
        assert(row@ == spec_out[y as int]);
        out.push(row);
        y = y + 1;
    }
    assert(grid(out) =~= spec_out);
    out
}

/// `overlay` laid over `base` with its top-left corner at column
/// `offset_x`, row `offset_y`: transparent pixels of the overlay leave the
/// base as it is, rows grow to hold the overlay, and overlay rows below the
/// base are dropped.
pub fn overlay_at(base: &Matrix, overlay: &Matrix, offset_x: usize, offset_y: usize) -> (out:
    Matrix)
    requires
        forall|y: int|
            0 <= y < overlay.len() && offset_y + y < base.len() ==> offset_x + (
            #[trigger] overlay@[y]).len() <= usize::MAX,
    ensures
        grid(out) == overlay_grids(grid(*base), grid(*overlay), offset_x as int, offset_y as int),
{
    let ghost gb = grid(*base);
    let ghost go = grid(*overlay);
    let ghost spec_out = overlay_grids(gb, go, offset_x as int, offset_y as int);
    let mut out: Matrix = Vec::new();
    let mut ty: usize = 0;
    while ty < base.len()
        invariant
            ty <= base.len(),
            gb == grid(*base),
            go == grid(*overlay),
            spec_out == overlay_grids(gb, go, offset_x as int, offset_y as int),
            forall|y: int|
                0 <= y < overlay.len() && offset_y + y < base.len() ==> offset_x + (
                #[trigger] overlay@[y]).len() <= usize::MAX,
            out.len() == ty,
            forall|i: int| 0 <= i < ty ==> (#[trigger] out@[i])@ == spec_out[i],
        decreases base.len() - ty,
    {
        let base_row = &base[ty];
        if ty >= offset_y && ty - offset_y < overlay.len() {
            let orow = &overlay[ty - offset_y];
            let end = offset_x + orow.len();
            let n = if base_row.len() >= end {
                base_row.len()
            } else {
                end
            };
            let ghost want = overlay_row(base_row@, orow@, offset_x as int);
            let mut row: Vec<Option<Color>> = Vec::new();
            let mut x: usize = 0;
            while x < n
                invariant
                    x <= n,
                    n == want.len(),
                    end == offset_x + orow@.len(),
                    want == overlay_row(base_row@, orow@, offset_x as int),
                    row.len() == x,
                    forall|k: int| 0 <= k < x ==> #[trigger] row@[k] == want[k],
                decreases n - x,
            {
                let p = if x >= offset_x && x < end && orow[x - offset_x].is_some() {
                    orow[x - offset_x]
                } else if x < base_row.len() {
                    base_row[x]
                } else {
                    None
                };
                row.push(p);
                x = x + 1;
            }
            assert(row@ =~= want);
            out.push(row);
        } else {
            let mut row: Vec<Option<Color>> = Vec::new();
            extend_row(&mut row, base_row);
            assert(row@ =~= spec_out[ty as int]);
            out.push(row);
        }
        ty = ty + 1;
    }
    assert(grid(out) =~= spec_out);
    out
}


/// Checks that the i32 arithmetic of a clipped overlay neither overflows nor
/// truncates: the base and the overlay rows that are looked at are indexed
/// below `i32::MAX`, and offset plus index stays below it.
pub open spec fn clip_offsets_fit(b: Grid, o: Grid, ox: int, oy: int) -> bool {
    &&& b.len() <= i32::MAX
    &&& first_row_len(b) <= i32::MAX
    &&& forall|y: int| #![trigger o[y]] 0 <= y < o.len() ==> y <= i32::MAX && oy + y <= i32::MAX
    &&& forall|y: int, x: int|
        #![trigger o[y][x]]
        0 <= y < o.len() && 0 <= oy + y < b.len() && 0 <= x < o[y].len() ==> x <= i32::MAX && ox
            + x <= i32::MAX
}

/// Every lit overlay pixel that lands inside the base, left of the first
/// row's end, lands on an existing pixel of its row.
pub open spec fn clip_writes_in_rows(b: Grid, o: Grid, ox: int, oy: int) -> bool {
    forall|y: int, x: int|
        0 <= y < o.len() && 0 <= x < o[y].len() && #[trigger] o[y][x] is Some && 0 <= oy + y < b.len()
            && 0 <= ox + x < first_row_len(b) ==> ox + x < b[oy + y].len()
}

/// `overlay` laid over `base` at a signed offset, clipped to `base`
/// (see `clipped_overlay_grids`); offsets are exact integers, up to 2^96.
pub fn overlay_clipped_wide(base: &Matrix, overlay: &Matrix, offset_x: i128, offset_y: i128) -> (out:
    Matrix)
    requires
        -0x1_0000_0000_0000_0000_0000_0000 <= offset_x <= 0x1_0000_0000_0000_0000_0000_0000,
        -0x1_0000_0000_0000_0000_0000_0000 <= offset_y <= 0x1_0000_0000_0000_0000_0000_0000,
    ensures
        grid(out) == clipped_overlay_grids(
            grid(*base),
            grid(*overlay),
            offset_x as int,
            offset_y as int,
        ),
{
    let ghost gb = grid(*base);
    let ghost go = grid(*overlay);
    let ghost spec_out = clipped_overlay_grids(gb, go, offset_x as int, offset_y as int);
    let w = matrix_width(base);
    let mut out: Matrix = Vec::new();
    let mut ty: usize = 0;
    while ty < base.len()
        invariant
            ty <= base.len(),
            gb == grid(*base),
            go == grid(*overlay),
            w == first_row_len(gb),
            -0x1_0000_0000_0000_0000_0000_0000 <= offset_x <= 0x1_0000_0000_0000_0000_0000_0000,
            -0x1_0000_0000_0000_0000_0000_0000 <= offset_y <= 0x1_0000_0000_0000_0000_0000_0000,
            spec_out == clipped_overlay_grids(gb, go, offset_x as int, offset_y as int),
            out.len() == ty,
            forall|i: int| 0 <= i < ty ==> (#[trigger] out@[i])@ == spec_out[i],
        decreases base.len() - ty,
    {
        let base_row = &base[ty];
        let y: i128 = ty as i128 - offset_y;
        let mut row: Vec<Option<Color>> = Vec::new();
        let ghost want = spec_out[ty as int];
        let mut tx: usize = 0;
        while tx < base_row.len()
            invariant
                tx <= base_row.len(),
                -0x1_0000_0000_0000_0000_0000_0000 <= offset_x <= 0x1_0000_0000_0000_0000_0000_0000,
                want.len() == base_row.len(),
                want == spec_out[ty as int],
                spec_out == clipped_overlay_grids(gb, go, offset_x as int, offset_y as int),
                gb == grid(*base),
                go == grid(*overlay),
                w == first_row_len(gb),
                ty < gb.len(),
                base_row@ == gb[ty as int],
                y == ty - offset_y,
                row.len() == tx,
                forall|k: int| 0 <= k < tx ==> #[trigger] row@[k] == want[k],
            decreases base_row.len() - tx,
        {
            let x: i128 = tx as i128 - offset_x;
            let mut p = base_row[tx];
            if 0 <= y && y < overlay.len() as i128 && tx < w {
                let orow = &overlay[y as usize];
                if 0 <= x && x < orow.len() as i128 && orow[x as usize].is_some() {
                    p = orow[x as usize];
                }
            }
            row.push(p);
            tx = tx + 1;
        }
        assert(row@ =~= want);
        out.push(row);
        ty = ty + 1;
    }
    assert(grid(out) =~= spec_out);
    out
}

/// `overlay` laid over `base` at a signed offset (which may be negative);
/// what falls outside `base` is clipped and `base` keeps its shape.
pub fn overlay_at_clipped(base: &Matrix, overlay: &Matrix, offset_x: i32, offset_y: i32) -> (out:
    Matrix)
    requires
        clip_offsets_fit(grid(*base), grid(*overlay), offset_x as int, offset_y as int),
        clip_writes_in_rows(grid(*base), grid(*overlay), offset_x as int, offset_y as int),
    ensures
        grid(out) == clipped_overlay_grids(
            grid(*base),
            grid(*overlay),
            offset_x as int,
            offset_y as int,
        ),
{
    overlay_clipped_wide(base, overlay, offset_x as i128, offset_y as i128)
}

// ---------------------------------------------------------------------------
// Laws
// ---------------------------------------------------------------------------

/// Every row of the grid is as long as its longest row.
pub open spec fn is_rectangular(g: Grid) -> bool {
    forall|y: int| 0 <= y < g.len() ==> (#[trigger] g[y]).len() == max_row_len(g)
}

/// Every row of the grid has length `w`.
pub open spec fn all_rows_len(g: Grid, w: int) -> bool {
    forall|y: int| 0 <= y < g.len() ==> (#[trigger] g[y]).len() == w
}

/// Top-aligned concatenation onto an empty matrix gives the other matrix.
pub proof fn lemma_concat_empty_left(r: Grid)
    ensures
        concat_grids(Seq::empty(), r, VerticalAlign::Top) == r,
{
    let out = concat_grids(Seq::empty(), r, VerticalAlign::Top);
    assert forall|y: int| 0 <= y < r.len() implies out[y] == r[y] by {
        assert(blank_row(0) =~= Seq::<Option<Color>>::empty());
        assert(out[y] =~= r[y]);
    }
    assert(out =~= r);
}

/// Top-aligned concatenation of an empty matrix onto a matrix gives it back.
pub proof fn lemma_concat_empty_right(l: Grid)
    ensures
        concat_grids(l, Seq::empty(), VerticalAlign::Top) == l,
{
    let out = concat_grids(l, Seq::empty(), VerticalAlign::Top);
    assert forall|y: int| 0 <= y < l.len() implies out[y] == l[y] by {
        assert(blank_row(0) =~= Seq::<Option<Color>>::empty());
        assert(out[y] =~= l[y]);
    }
    assert(out =~= l);
}

/// Concatenation is as tall as the taller input, and when both inputs are
/// rectangular every output row is as wide as both longest rows together.
pub proof fn lemma_concat_shape(l: Grid, r: Grid, align: VerticalAlign)
    ensures
        concat_grids(l, r, align).len() == max_int(l.len() as int, r.len() as int),
        is_rectangular(l) && is_rectangular(r) ==> all_rows_len(
            concat_grids(l, r, align),
            max_row_len(l) + max_row_len(r),
        ),
{
    let out = concat_grids(l, r, align);
    if is_rectangular(l) && is_rectangular(r) {
        assert forall|y: int| 0 <= y < out.len() implies (#[trigger] out[y]).len() == max_row_len(
            l,
        ) + max_row_len(r) by {
            let lo = side_offset(l, l, r, align);
            let ro = side_offset(r, l, r, align);
            if lo <= y && y - lo < l.len() {
                assert(l[y - lo].len() == max_row_len(l));
            }
            if ro <= y && y - ro < r.len() {
                assert(r[y - ro].len() == max_row_len(r));
            }
        }
    }
}

/// Laying an empty overlay over a matrix changes nothing, clipped or not.
pub proof fn lemma_overlay_empty(b: Grid, ox: int, oy: int)
    ensures
        overlay_grids(b, Seq::empty(), ox, oy) == b,
        clipped_overlay_grids(b, Seq::empty(), ox, oy) == b,
{
    assert(overlay_grids(b, Seq::empty(), ox, oy) =~= b);
    let c = clipped_overlay_grids(b, Seq::empty(), ox, oy);
    assert forall|ty: int| 0 <= ty < b.len() implies c[ty] == b[ty] by {
        assert(c[ty] =~= b[ty]);
    }
    assert(c =~= b);
}

/// A clipped overlay keeps the base's shape; every base pixel stays unless a
/// lit overlay pixel lands on it, and a lit overlay pixel that lands inside
/// the base (left of the first row's end) shows.
pub proof fn lemma_clipped_overlay_pixels(b: Grid, o: Grid, ox: int, oy: int, ty: int, tx: int)
    requires
        0 <= ty < b.len(),
        0 <= tx < b[ty].len(),
    ensures
        clipped_overlay_grids(b, o, ox, oy).len() == b.len(),
        clipped_overlay_grids(b, o, ox, oy)[ty].len() == b[ty].len(),
        ({
            let y = ty - oy;
            let x = tx - ox;
            if 0 <= y < o.len() && 0 <= x < o[y].len() && tx < first_row_len(b) && o[y][x] is Some {
                clipped_overlay_grids(b, o, ox, oy)[ty][tx] == o[y][x]
            } else {
                clipped_overlay_grids(b, o, ox, oy)[ty][tx] == b[ty][tx]
            }
        }),
{
}

/// Overlaying keeps the base's height and never shortens a row; every base
/// pixel stays unless a lit overlay pixel lands on it, and every lit overlay
/// pixel on a row of the base shows.
pub proof fn lemma_overlay_pixels(b: Grid, o: Grid, ox: int, oy: int, ty: int, tx: int)
    requires
        0 <= ox,
        0 <= oy,
        0 <= ty < b.len(),
    ensures
        overlay_grids(b, o, ox, oy).len() == b.len(),
        overlay_grids(b, o, ox, oy)[ty].len() >= b[ty].len(),
        0 <= tx < b[ty].len() && !(oy <= ty < oy + o.len() && ox <= tx < ox + o[ty - oy].len()
            && o[ty - oy][tx - ox] is Some) ==> overlay_grids(b, o, ox, oy)[ty][tx] == b[ty][tx],
        oy <= ty < oy + o.len() && ox <= tx < ox + o[ty - oy].len() && o[ty - oy][tx - ox] is Some
            ==> overlay_grids(b, o, ox, oy)[ty][tx] == o[ty - oy][tx - ox],
{
}


/// A grid whose rows all have length `w`, and that has a row, has longest
/// row `w`.
pub proof fn lemma_uniform_max_row_len(g: Grid, w: int)
    requires
        all_rows_len(g, w),
        w >= 0,
    ensures
        g.len() > 0 ==> max_row_len(g) == w,
        g.len() == 0 ==> max_row_len(g) == 0,
    decreases g.len(),
{
    if g.len() > 0 {
        let d = g.drop_last();
        assert forall|y: int| 0 <= y < d.len() implies (#[trigger] d[y]).len() == w by {
            assert(d[y] == g[y]);
        }
        lemma_uniform_max_row_len(d, w);
    }
}

/// Concatenating two rectangular grids gives a rectangular grid as wide as
/// both together.
pub proof fn lemma_concat_rectangular(l: Grid, r: Grid, align: VerticalAlign)
    requires
        is_rectangular(l),
        is_rectangular(r),
    ensures
        is_rectangular(concat_grids(l, r, align)),
        concat_grids(l, r, align).len() > 0 ==> max_row_len(concat_grids(l, r, align))
            == max_row_len(l) + max_row_len(r),
{
    lemma_concat_shape(l, r, align);
    lemma_max_row_len_nonneg(l);
    lemma_max_row_len_nonneg(r);
    let out = concat_grids(l, r, align);
    lemma_uniform_max_row_len(out, max_row_len(l) + max_row_len(r));
}

pub proof fn lemma_max_row_len_nonneg(g: Grid)
    ensures
        max_row_len(g) >= 0,
    decreases g.len(),
{
    if g.len() > 0 {
        lemma_max_row_len_nonneg(g.drop_last());
    }
}

/// A clipped overlay has exactly the base's shape.
pub proof fn lemma_clipped_overlay_shape(b: Grid, o: Grid, ox: int, oy: int)
    ensures
        clipped_overlay_grids(b, o, ox, oy).len() == b.len(),
        forall|ty: int|
            0 <= ty < b.len() ==> (#[trigger] clipped_overlay_grids(b, o, ox, oy)[ty]).len()
                == b[ty].len(),
{
}


/// On a base whose rows all have length `w`, an overlay placed at
/// non-negative offsets whose rows all end within `w` is drawn the same
/// clipped or not: rows below the base are dropped by both.
pub proof fn lemma_clipped_overlay_agrees(b: Grid, o: Grid, w: int, ox: int, oy: int)
    requires
        all_rows_len(b, w),
        0 <= ox,
        0 <= oy,
        forall|y: int| 0 <= y < o.len() ==> ox + (#[trigger] o[y]).len() <= w,
    ensures
        clipped_overlay_grids(b, o, ox, oy) == overlay_grids(b, o, ox, oy),
{
    let c = clipped_overlay_grids(b, o, ox, oy);
    let u = overlay_grids(b, o, ox, oy);
    assert forall|ty: int| 0 <= ty < b.len() implies c[ty] == u[ty] by {
        assert(first_row_len(b) == w) by {
            assert(b[0].len() == w);
        }
        if oy <= ty < oy + o.len() {
            assert(ox + o[ty - oy].len() <= w);
            assert(c[ty] =~= u[ty]);
        } else {
            assert(c[ty] =~= u[ty]);
        }
    }
    assert(c =~= u);
}

/// No row is longer than the longest row.
pub proof fn lemma_max_row_len_ge(g: Grid, y: int)
    requires
        0 <= y < g.len(),
    ensures
        g[y].len() <= max_row_len(g),
    decreases g.len(),
{
    if y < g.len() - 1 {
        lemma_max_row_len_ge(g.drop_last(), y);
    }
}

} // verus!
