use vstd::prelude::*;
use crate::matrix::{first_row_len, grid, matrix_width, Grid, Matrix, Color};

verus! {

/// How LEDs are drawn: each LED is a disc of diameter `led_size` in a cell
/// `led_size + spacing` wide, lit in its pixel's colour or `off_color`, on
/// a `bg_color` background.
#[derive(Debug, Clone, Copy, PartialEq, Eq)]
pub struct LedRenderOptions {
    pub led_size: u32,
    pub spacing: u32,
    pub off_color: [u8; 3],
    pub bg_color: [u8; 3],
}

/// One LED disc: its centre and colour.
#[derive(Debug, Clone, Copy, PartialEq, Eq)]
pub struct LedDot {
    pub center_x: i32,
    pub center_y: i32,
    pub color: Color,
}

/// An LED picture: its size, background, disc radius, and the discs to
/// draw in order.
#[derive(Debug)]
pub struct LedLayout {
    pub width: u32,
    pub height: u32,
    pub background: Color,
    pub radius: i32,
    pub dots: Vec<LedDot>,
}

impl Default for LedRenderOptions {
    fn default() -> (o: LedRenderOptions)
        ensures
            o.led_size == 12,
            o.spacing == 4,
            o.off_color == [40u8, 0u8, 0u8],
            o.bg_color == [10u8, 0u8, 0u8],
    {
        LedRenderOptions { led_size: 12, spacing: 4, off_color: [40, 0, 0], bg_color: [10, 0, 0] }
    }
}

/// The width of an LED cell.
pub open spec fn cell_size(o: LedRenderOptions) -> int {
    o.led_size + o.spacing
}

/// The disc for the pixel at row `y`, column `x`: centred half an LED into
/// its cell, in the pixel's colour or the off colour.
pub open spec fn led_dot(o: LedRenderOptions, y: int, x: int, p: Option<Color>) -> LedDot {
    LedDot {
        center_x: (x * cell_size(o) + o.led_size / 2) as i32,
        center_y: (y * cell_size(o) + o.led_size / 2) as i32,
        color: match p {
            Some(c) => c,
            None => Color(o.off_color),
        },
    }
}

/// The discs of row `y`, left to right.
pub open spec fn row_dots(g: Grid, o: LedRenderOptions, y: int) -> Seq<LedDot> {
    Seq::new(g[y].len(), |x: int| led_dot(o, y, x, g[y][x]))
}

/// The discs of the first `k` rows, row by row.
pub open spec fn dots_upto(g: Grid, o: LedRenderOptions, k: int) -> Seq<LedDot>
    decreases k,
{
    if k <= 0 {
        Seq::empty()
    } else {
        dots_upto(g, o, k - 1) + row_dots(g, o, k - 1)
    }
}

/// The picture's width: a cell per pixel of the first row, at least one.
pub open spec fn layout_width(g: Grid, o: LedRenderOptions) -> int {
    (if first_row_len(g) > 0 {
        first_row_len(g)
    } else {
        1
    }) * cell_size(o)
}

/// The LED picture's arithmetic stays in `u32`: cells, picture size and
/// every disc centre (the last of each row, on its row, reaches furthest);
/// rows and the first row are counted in a `u32`.
pub open spec fn layout_fits(g: Grid, o: LedRenderOptions) -> bool {
    &&& cell_size(o) <= u32::MAX
    &&& g.len() <= u32::MAX
    &&& first_row_len(g) <= u32::MAX
    &&& layout_width(g, o) <= u32::MAX
    &&& g.len() * cell_size(o) <= u32::MAX
    &&& forall|y: int|
        #![trigger g[y]]
        0 <= y < g.len() && g[y].len() > 0 ==> (g[y].len() - 1) * cell_size(o) + o.led_size / 2
            <= u32::MAX && y * cell_size(o) + o.led_size / 2 <= u32::MAX
}

/// How a matrix is drawn as LEDs: a picture a cell per pixel of the first
/// row wide (at least one) and a cell per row tall, filled with the
/// background, with a disc of radius `led_size / 2` for every pixel in row
/// order.
pub fn led_layout(matrix: &Matrix, options: &LedRenderOptions) -> (l: LedLayout)
    requires
        layout_fits(grid(*matrix), *options),
    ensures
        l.width == layout_width(grid(*matrix), *options),
        l.height == grid(*matrix).len() * cell_size(*options),
        l.background == Color(options.bg_color),
        l.radius == (options.led_size / 2) as i32,
        l.dots@ == dots_upto(grid(*matrix), *options, grid(*matrix).len() as int),
{
    let ghost g = grid(*matrix);
    let total_cols = matrix_width(matrix) as u32;
    let rows = matrix.len() as u32;
    let cell = options.led_size + options.spacing;
    let cols = if total_cols > 1 {
        total_cols
    } else {
        1
    };
    let img_width = cols * cell;
    let img_height = rows * cell;
    let radius = (options.led_size / 2) as i32;
    let half = options.led_size / 2;
    let mut dots: Vec<LedDot> = Vec::new();
    let mut y: usize = 0;
    while y < matrix.len()
        invariant
            y <= matrix.len(),
            g == grid(*matrix),
            layout_fits(g, *options),
            cell == cell_size(*options),
            half == options.led_size / 2,
            dots@ == dots_upto(g, *options, y as int),
        decreases matrix.len() - y,
    {
        let row = &matrix[y];
        let ghost before = dots@;
        let mut x: usize = 0;
        while x < row.len()
            invariant
                x <= row.len(),
                y < g.len(),
                row@ == g[y as int],
                g == grid(*matrix),
                layout_fits(g, *options),
                cell == cell_size(*options),
                half == options.led_size / 2,
                dots@ == before + row_dots(g, *options, y as int).take(x as int),
            decreases row.len() - x,
        {
            assert(g[y as int][x as int] == row@[x as int]);
            proof {
                let c = cell as int;
                assert(g[y as int].len() > 0);
                lemma_mul_mono(x as int, g[y as int].len() - 1, c);
                assert(x * c + half <= u32::MAX && y * c + half <= u32::MAX);
                if c > 0 {
                    assert(x <= x * c) by (nonlinear_arith)
                        requires
                            c >= 1,
                            x >= 0,
                    ;
                    assert((x as u32) as int == x);
                } else {
                    let xu = (x as u32) as int;
                    assert(xu * c == 0 && x * c == 0) by (nonlinear_arith)
                        requires
                            c == 0,
                    ;
                }
                assert((x as u32) as int * c == x * c);
                assert((y as u32) as int == y);
            }
            let cx = #[verifier::truncate] (((x as u32) * cell + half) as i32);
            let cy = #[verifier::truncate] (((y as u32) * cell + half) as i32);
            let color = match row[x] {
                Some(c) => c,
                None => Color(options.off_color),
            };
            assert(cx == led_dot(*options, y as int, x as int, g[y as int][x as int]).center_x);
            assert(cy == led_dot(*options, y as int, x as int, g[y as int][x as int]).center_y);
            dots.push(LedDot { center_x: cx, center_y: cy, color });
            assert(row_dots(g, *options, y as int).take(x + 1) =~= row_dots(
                g,
                *options,
                y as int,
            ).take(x as int).push(led_dot(*options, y as int, x as int, g[y as int][x as int])));
            x = x + 1;
        }
        assert(row_dots(g, *options, y as int).take(row.len() as int) =~= row_dots(
            g,
            *options,
            y as int,
        ));
        y = y + 1;
    }
    LedLayout {
        width: img_width,
        height: img_height,
        background: Color(options.bg_color),
        radius,
        dots,
    }
}


// ---------------------------------------------------------------------------
// Where the discs go
// ---------------------------------------------------------------------------

/// The number of pixels in the rows above row `y`.
pub open spec fn pixels_before(g: Grid, y: int) -> int
    decreases y,
{
    if y <= 0 {
        0
    } else {
        pixels_before(g, y - 1) + g[y - 1].len()
    }
}

proof fn lemma_dots_prefix(g: Grid, o: LedRenderOptions, k: int, y: int, x: int)
    requires
        0 <= y < k <= g.len(),
        0 <= x < g[y].len(),
    ensures
        dots_upto(g, o, k).len() == pixels_before(g, k),
        pixels_before(g, y) + x < pixels_before(g, k),
        dots_upto(g, o, k)[pixels_before(g, y) + x] == row_dots(g, o, y)[x],
    decreases k,
{
    lemma_dots_len(g, o, k - 1);
    lemma_dots_len(g, o, y);
    let prev = dots_upto(g, o, k - 1);
    let row = row_dots(g, o, k - 1);
    assert(dots_upto(g, o, k) == prev + row);
    if y < k - 1 {
        lemma_dots_prefix(g, o, k - 1, y, x);
        let i = pixels_before(g, y) + x;
        assert(0 <= i < prev.len());
        assert((prev + row)[i] == prev[i]);
    } else {
        assert((prev + row)[pixels_before(g, y) + x] == row[x]);
    }
}

proof fn lemma_dots_len(g: Grid, o: LedRenderOptions, k: int)
    requires
        0 <= k <= g.len(),
    ensures
        dots_upto(g, o, k).len() == pixels_before(g, k),
        pixels_before(g, k) >= 0,
    decreases k,
{
    if k > 0 {
        lemma_dots_len(g, o, k - 1);
    }
}

/// The disc for the pixel at row `y`, column `x` is the one after the
/// pixels of the rows above and the `x` before it in its row; it is centred
/// at (`x * (led_size + spacing) + led_size / 2`,
/// `y * (led_size + spacing) + led_size / 2`) and lit in the pixel's colour,
/// or the off colour for a transparent pixel. There is one disc per pixel.
pub proof fn lemma_led_dot_place(g: Grid, o: LedRenderOptions, y: int, x: int)
    requires
        0 <= y < g.len(),
        0 <= x < g[y].len(),
    ensures
        dots_upto(g, o, g.len() as int).len() == pixels_before(g, g.len() as int),
        dots_upto(g, o, g.len() as int)[pixels_before(g, y) + x] == (LedDot {
            center_x: (x * (o.led_size + o.spacing) + o.led_size / 2) as i32,
            center_y: (y * (o.led_size + o.spacing) + o.led_size / 2) as i32,
            color: match g[y][x] {
                Some(c) => c,
                None => Color(o.off_color),
            },
        }),
{
    lemma_dots_prefix(g, o, g.len() as int, y, x);
}

// ---------------------------------------------------------------------------
// Whether a matrix can be drawn
// ---------------------------------------------------------------------------

proof fn lemma_mul_mono(a: int, b: int, c: int)
    requires
        0 <= a <= b,
        c >= 0,
    ensures
        a * c <= b * c,
{
    assert(a * c <= b * c) by (nonlinear_arith)
        requires
            0 <= a <= b,
            c >= 0,
    ;
}

/// Whether the LED picture's arithmetic stays in `u32` (see `layout_fits`).
pub fn layout_fits_check(matrix: &Matrix, options: &LedRenderOptions) -> (b: bool)
    ensures
        b == layout_fits(grid(*matrix), *options),
{
    let ghost g = grid(*matrix);
    let ghost o = *options;
    let cell: u128 = options.led_size as u128 + options.spacing as u128;
    let max: u128 = 0xffff_ffff;
    if cell > max {
        return false;
    }
    let n = matrix.len();
    if n as u128 > max {
        return false;
    }
    let w = matrix_width(matrix);
    if w as u128 > max {
        return false;
    }
    let cols: u128 = if w > 0 {
        w as u128
    } else {
        1
    };
    proof {
        assert(cols * cell <= 0xffff_ffff * 0xffff_ffff) by (nonlinear_arith)
            requires
                cols <= 0xffff_ffff,
                cell <= 0xffff_ffff,
        ;
        assert(n as u128 * cell <= 0xffff_ffff * 0xffff_ffff) by (nonlinear_arith)
            requires
                n <= 0xffff_ffff,
                cell <= 0xffff_ffff,
        ;
    }
    if cols * cell > max {
        return false;
    }
    if (n as u128) * cell > max {
        return false;
    }
    let half: u128 = (options.led_size / 2) as u128;
    let mut y: usize = 0;
    while y < n
        invariant
            y <= n == matrix.len(),
            n <= max,
            w as int == first_row_len(g),
            w <= max,
            cols * cell <= max,
            cols as int == (if w > 0 {
                w as int
            } else {
                1
            }),
            (n as u128) * cell <= max,
            g == grid(*matrix),
            o == *options,
            cell == cell_size(o),
            cell <= max,
            max == u32::MAX,
            half == o.led_size / 2,
            forall|yy: int|
                #![trigger g[yy]]
                0 <= yy < y && g[yy].len() > 0 ==> (g[yy].len() - 1) * cell_size(o) + o.led_size
                    / 2 <= u32::MAX && yy * cell_size(o) + o.led_size / 2 <= u32::MAX,
        decreases n - y,
    {
        let len = matrix[y].len();
        assert(g[y as int].len() == len);
        if len > 0 {
            proof {
                lemma_mul_mono(0, (len - 1) as int, cell as int);
                lemma_mul_mono(0, y as int, cell as int);
                assert((len - 1) as int * (cell as int) <= 0xffff_ffff_ffff_ffff * 0xffff_ffff) by (nonlinear_arith)
                    requires
                        len - 1 <= 0xffff_ffff_ffff_ffffu64,
                        cell <= 0xffff_ffff,
                        len >= 1,
                ;
                assert(y as int * (cell as int) <= 0xffff_ffff_ffff_ffff * 0xffff_ffff) by (nonlinear_arith)
                    requires
                        y <= 0xffff_ffff_ffff_ffffu64,
                        cell <= 0xffff_ffff,
                ;
            }
            let last_x: u128 = ((len - 1) as u128) * cell + half;
            let row_y: u128 = (y as u128) * cell + half;
            if last_x > max || row_y > max {
                return false;
            }
            assert(y * cell_size(o) + o.led_size / 2 <= u32::MAX);
        }
        y = y + 1;
    }
    true
}

/// Whether `render_led_matrices` can draw the grid: the picture's
/// arithmetic stays in `u32`, its bytes fit one allocation, and every disc
/// stays in the range the drawing handles.
pub open spec fn can_draw_leds(g: Grid, o: LedRenderOptions) -> bool {
    &&& layout_fits(g, o)
    &&& layout_width(g, o) * (g.len() * cell_size(o)) * 3 <= isize::MAX
    &&& discs_drawable(dots_upto(g, o, g.len() as int), (o.led_size / 2) as int)
}

/// Whether `render_led_matrices` can draw `matrix` with `options` (see
/// `can_draw_leds`).
pub fn led_picture_fits(matrix: &Matrix, options: &LedRenderOptions) -> (b: bool)
    ensures
        b == can_draw_leds(grid(*matrix), *options),
{
    if !layout_fits_check(matrix, options) {
        return false;
    }
    let layout = led_layout(matrix, options);
    proof {
        assert((layout.width as u128) * (layout.height as u128) <= 0xffff_ffff * 0xffff_ffff)
            by (nonlinear_arith)
            requires
                layout.width <= 0xffff_ffffu32,
                layout.height <= 0xffff_ffffu32,
        ;
    }
    let wh: u128 = (layout.width as u128) * (layout.height as u128);
    let bytes: u128 = wh * 3;
    if bytes > isize::MAX as u128 {
        return false;
    }
    let r = layout.radius;
    assert(r as int == options.led_size / 2);
    if r < 0 || r > 0x3fff_ffff {
        return false;
    }
    let ghost dots = layout.dots@;
    let mut i: usize = 0;
    while i < layout.dots.len()
        invariant
            i <= layout.dots.len(),
            dots == layout.dots@,
            dots == dots_upto(grid(*matrix), *options, grid(*matrix).len() as int),
            r as int == options.led_size / 2,
            0 <= r <= 0x3fff_ffff,
            forall|j: int|
                #![trigger dots[j]]
                0 <= j < i ==> i32::MIN + r <= dots[j].center_x <= MAX_DISC_END - r
                    && i32::MIN + r <= dots[j].center_y <= i32::MAX - r,
        decreases layout.dots.len() - i,
    {
        let d = layout.dots[i];
        let cx = d.center_x as i64;
        let cy = d.center_y as i64;
        let ri = r as i64;
        if cx - ri < i32::MIN as i64 || cx + ri > MAX_DISC_END as i64 || cy - ri < i32::MIN as i64
            || cy + ri > i32::MAX as i64 {
            assert(dots[i as int] == d);
            assert(!discs_drawable(dots, r as int));
            return false;
        }
        i = i + 1;
    }
    true
}

// ---------------------------------------------------------------------------
// Pictures of the `image` crate
// ---------------------------------------------------------------------------

/// The largest x a disc may reach: `i32::MAX - 128`, which rounds to an
/// `f32` below 2^31.
pub const MAX_DISC_END: i32 = 2_147_483_519;

/// An RGB picture: an `image::RgbImage`, hidden from proofs, whose size
/// and bytes are known by `picture_size` and `picture_bytes`.
#[verifier::external_body]
pub struct LedPicture {
    image: image::RgbImage,
}

/// The width and height a picture was made with.
pub uninterp spec fn picture_size(p: LedPicture) -> (u32, u32);

/// The RGB bytes of a picture, row by row, three per pixel.
pub uninterp spec fn picture_bytes(p: LedPicture) -> Seq<u8>;

/// The bytes of a `width` by `height` picture, given as `bytes`, after
/// `imageproc`'s `draw_filled_circle_mut` paints the disc of `radius`
/// around (`cx`, `cy`) in the RGB `color`.
pub uninterp spec fn disc_drawn(
    bytes: Seq<u8>,
    width: u32,
    height: u32,
    cx: i32,
    cy: i32,
    radius: i32,
    color: Seq<u8>,
) -> Seq<u8>;

/// Calls `RgbImage::from_pixel`: a `width` by `height` picture all of whose
/// pixels are `color`, row by row. It allocates its bytes in one `Vec`,
/// which must not exceed `isize::MAX` bytes.
#[verifier::external_body]
fn blank_picture(width: u32, height: u32, color: Color) -> (img: LedPicture)
    requires
        width * height * 3 <= isize::MAX,
    ensures
        picture_size(img) == (width, height),
        picture_bytes(img) == background_bytes(width, height, color),
{
    LedPicture { image: image::RgbImage::from_pixel(width, height, image::Rgb(color.0)) }
}

/// Calls `imageproc::drawing::draw_filled_circle_mut`: the picture keeps its
/// size and its bytes become `disc_drawn` of what they were. Which pixels
/// the disc covers is not stated. The centre must stay `radius` above
/// `i32::MIN`, where the drawing's `i32` arithmetic would overflow, and
/// `radius` plus 128 below `i32::MAX`: the drawing passes each span's right
/// end through `f32`, and an end that rounds up to 2^31 makes its line walk
/// step past `i32::MAX`.
#[verifier::external_body]
fn draw_disc(img: &mut LedPicture, cx: i32, cy: i32, radius: i32, color: Color)
    requires
        0 <= radius <= 0x3fff_ffff,
        i32::MIN + radius <= cx <= MAX_DISC_END - radius,
        i32::MIN + radius <= cy <= i32::MAX - radius,
    ensures
        picture_size(*final(img)) == picture_size(*old(img)),
        picture_bytes(*final(img)) == disc_drawn(
            picture_bytes(*old(img)),
            picture_size(*old(img)).0,
            picture_size(*old(img)).1,
            cx,
            cy,
            radius,
            color.0@,
        ),
{
    imageproc::drawing::draw_filled_circle_mut(&mut img.image, (cx, cy), radius, image::Rgb(color.0));
}

/// Calls `ImageBuffer::dimensions`: the size the picture was made with.
#[verifier::external_body]
fn picture_dimensions(p: &LedPicture) -> (d: (u32, u32))
    ensures
        d == picture_size(*p),
{
    p.image.dimensions()
}

/// Calls `ImageBuffer::into_raw`: the picture's bytes.
#[verifier::external_body]
fn picture_into_bytes(p: LedPicture) -> (b: Vec<u8>)
    ensures
        b@ == picture_bytes(p),
{
    p.image.into_raw()
}

impl LedPicture {
    /// The picture's width, height and RGB bytes, row by row.
    pub fn into_parts(self) -> (r: (u32, u32, Vec<u8>))
        ensures
            (r.0, r.1) == picture_size(self),
            r.2@ == picture_bytes(self),
    {
        let (w, h) = picture_dimensions(&self);
        (w, h, picture_into_bytes(self))
    }
}

/// The bytes of a `width` by `height` picture filled with `color`.
pub open spec fn background_bytes(width: u32, height: u32, color: Color) -> Seq<u8> {
    Seq::new((width * height * 3) as nat, |i: int| color.0@[i % 3])
}

/// `bytes` after the discs are painted in order.
pub open spec fn discs_drawn(
    bytes: Seq<u8>,
    width: u32,
    height: u32,
    dots: Seq<LedDot>,
    radius: i32,
) -> Seq<u8>
    decreases dots.len(),
{
    if dots.len() == 0 {
        bytes
    } else {
        disc_drawn(
            discs_drawn(bytes, width, height, dots.drop_last(), radius),
            width,
            height,
            dots.last().center_x,
            dots.last().center_y,
            radius,
            dots.last().color.0@,
        )
    }
}

/// Every disc stays `radius` away from the ends of `i32`, and reaches at
/// most `MAX_DISC_END` to the right.
pub open spec fn discs_drawable(dots: Seq<LedDot>, radius: int) -> bool {
    &&& 0 <= radius <= 0x3fff_ffff
    &&& forall|i: int|
        #![trigger dots[i]]
        0 <= i < dots.len() ==> i32::MIN + radius <= dots[i].center_x <= MAX_DISC_END - radius
            && i32::MIN + radius <= dots[i].center_y <= i32::MAX - radius
}

/// A matrix drawn as LEDs (see `led_layout`): the background, then a disc
/// for every pixel in row order.
pub fn render_led_matrices(matrix: &Matrix, options: &LedRenderOptions) -> (img: LedPicture)
    requires
        can_draw_leds(grid(*matrix), *options),
    ensures
        ({
            let g = grid(*matrix);
            let w = layout_width(g, *options) as u32;
            let h = (g.len() * cell_size(*options)) as u32;
            &&& picture_size(img) == (w, h)
            &&& picture_bytes(img) == discs_drawn(
                background_bytes(w, h, Color(options.bg_color)),
                w,
                h,
                dots_upto(g, *options, g.len() as int),
                (options.led_size / 2) as i32,
            )
        }),
{
    let layout = led_layout(matrix, options);
    let mut img = blank_picture(layout.width, layout.height, layout.background);
    let ghost start = picture_bytes(img);
    let mut i: usize = 0;
    while i < layout.dots.len()
        invariant
            i <= layout.dots.len(),
            layout.radius == options.led_size / 2,
            discs_drawable(layout.dots@, (options.led_size / 2) as int),
            picture_size(img) == (layout.width, layout.height),
            picture_bytes(img) == discs_drawn(
                start,
                layout.width,
                layout.height,
                layout.dots@.take(i as int),
                layout.radius,
            ),
        decreases layout.dots.len() - i,
    {
        let dot = layout.dots[i];
        assert(layout.dots@.take(i + 1).drop_last() =~= layout.dots@.take(i as int));
        draw_disc(&mut img, dot.center_x, dot.center_y, layout.radius, dot.color);
        i = i + 1;
    }
    assert(layout.dots@.take(layout.dots.len() as int) =~= layout.dots@);
    img
}

} // verus!
