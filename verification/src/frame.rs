use vstd::prelude::*;
use vstd::string::*;
use crate::bitmap::{glyph_table, text_grid, text_to_matrix, GlyphMap};
use crate::config::{is_same_path, paths_equal, NamedPath};
use crate::matrix::{
    blank_row, clipped_overlay_grids, first_row_len, grid, max_row_len, max_row_width,
    overlay_clipped_wide, Grid,
    Matrix, Color, VerticalAlign,
};
use crate::project::{ComponentLayer, Frame, PositionedLayer, RectangleComponent, TextComponent, TextEffect};

verus! {

/// The colour of an `(r, g, b)` triple.
pub open spec fn color_of(c: (u8, u8, u8)) -> Color {
    Color([c.0, c.1, c.2])
}

/// The colour of an `(r, g, b)` triple.
pub fn color_from_tuple(c: (u8, u8, u8)) -> (r: Color)
    ensures
        r == color_of(c),
{
    Color([c.0, c.1, c.2])
}

// ---------------------------------------------------------------------------
// Fonts
// ---------------------------------------------------------------------------

/// The index of the first font whose path is the path `font` or whose name
/// is `font`.
pub open spec fn font_entry_index(font: Seq<char>, fonts: Seq<NamedPath>) -> Option<int>
    decreases fonts.len(),
{
    if fonts.len() == 0 {
        None
    } else if is_same_path(fonts[0].path@, font) || fonts[0].name@ == font {
        Some(0)
    } else {
        match font_entry_index(font, fonts.drop_first()) {
            Some(i) => Some(i + 1),
            None => None,
        }
    }
}

/// The file a text layer's font names: the path of the first font in the
/// list that it names, by path or by name, else the font itself as a path.
pub open spec fn resolved_font_path(font: Seq<char>, fonts: Seq<NamedPath>) -> Seq<char> {
    match font_entry_index(font, fonts) {
        Some(i) => fonts[i].path@,
        None => font,
    }
}

/// The file a text layer's font names (see `resolved_font_path`).
pub fn resolve_font_path(font: &str, font_list: &[NamedPath]) -> (p: String)
    ensures
        p@ == resolved_font_path(font@, font_list@),
{
    let mut i: usize = 0;
    assert(font_list@.skip(0) =~= font_list@);
    while i < font_list.len()
        invariant
            i <= font_list.len(),
            font_entry_index(font@, font_list@) == match font_entry_index(
                font@,
                font_list@.skip(i as int),
            ) {
                Some(k) => Some(k + i),
                None => None,
            },
        decreases font_list.len() - i,
    {
        assert(font_list@.skip(i as int).drop_first() =~= font_list@.skip(i + 1));
        assert(font_list@.skip(i as int)[0] == font_list@[i as int]);
        let entry = &font_list[i];
        if paths_equal(entry.path.as_str(), font) || str_eq(entry.name.as_str(), font) {
            return entry.path.clone();
        }
        i = i + 1;
    }
    assert(font_list@.skip(i as int) =~= Seq::<NamedPath>::empty());
    String::from_str(font)
}

/// Whether two strings hold the same characters.
pub fn str_eq(a: &str, b: &str) -> (r: bool)
    ensures
        r == (a@ == b@),
{
    let n = a.unicode_len();
    if n != b.unicode_len() {
        return false;
    }
    let av = crate::text::chars_of(a);
    let bv = crate::text::chars_of(b);
    let mut i: usize = 0;
    while i < n
        invariant
            i <= n == av.len() == bv.len(),
            av@ == a@,
            bv@ == b@,
            forall|k: int| 0 <= k < i ==> av@[k] == bv@[k],
        decreases n - i,
    {
        if av[i] != bv[i] {
            return false;
        }
        i = i + 1;
    }
    assert(av@ =~= bv@);
    true
}

/// The font file a layer needs loaded: for text with text and a font, the
/// resolved path of its font; nothing for other layers.
pub open spec fn font_needed(layer: ComponentLayer, fonts: Seq<NamedPath>) -> Option<Seq<char>> {
    match layer {
        ComponentLayer::Text(t) => if t.text@.len() == 0 || t.font@.len() == 0 {
            None
        } else {
            Some(resolved_font_path(t.font@, fonts))
        },
        ComponentLayer::Rectangle(_) => None,
    }
}

/// The font file a layer needs loaded, if any (see `font_needed`).
pub fn layer_font_request(layer: &ComponentLayer, font_list: &[NamedPath]) -> (r: Option<String>)
    ensures
        match r {
            Some(p) => font_needed(*layer, font_list@) == Some(p@),
            None => font_needed(*layer, font_list@) is None,
        },
{
    match layer {
        ComponentLayer::Text(text) => {
            if text.text.as_str().is_empty() || text.font.as_str().is_empty() {
                None
            } else {
                Some(resolve_font_path(text.font.as_str(), font_list))
            }
        },
        ComponentLayer::Rectangle(_) => None,
    }
}

// ---------------------------------------------------------------------------
// Outline
// ---------------------------------------------------------------------------

/// Some pixel at row `y0..=y1`, column `x0..=x1` of `g` is lit.
pub open spec fn lit_in_window(g: Grid, y0: int, y1: int, x0: int, x1: int) -> bool {
    exists|y: int, x: int|
        y0 <= y <= y1 && x0 <= x <= x1 && 0 <= y < g.len() && 0 <= x < g[y].len() && (
        #[trigger] g[y][x]) is Some
}

/// `g` with a ring of `w` pixels of `color` around its lit pixels: the
/// result is `2 * w` rows taller and `2 * w` columns wider than `g`'s
/// longest row, `g` sits at (`w`, `w`), and a transparent pixel becomes
/// `color` where a lit pixel of `g` lies within `w` rows and `w` columns of
/// it. An empty `g`, a zero `w`, or a `g` of empty rows stays as it is.
pub open spec fn outline_grid(g: Grid, w: int, color: Color) -> Grid {
    if g.len() == 0 || w == 0 || max_row_len(g) == 0 {
        g
    } else {
        Seq::new(
            (g.len() + 2 * w) as nat,
            |oy: int|
                Seq::new(
                    (max_row_len(g) + 2 * w) as nat,
                    |ox: int|
                        {
                            let y = oy - w;
                            let x = ox - w;
                            if 0 <= y < g.len() && 0 <= x < g[y].len() && g[y][x] is Some {
                                g[y][x]
                            } else if lit_in_window(g, oy - 2 * w, oy, ox - 2 * w, ox) {
                                Some(color)
                            } else {
                                None
                            }
                        },
                ),
        )
    }
}

/// The outlined matrix's size fits in `usize`.
pub open spec fn outline_fits(g: Grid, w: int) -> bool {
    g.len() + 2 * w <= usize::MAX && max_row_len(g) + 2 * w <= usize::MAX
}

/// Whether a pixel at rows `y0..=y1`, columns `x0..=x1` of `base` is lit.
fn window_has_lit(base: &Matrix, y0: usize, y1: usize, x0: usize, x1: usize) -> (b: bool)
    requires
        y1 < usize::MAX,
        x1 < usize::MAX,
    ensures
        b == lit_in_window(grid(*base), y0 as int, y1 as int, x0 as int, x1 as int),
{
    let ghost g = grid(*base);
    let mut y = y0;
    while y <= y1 && y < base.len()
        invariant
            y0 <= y,
            y1 < usize::MAX,
            x1 < usize::MAX,
            g == grid(*base),
            forall|yy: int, xx: int|
                y0 <= yy < y && x0 <= xx <= x1 && 0 <= yy < g.len() && 0 <= xx < g[yy].len() ==> (
                #[trigger] g[yy][xx]) is None,
        decreases y1 + 1 - y,
    {
        let row = &base[y];
        let mut x = x0;
        while x <= x1 && x < row.len()
            invariant
                x0 <= x,
                g == grid(*base),
                y0 <= y <= y1,
                y < g.len(),
                x1 < usize::MAX,
                row@ == g[y as int],
                forall|xx: int| x0 <= xx < x && 0 <= xx < row@.len() ==> #[trigger] row@[xx] is None,
            decreases x1 + 1 - x,
        {
            if row[x].is_some() {
                assert(g[y as int][x as int] is Some);
                assert(lit_in_window(g, y0 as int, y1 as int, x0 as int, x1 as int));
                return true;
            }
            x = x + 1;
        }
        y = y + 1;
    }
    false
}

/// `base` with a ring of `width` pixels of `color` around its lit pixels
/// (see `outline_grid`).
pub fn apply_outline_effect(base: &Matrix, width: usize, color: Color) -> (out: Matrix)
    requires
        outline_fits(grid(*base), width as int),
    ensures
        grid(out) == outline_grid(grid(*base), width as int, color),
{
    let ghost g = grid(*base);
    let base_w = max_row_width(base);
    if base.len() == 0 || width == 0 || base_w == 0 {
        let mut out: Matrix = Vec::new();
        let mut i: usize = 0;
        while i < base.len()
            invariant
                i <= base.len(),
                g == grid(*base),
                out.len() == i,
                forall|k: int| 0 <= k < i ==> (#[trigger] out@[k])@ == g[k],
            decreases base.len() - i,
        {
            let mut row: Vec<Option<Color>> = Vec::new();
            let src = &base[i];
            let mut x: usize = 0;
            while x < src.len()
                invariant
                    x <= src.len(),
                    row@ == src@.take(x as int),
                decreases src.len() - x,
            {
                row.push(src[x]);
                assert(src@.take(x + 1) =~= src@.take(x as int).push(src@[x as int]));
                x = x + 1;
            }
            assert(src@.take(src.len() as int) =~= src@);
            out.push(row);
            i = i + 1;
        }
        assert(grid(out) =~= g);
        return out;
    }
    let out_h = base.len() + width * 2;
    let out_w = base_w + width * 2;
    let ghost want = outline_grid(g, width as int, color);
    let mut out: Matrix = Vec::new();
    let mut oy: usize = 0;
    while oy < out_h
        invariant
            oy <= out_h,
            out_h == g.len() + 2 * width,
            out_w == max_row_len(g) + 2 * width,
            g == grid(*base),
            g.len() > 0,
            width > 0,
            max_row_len(g) > 0,
            want == outline_grid(g, width as int, color),
            out.len() == oy,
            forall|k: int| 0 <= k < oy ==> (#[trigger] out@[k])@ == want[k],
        decreases out_h - oy,
    {
        let mut row: Vec<Option<Color>> = Vec::new();
        let mut ox: usize = 0;
        while ox < out_w
            invariant
                ox <= out_w,
                oy < out_h,
                out_h == g.len() + 2 * width,
                out_w == max_row_len(g) + 2 * width,
                g == grid(*base),
                g.len() > 0,
                width > 0,
                max_row_len(g) > 0,
                want == outline_grid(g, width as int, color),
                row.len() == ox,
                forall|k: int| 0 <= k < ox ==> #[trigger] row@[k] == want[oy as int][k],
            decreases out_w - ox,
        {
            let mut p: Option<Color> = None;
            let mut own = false;
            if oy >= width && ox >= width && oy - width < base.len() && ox - width < base[oy
                - width].len() {
                if base[oy - width][ox - width].is_some() {
                    p = base[oy - width][ox - width];
                    own = true;
                }
            }
            if !own {
                let y0 = if oy >= 2 * width {
                    oy - 2 * width
                } else {
                    0
                };
                let x0 = if ox >= 2 * width {
                    ox - 2 * width
                } else {
                    0
                };
                let lit = window_has_lit(base, y0, oy, x0, ox);
                assert(lit == lit_in_window(
                    g,
                    oy - 2 * width,
                    oy as int,
                    ox - 2 * width,
                    ox as int,
                ));
                if lit {
                    p = Some(color);
                }
            }
            row.push(p);
            ox = ox + 1;
        }
        assert(row@ =~= want[oy as int]);
        out.push(row);
        oy = oy + 1;
    }
    assert(grid(out) =~= want);
    out
}

// ---------------------------------------------------------------------------
// Layers
// ---------------------------------------------------------------------------

/// Text effects applied in order to `g` drawn at offset `off`: the grid and
/// the offset after them. `None` when an outline would not fit in `usize`.
pub open spec fn apply_effects(g: Grid, effects: Seq<TextEffect>) -> Option<(Grid, int)>
    decreases effects.len(),
{
    if effects.len() == 0 {
        Some((g, 0))
    } else {
        match apply_effects(g, effects.drop_last()) {
            None => None,
            Some((h, off)) => match effects.last() {
                TextEffect::Outline(o) => if o.width > 0 {
                    if outline_fits(h, o.width as int) {
                        Some((outline_grid(h, o.width as int, color_of(o.color)), off - (o.width as i32) as int))
                    } else {
                        None
                    }
                } else {
                    Some((h, off))
                },
            },
        }
    }
}

/// The pixels of a rectangle: `height` rows of `width` pixels of its colour.
pub open spec fn rect_grid(r: RectangleComponent) -> Grid {
    Seq::new(r.height as nat, |y: int| Seq::new(r.width as nat, |x: int| Some(color_of(r.color))))
}

/// What a layer draws and the offset to draw it at: text in its font,
/// bottom-aligned, with its effects (an outline moves it up and left by its
/// width); a rectangle at no offset. Nothing for empty text, text without
/// a font or without glyphs, text that draws nothing, and empty rectangles.
pub open spec fn layer_render(c: ComponentLayer, glyphs: Option<Map<u32, Seq<char>>>) -> Option<
    (Grid, int),
> {
    match c {
        ComponentLayer::Text(t) => if t.text@.len() == 0 || t.font@.len() == 0 {
            None
        } else {
            match glyphs {
                None => None,
                Some(gm) => match apply_effects(
                    text_grid(t.text@, gm, color_of(t.color), VerticalAlign::Bottom),
                    t.effects@,
                ) {
                    Some((h, off)) => if h.len() == 0 {
                        None
                    } else {
                        Some((h, off))
                    },
                    None => None,
                },
            }
        },
        ComponentLayer::Rectangle(r) => if r.width == 0 || r.height == 0 {
            None
        } else {
            Some((rect_grid(r), 0))
        },
    }
}

/// The glyphs a glyph map option holds.
pub open spec fn glyph_option(o: Option<GlyphMap>) -> Option<Map<u32, Seq<char>>> {
    match o {
        Some(m) => Some(glyph_table(m)),
        None => None,
    }
}

/// A rectangle's pixels.
fn rect_matrix(r: &RectangleComponent) -> (m: Matrix)
    ensures
        grid(m) == rect_grid(*r),
{
    let color = color_from_tuple(r.color);
    let h = r.height as usize;
    let w = r.width as usize;
    let mut m: Matrix = Vec::new();
    let mut y: usize = 0;
    while y < h
        invariant
            y <= h == r.height,
            w == r.width,
            color == color_of(r.color),
            m.len() == y,
            forall|k: int| 0 <= k < y ==> (#[trigger] m@[k])@ == rect_grid(*r)[k],
        decreases h - y,
    {
        let mut row: Vec<Option<Color>> = Vec::new();
        let mut x: usize = 0;
        while x < w
            invariant
                x <= w,
                row.len() == x,
                forall|k: int| 0 <= k < x ==> #[trigger] row@[k] == Some(color),
            decreases w - x,
        {
            row.push(Some(color));
            x = x + 1;
        }
        assert(row@ =~= rect_grid(*r)[y as int]);
        m.push(row);
        y = y + 1;
    }
    assert(grid(m) =~= rect_grid(*r));
    m
}

/// A text layer drawn with `glyphs` and its effects applied.
fn text_layer_matrix(t: &TextComponent, glyphs: &GlyphMap) -> (r: Option<(Matrix, i128)>)
    ensures
        match apply_effects(
            text_grid(t.text@, glyph_table(*glyphs), color_of(t.color), VerticalAlign::Bottom),
            t.effects@,
        ) {
            Some((h, off)) => r matches Some((m, o)) && grid(m) == h && o == off,
            None => r is None,
        },
        r matches Some((_, o)) ==> -0x8000_0000_0000_0000_0000_0000 <= o <= 0x8000_0000_0000_0000_0000_0000,
{
    let color = color_from_tuple(t.color);
    let mut matrix = text_to_matrix(t.text.as_str(), glyphs, color, VerticalAlign::Bottom);
    let ghost g0 = grid(matrix);
    let mut offset: i128 = 0;
    let mut i: usize = 0;
    assert(t.effects@.take(0) =~= Seq::<TextEffect>::empty());
    while i < t.effects.len()
        invariant
            i <= t.effects@.len(),
            g0 == text_grid(t.text@, glyph_table(*glyphs), color_of(t.color), VerticalAlign::Bottom),
            apply_effects(g0, t.effects@.take(i as int)) == Some((grid(matrix), offset as int)),
            -0x8000_0000 * i <= offset <= 0x8000_0000 * i,
        decreases t.effects@.len() - i,
    {
        assert(t.effects@.take(i + 1).drop_last() =~= t.effects@.take(i as int));
        match &t.effects[i] {
            TextEffect::Outline(outline) => {
                if outline.width > 0 {
                    let w = outline.width as usize;
                    let h = max_row_width(&matrix);
                    if (matrix.len() as u128) + 2 * (w as u128) > usize::MAX as u128 || (h as u128)
                        + 2 * (w as u128) > usize::MAX as u128 {
                        proof {
                            lemma_effects_none_stays(g0, t.effects@, i as int + 1);
                        }
                        return None;
                    }
                    let outline_color = color_from_tuple(outline.color);
                    matrix = apply_outline_effect(&matrix, w, outline_color);
                    offset = offset - (#[verifier::truncate] (outline.width as i32)) as i128;
                }
            },
        }
        i = i + 1;
    }
    assert(t.effects@.take(t.effects@.len() as int) =~= t.effects@);
    assert(0x8000_0000 * i <= 0x8000_0000_0000_0000_0000_0000) by (nonlinear_arith)
        requires
            i <= 0xffff_ffff_ffff_ffff,
    ;
    Some((matrix, offset))
}

proof fn lemma_effects_none_stays(g: Grid, effects: Seq<TextEffect>, k: int)
    requires
        0 < k <= effects.len(),
        apply_effects(g, effects.take(k)) is None,
    ensures
        apply_effects(g, effects) is None,
    decreases effects.len() - k,
{
    if k < effects.len() {
        assert(effects.take(k + 1).drop_last() =~= effects.take(k));
        lemma_effects_none_stays(g, effects, k + 1);
    } else {
        assert(effects.take(k) =~= effects);
    }
}

/// What a layer draws and where, relative to the layer's position (see
/// `layer_render`); `glyphs` are the glyphs of its font, if they could be
/// loaded.
pub fn render_layer(layer: &ComponentLayer, glyphs: Option<&GlyphMap>) -> (r: Option<
    (Matrix, i128),
>)
    ensures
        match layer_render(
            *layer,
            match glyphs {
                Some(m) => Some(glyph_table(*m)),
                None => None,
            },
        ) {
            Some((g, off)) => r matches Some((m, o)) && grid(m) == g && o == off,
            None => r is None,
        },
        r matches Some((_, o)) ==> -0x8000_0000_0000_0000_0000_0000 <= o <= 0x8000_0000_0000_0000_0000_0000,
{
    match layer {
        ComponentLayer::Text(text) => {
            if text.text.as_str().is_empty() || text.font.as_str().is_empty() {
                return None;
            }
            let gm = match glyphs {
                Some(g) => g,
                None => return None,
            };
            match text_layer_matrix(text, gm) {
                Some((m, o)) => {
                    if m.len() == 0 {
                        None
                    } else {
                        Some((m, o))
                    }
                },
                None => None,
            }
        },
        ComponentLayer::Rectangle(rect) => {
            if rect.width == 0 || rect.height == 0 {
                return None;
            }
            Some((rect_matrix(rect), 0))
        },
    }
}

// ---------------------------------------------------------------------------
// Frames
// ---------------------------------------------------------------------------

/// A canvas of `h` rows of `w` transparent pixels.
pub open spec fn blank_canvas(w: int, h: int) -> Grid {
    Seq::new(h as nat, |y: int| blank_row(w))
}

/// `m` drawn on the canvas `c` with its top-left corner at (`ox`, `oy`),
/// clipped to the canvas. Clipping measures the canvas in `i32`: a canvas
/// with more than `i32::MAX` rows or columns wraps to a negative size
/// there, and nothing is drawn on it.
pub open spec fn canvas_overlay(c: Grid, m: Grid, ox: int, oy: int) -> Grid {
    if c.len() <= i32::MAX && first_row_len(c) <= i32::MAX {
        clipped_overlay_grids(c, m, ox, oy)
    } else {
        c
    }
}

/// The canvas after the first `k` layers are drawn on `canvas`, each clipped
/// to it at its position plus its offset (see `canvas_overlay`), and
/// whether any layer drew.
pub open spec fn compose_layers(
    canvas: Grid,
    layers: Seq<PositionedLayer>,
    glyphs: Seq<Option<Map<u32, Seq<char>>>>,
    k: int,
) -> (Grid, bool)
    decreases k,
{
    if k <= 0 {
        (canvas, false)
    } else {
        let (c, drawn) = compose_layers(canvas, layers, glyphs, k - 1);
        match layer_render(layers[k - 1].content, glyphs[k - 1]) {
            Some((m, off)) => (
                canvas_overlay(c, m, layers[k - 1].x + off, layers[k - 1].y + off),
                true,
            ),
            None => (c, drawn),
        }
    }
}

/// The pixels of a frame: its layers drawn in order on a transparent
/// canvas of the frame's size. Nothing for a frame without area or where no
/// layer draws.
pub open spec fn frame_grid(f: Frame, glyphs: Seq<Option<Map<u32, Seq<char>>>>) -> Option<Grid> {
    if f.width == 0 || f.height == 0 {
        None
    } else {
        let (c, drawn) = compose_layers(
            blank_canvas(f.width as int, f.height as int),
            f.contents@,
            glyphs,
            f.contents@.len() as int,
        );
        if drawn {
            Some(c)
        } else {
            None
        }
    }
}

/// The pixels of a frame (see `frame_grid`); `glyph_sets[i]` holds the
/// glyphs of layer `i`'s font where it needs one and it could be loaded.
pub fn render_frame_to_matrix(frame: &Frame, glyph_sets: &Vec<Option<GlyphMap>>) -> (r: Option<
    Matrix,
>)
    requires
        glyph_sets.len() == frame.contents.len(),
    ensures
        match frame_grid(*frame, glyph_sets@.map_values(|o: Option<GlyphMap>| glyph_option(o))) {
            Some(g) => r matches Some(m) && grid(m) == g,
            None => r is None,
        },
{
    let ghost gs = glyph_sets@.map_values(|o: Option<GlyphMap>| glyph_option(o));
    if frame.width == 0 || frame.height == 0 {
        return None;
    }
    let w = frame.width as usize;
    let h = frame.height as usize;
    let mut canvas: Matrix = Vec::new();
    let mut y: usize = 0;
    while y < h
        invariant
            y <= h == frame.height,
            w == frame.width,
            canvas.len() == y,
            forall|k: int| 0 <= k < y ==> (#[trigger] canvas@[k])@ == blank_row(w as int),
        decreases h - y,
    {
        let mut row: Vec<Option<Color>> = Vec::new();
        let mut x: usize = 0;
        while x < w
            invariant
                x <= w,
                row@ == blank_row(x as int),
            decreases w - x,
        {
            row.push(None);
            assert(blank_row(x + 1) =~= blank_row(x as int).push(None));
            x = x + 1;
        }
        canvas.push(row);
        y = y + 1;
    }
    assert(grid(canvas) =~= blank_canvas(w as int, h as int));
    let ghost start = grid(canvas);
    let fits = frame.width <= 0x7fff_ffff && frame.height <= 0x7fff_ffff;
    let mut drawn = false;
    let mut i: usize = 0;
    while i < frame.contents.len()
        invariant
            i <= frame.contents.len() == glyph_sets.len(),
            gs == glyph_sets@.map_values(|o: Option<GlyphMap>| glyph_option(o)),
            start == blank_canvas(frame.width as int, frame.height as int),
            compose_layers(start, frame.contents@, gs, i as int) == (grid(canvas), drawn),
            fits == (frame.width <= i32::MAX && frame.height <= i32::MAX),
            frame.width > 0,
            frame.height > 0,
            grid(canvas).len() == frame.height,
            crate::matrix::all_rows_len(grid(canvas), frame.width as int),
        decreases frame.contents.len() - i,
    {
        let layer = &frame.contents[i];
        let glyphs = match &glyph_sets[i] {
            Some(m) => Some(m),
            None => None,
        };
        assert(gs[i as int] == match glyphs {
            Some(m) => Some(glyph_table(*m)),
            None => None::<Map<u32, Seq<char>>>,
        });
        match render_layer(&layer.content, glyphs) {
            Some((m, off)) => {
                proof {
                    let c = grid(canvas);
                    assert(c[0].len() == frame.width);
                    assert(first_row_len(c) == frame.width);
                }
                if fits {
                    let ghost before = grid(canvas);
                    canvas = overlay_clipped_wide(
                        &canvas,
                        &m,
                        layer.x as i128 + off,
                        layer.y as i128 + off,
                    );
                    proof {
                        crate::matrix::lemma_clipped_overlay_shape(
                            before,
                            grid(m),
                            layer.x + off,
                            layer.y + off,
                        );
                    }
                }
                drawn = true;
            },
            None => {},
        }
        i = i + 1;
    }
    if drawn {
        Some(canvas)
    } else {
        None
    }
}


// ---------------------------------------------------------------------------
// Laws
// ---------------------------------------------------------------------------

/// Drawing layers never changes the canvas's shape.
pub proof fn lemma_compose_keeps_shape(
    canvas: Grid,
    layers: Seq<PositionedLayer>,
    glyphs: Seq<Option<Map<u32, Seq<char>>>>,
    k: int,
)
    ensures
        compose_layers(canvas, layers, glyphs, k).0.len() == canvas.len(),
        forall|y: int|
            0 <= y < canvas.len() ==> (#[trigger] compose_layers(canvas, layers, glyphs, k).0[y]).len()
                == canvas[y].len(),
    decreases k,
{
    if k > 0 {
        lemma_compose_keeps_shape(canvas, layers, glyphs, k - 1);
        let c = compose_layers(canvas, layers, glyphs, k - 1).0;
        match layer_render(layers[k - 1].content, glyphs[k - 1]) {
            Some((m, off)) => {
                crate::matrix::lemma_clipped_overlay_shape(
                    c,
                    m,
                    layers[k - 1].x + off,
                    layers[k - 1].y + off,
                );
                assert(canvas_overlay(c, m, layers[k - 1].x + off, layers[k - 1].y + off).len()
                    == c.len());
            },
            None => {},
        }
    }
}

/// A lit pixel of `m`, placed with its top-left corner at column `ox`, row
/// `oy`, lands on row `ty`, column `tx`.
pub open spec fn lands_lit(m: Grid, ox: int, oy: int, ty: int, tx: int) -> bool {
    &&& 0 <= ty - oy < m.len()
    &&& 0 <= tx - ox < m[ty - oy].len()
    &&& m[ty - oy][tx - ox] is Some
}

/// The pixel at row `ty`, column `tx` after the first `k` layers: that of
/// the last of them whose matrix, placed at its `x`/`y` plus its offset,
/// lands a lit pixel there; `base` where none does.
pub open spec fn top_pixel(
    layers: Seq<PositionedLayer>,
    glyphs: Seq<Option<Map<u32, Seq<char>>>>,
    k: int,
    ty: int,
    tx: int,
    base: Option<Color>,
) -> Option<Color>
    decreases k,
{
    if k <= 0 {
        base
    } else {
        let l = layers[k - 1];
        match layer_render(l.content, glyphs[k - 1]) {
            Some((m, off)) => if lands_lit(m, l.x + off, l.y + off, ty, tx) {
                m[ty - (l.y + off)][tx - (l.x + off)]
            } else {
                top_pixel(layers, glyphs, k - 1, ty, tx, base)
            },
            None => top_pixel(layers, glyphs, k - 1, ty, tx, base),
        }
    }
}

proof fn lemma_compose_pixel(
    canvas: Grid,
    layers: Seq<PositionedLayer>,
    glyphs: Seq<Option<Map<u32, Seq<char>>>>,
    k: int,
    w: int,
    ty: int,
    tx: int,
)
    requires
        0 < canvas.len() <= i32::MAX,
        0 <= w <= i32::MAX,
        crate::matrix::all_rows_len(canvas, w),
        0 <= ty < canvas.len(),
        0 <= tx < w,
        0 <= k <= layers.len(),
        glyphs.len() == layers.len(),
    ensures
        compose_layers(canvas, layers, glyphs, k).0[ty][tx] == top_pixel(
            layers,
            glyphs,
            k,
            ty,
            tx,
            canvas[ty][tx],
        ),
    decreases k,
{
    if k > 0 {
        lemma_compose_pixel(canvas, layers, glyphs, k - 1, w, ty, tx);
        lemma_compose_keeps_shape(canvas, layers, glyphs, k - 1);
        let prev = compose_layers(canvas, layers, glyphs, k - 1).0;
        assert(prev[0].len() == canvas[0].len());
        assert(first_row_len(prev) == w);
        assert(prev[ty].len() == canvas[ty].len());
        let l = layers[k - 1];
        match layer_render(l.content, glyphs[k - 1]) {
            Some((m, off)) => {
                crate::matrix::lemma_clipped_overlay_pixels(prev, m, l.x + off, l.y + off, ty, tx);
            },
            None => {},
        }
    }
}

/// Every pixel of a rendered frame is that of the topmost layer that lands
/// a lit pixel on it (its matrix placed at column `x` plus its offset and
/// row `y` plus its offset), and transparent where none does.
pub proof fn lemma_frame_pixels(f: Frame, glyphs: Seq<Option<Map<u32, Seq<char>>>>, ty: int, tx: int)
    requires
        f.width <= i32::MAX,
        f.height <= i32::MAX,
        glyphs.len() == f.contents@.len(),
        0 <= ty < f.height,
        0 <= tx < f.width,
    ensures
        frame_grid(f, glyphs) matches Some(g) ==> g[ty][tx] == top_pixel(
            f.contents@,
            glyphs,
            f.contents@.len() as int,
            ty,
            tx,
            None,
        ),
{
    let canvas = blank_canvas(f.width as int, f.height as int);
    lemma_compose_pixel(
        canvas,
        f.contents@,
        glyphs,
        f.contents@.len() as int,
        f.width as int,
        ty,
        tx,
    );
}

/// The last layer is drawn on top at its place: a lit pixel of its matrix
/// at row `r`, column `c` shows on the rendered frame at row
/// `layer.y + off + r` and column `layer.x + off + c` (the column from `x`,
/// the row from `y`) wherever that lies on the canvas.
pub proof fn lemma_frame_shows_top_layer(
    f: Frame,
    glyphs: Seq<Option<Map<u32, Seq<char>>>>,
    m: Grid,
    off: int,
    r: int,
    c: int,
)
    requires
        f.width <= i32::MAX,
        f.height <= i32::MAX,
        glyphs.len() == f.contents@.len(),
        f.contents@.len() > 0,
        layer_render(f.contents@.last().content, glyphs.last()) == Some((m, off)),
        0 <= r < m.len(),
        0 <= c < m[r].len(),
        m[r][c] is Some,
        0 <= f.contents@.last().y + off + r < f.height,
        0 <= f.contents@.last().x + off + c < f.width,
    ensures
        frame_grid(f, glyphs) matches Some(g) && g[f.contents@.last().y + off + r][f.contents@.last().x
            + off + c] == m[r][c],
{
    let n = f.contents@.len() as int;
    let layer = f.contents@.last();
    assert(f.contents@[n - 1] == layer);
    assert(glyphs[n - 1] == glyphs.last());
    let canvas = blank_canvas(f.width as int, f.height as int);
    lemma_compose_keeps_shape(canvas, f.contents@, glyphs, n - 1);
    let prev = compose_layers(canvas, f.contents@, glyphs, n - 1).0;
    assert(prev.len() == f.height);
    assert(prev[0].len() == canvas[0].len());
    assert(first_row_len(prev) == f.width);
    let ox = layer.x + off;
    let oy = layer.y + off;
    let ty = oy + r;
    let tx = ox + c;
    assert(prev[ty].len() == canvas[ty].len());
    crate::matrix::lemma_clipped_overlay_pixels(prev, m, ox, oy, ty, tx);
    assert(compose_layers(canvas, f.contents@, glyphs, n) == (
        canvas_overlay(prev, m, ox, oy),
        true,
    ));
}

/// A rendered frame is exactly the frame's size: `height` rows of `width`
/// pixels.
pub proof fn lemma_frame_size(f: Frame, glyphs: Seq<Option<Map<u32, Seq<char>>>>)
    ensures
        frame_grid(f, glyphs) matches Some(g) ==> g.len() == f.height && crate::matrix::all_rows_len(
            g,
            f.width as int,
        ),
{
    let canvas = blank_canvas(f.width as int, f.height as int);
    lemma_compose_keeps_shape(canvas, f.contents@, glyphs, f.contents@.len() as int);
}

/// An outline keeps every lit pixel where it is (shifted by the width) and
/// lights every pixel within `w` rows and columns of one.
pub proof fn lemma_outline_covers(g: Grid, w: int, color: Color, y: int, x: int, dy: int, dx: int)
    requires
        w > 0,
        g.len() > 0,
        max_row_len(g) > 0,
        0 <= y < g.len(),
        0 <= x < g[y].len(),
        g[y][x] is Some,
        -w <= dy <= w,
        -w <= dx <= w,
    ensures
        outline_grid(g, w, color)[y + w][x + w] == g[y][x],
        outline_grid(g, w, color)[y + w + dy][x + w + dx] is Some,
{
    crate::matrix::lemma_max_row_len_ge(g, y);
    let oy = y + w + dy;
    let ox = x + w + dx;
    assert(oy - 2 * w <= y <= oy && ox - 2 * w <= x <= ox);
    assert(lit_in_window(g, oy - 2 * w, oy, ox - 2 * w, ox));
}

} // verus!
