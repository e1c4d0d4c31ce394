use vstd::prelude::*;
use crate::config::NamedPath;
use crate::project::{
    is_new_frame, ComponentLayer, Frame, LedMakerProject, PositionedLayer, RectangleComponent,
    TextComponent,
};
use crate::text::{
    chars_of, dec_digits, parse_i32, parse_i32_range, parse_u32, parse_u32_range, push_decimal,
    push_str_chars, string_from_range,
};

verus! {

// ---------------------------------------------------------------------------
// Model: edits to the first frame
// ---------------------------------------------------------------------------

/// `new` is `old` with the first frame's layers replaced by `contents`.
pub open spec fn first_frame_layers_now(
    old: LedMakerProject,
    new: LedMakerProject,
    contents: Seq<PositionedLayer>,
) -> bool {
    &&& old.frames@.len() > 0
    &&& new.name == old.name
    &&& new.frames@.len() == old.frames@.len()
    &&& new.frames@[0].name == old.frames@[0].name
    &&& new.frames@[0].width == old.frames@[0].width
    &&& new.frames@[0].height == old.frames@[0].height
    &&& new.frames@[0].contents@ == contents
    &&& forall|i: int| 1 <= i < old.frames@.len() ==> #[trigger] new.frames@[i] == old.frames@[i]
}

/// `f` with width `w`.
pub open spec fn with_width(f: Frame, w: u32) -> Frame {
    Frame { width: w, ..f }
}

/// `f` with height `h`.
pub open spec fn with_height(f: Frame, h: u32) -> Frame {
    Frame { height: h, ..f }
}

/// `f` is named and sized as a new frame, whatever its layers.
pub open spec fn has_new_frame_shape(f: Frame) -> bool {
    f.name@.len() == 0 && f.width == 32 && f.height == 8
}

/// `l` moved to column `x`.
pub open spec fn at_x(l: PositionedLayer, x: i32) -> PositionedLayer {
    PositionedLayer { x, ..l }
}

/// `l` moved to row `y`.
pub open spec fn at_y(l: PositionedLayer, y: i32) -> PositionedLayer {
    PositionedLayer { y, ..l }
}

/// `s` with items `i` and `j` exchanged.
pub open spec fn swapped<A>(s: Seq<A>, i: int, j: int) -> Seq<A> {
    s.update(i, s[j]).update(j, s[i])
}

/// The project with a first frame: unchanged if it has one, else with a
/// new frame (`is_new_frame`) as its only frame.
pub open spec fn has_first_frame_from(old: LedMakerProject, new: LedMakerProject) -> bool {
    &&& new.name == old.name
    &&& old.frames@.len() > 0 ==> new.frames == old.frames
    &&& old.frames@.len() == 0 ==> new.frames@.len() == 1 && is_new_frame(new.frames@[0])
}

/// The selection after layers `a` and `b` change places.
pub open spec fn selection_after_swap(sel: Option<usize>, a: usize, b: usize) -> Option<usize> {
    match sel {
        Some(s) => if s == a {
            Some(b)
        } else if s == b {
            Some(a)
        } else {
            sel
        },
        None => None,
    }
}

/// The selection after layer `idx` is removed: none if it was that layer,
/// one less if it was a later one.
pub open spec fn selection_after_remove(sel: Option<usize>, idx: usize) -> Option<usize> {
    match sel {
        Some(s) => if s == idx {
            None
        } else if s > idx {
            Some((s - 1) as usize)
        } else {
            sel
        },
        None => None,
    }
}

/// A new text layer at the origin: empty text in `font`, drawn in
/// (255, 80, 80) without effects.
pub open spec fn is_new_text_layer(l: PositionedLayer, font: String) -> bool {
    &&& l.x == 0 && l.y == 0
    &&& l.content matches ComponentLayer::Text(t) && t.text@.len() == 0 && t.font == font && t.color
        == (255u8, 80u8, 80u8) && t.effects@.len() == 0
}

/// A new rectangle layer at the origin: 16 by 16, square, white.
pub open spec fn new_rect_layer() -> PositionedLayer {
    PositionedLayer {
        x: 0,
        y: 0,
        content: ComponentLayer::Rectangle(
            RectangleComponent { width: 16, height: 16, radius: 0, color: (255u8, 255u8, 255u8) },
        ),
    }
}

/// The font a new text layer gets: the first font's name, or its path if
/// it has no name; nothing without fonts.
pub open spec fn default_font_of(fonts: Seq<NamedPath>) -> Seq<char> {
    if fonts.len() == 0 {
        Seq::empty()
    } else if fonts[0].name@.len() == 0 {
        fonts[0].path@
    } else {
        fonts[0].name@
    }
}

// ---------------------------------------------------------------------------
// Executable edits
// ---------------------------------------------------------------------------

/// The font a new text layer gets (see `default_font_of`).
pub fn default_text_font(font_list: &[NamedPath]) -> (f: String)
    ensures
        f@ == default_font_of(font_list@),
{
    if font_list.len() == 0 {
        String::new()
    } else if font_list[0].name.as_str().is_empty() {
        font_list[0].path.clone()
    } else {
        font_list[0].name.clone()
    }
}

/// The value typed into a number field, or `default` where it is not a
/// number (`parse().unwrap_or(default)`).
pub fn parse_u32_or(text: &str, default: u32) -> (v: u32)
    ensures
        v == match parse_u32(text@) {
            Some(x) => x,
            None => default,
        },
{
    let chars = chars_of(text);
    assert(chars@.subrange(0, chars.len() as int) =~= chars@);
    match parse_u32_range(&chars, 0, chars.len()) {
        Some(v) => v,
        None => default,
    }
}

/// The value typed into a signed number field, or `default` where it is not
/// a number.
pub fn parse_i32_or(text: &str, default: i32) -> (v: i32)
    ensures
        v == match parse_i32(text@) {
            Some(x) => x,
            None => default,
        },
{
    let chars = chars_of(text);
    assert(chars@.subrange(0, chars.len() as int) =~= chars@);
    match parse_i32_range(&chars, 0, chars.len()) {
        Some(v) => v,
        None => default,
    }
}

impl LedMakerProject {
    /// Gives the project a first frame where it has none.
    pub fn ensure_first_frame(&mut self)
        ensures
            has_first_frame_from(*old(self), *final(self)),
    {
        if self.frames.len() == 0 {
            self.frames.push(Frame::default());
        }
    }

    /// Sets the first frame's width to the number typed, 32 where it is not
    /// one; a project without frames gets a new one first.
    pub fn set_frame_width(&mut self, text: &str)
        ensures
            final(self).name == old(self).name,
            final(self).frames@.len() == if old(self).frames@.len() == 0 {
                1
            } else {
                old(self).frames@.len()
            },
            final(self).frames@[0].width == match parse_u32(text@) {
                Some(x) => x,
                None => 32,
            },
            old(self).frames@.len() > 0 ==> final(self).frames@[0] == with_width(
                old(self).frames@[0],
                final(self).frames@[0].width,
            ),
            old(self).frames@.len() == 0 ==> is_new_frame(with_width(final(self).frames@[0], 32)),
            forall|i: int| 1 <= i < old(self).frames@.len() ==> #[trigger] final(self).frames@[i] == old(self).frames@[i],
    {
        let v = parse_u32_or(text, 32);
        self.ensure_first_frame();
        let frame = &mut self.frames[0];
        frame.width = v;
    }

    /// Sets the first frame's height to the number typed, 8 where it is not
    /// one; a project without frames gets a new one first.
    pub fn set_frame_height(&mut self, text: &str)
        ensures
            final(self).name == old(self).name,
            final(self).frames@.len() == if old(self).frames@.len() == 0 {
                1
            } else {
                old(self).frames@.len()
            },
            final(self).frames@[0].height == match parse_u32(text@) {
                Some(x) => x,
                None => 8,
            },
            old(self).frames@.len() > 0 ==> final(self).frames@[0] == with_height(
                old(self).frames@[0],
                final(self).frames@[0].height,
            ),
            old(self).frames@.len() == 0 ==> is_new_frame(with_height(final(self).frames@[0], 8)),
            forall|i: int| 1 <= i < old(self).frames@.len() ==> #[trigger] final(self).frames@[i] == old(self).frames@[i],
    {
        let v = parse_u32_or(text, 8);
        self.ensure_first_frame();
        let frame = &mut self.frames[0];
        frame.height = v;
    }

    /// Whether the first frame has a layer `idx`.
    pub open spec fn has_layer(self, idx: int) -> bool {
        self.frames@.len() > 0 && 0 <= idx < self.frames@[0].contents@.len()
    }

    /// Moves the selected layer of the first frame to the column typed (0
    /// where it is not a number); nothing changes without such a layer.
    pub fn set_layer_x(&mut self, selected: Option<usize>, text: &str)
        ensures
            match selected {
                Some(idx) if old(self).has_layer(idx as int) => first_frame_layers_now(
                    *old(self),
                    *final(self),
                    old(self).frames@[0].contents@.update(
                        idx as int,
                        at_x(
                            old(self).frames@[0].contents@[idx as int],
                            match parse_i32(text@) {
                                Some(v) => v,
                                None => 0,
                            },
                        ),
                    ),
                ),
                _ => *final(self) == *old(self),
            },
    {
        let v = parse_i32_or(text, 0);
        if let Some(idx) = selected {
            if self.frames.len() > 0 && idx < self.frames[0].contents.len() {
                let frame = &mut self.frames[0];
                let layer = &mut frame.contents[idx];
                layer.x = v;
            }
        }
    }

    /// Moves the selected layer of the first frame to the row typed (0
    /// where it is not a number); nothing changes without such a layer.
    pub fn set_layer_y(&mut self, selected: Option<usize>, text: &str)
        ensures
            match selected {
                Some(idx) if old(self).has_layer(idx as int) => first_frame_layers_now(
                    *old(self),
                    *final(self),
                    old(self).frames@[0].contents@.update(
                        idx as int,
                        at_y(
                            old(self).frames@[0].contents@[idx as int],
                            match parse_i32(text@) {
                                Some(v) => v,
                                None => 0,
                            },
                        ),
                    ),
                ),
                _ => *final(self) == *old(self),
            },
    {
        let v = parse_i32_or(text, 0);
        if let Some(idx) = selected {
            if self.frames.len() > 0 && idx < self.frames[0].contents.len() {
                let frame = &mut self.frames[0];
                let layer = &mut frame.contents[idx];
                layer.y = v;
            }
        }
    }

    /// The position of the selected layer of the first frame, (0, 0)
    /// without one.
    pub fn layer_position(&self, selected: Option<usize>) -> (p: (i32, i32))
        ensures
            match selected {
                Some(idx) if self.has_layer(idx as int) => p == (
                    self.frames@[0].contents@[idx as int].x,
                    self.frames@[0].contents@[idx as int].y,
                ),
                _ => p == (0i32, 0i32),
            },
    {
        match selected {
            Some(idx) => {
                if self.frames.len() > 0 && idx < self.frames[0].contents.len() {
                    let layer = &self.frames[0].contents[idx];
                    (layer.x, layer.y)
                } else {
                    (0, 0)
                }
            },
            None => (0, 0),
        }
    }

    /// Adds a new text layer in `font` at the end of the first frame (which
    /// is made if missing) and returns its index, the new selection.
    pub fn add_text_layer(&mut self, font: String) -> (sel: usize)
        ensures
            ({
                let with_frame = if old(self).frames@.len() > 0 {
                    old(self).frames@[0].contents@
                } else {
                    Seq::empty()
                };
                &&& final(self).name == old(self).name
                &&& final(self).frames@.len() > 0
                &&& final(self).frames@[0].contents@.len() == with_frame.len() + 1
                &&& final(self).frames@[0].contents@.take(with_frame.len() as int) == with_frame
                &&& is_new_text_layer(final(self).frames@[0].contents@.last(), font)
                &&& sel == with_frame.len()
                &&& old(self).frames@.len() > 0 ==> {
                    &&& final(self).frames@.len() == old(self).frames@.len()
                    &&& final(self).frames@[0].name == old(self).frames@[0].name
                    &&& final(self).frames@[0].width == old(self).frames@[0].width
                    &&& final(self).frames@[0].height == old(self).frames@[0].height
                    &&& forall|i: int|
                        1 <= i < old(self).frames@.len() ==> #[trigger] final(self).frames@[i]
                            == old(self).frames@[i]
                }
                &&& old(self).frames@.len() == 0 ==> final(self).frames@.len() == 1 && has_new_frame_shape(
                    final(self).frames@[0],
                )
            }),
    {
        self.ensure_first_frame();
        let frame = &mut self.frames[0];
        let ghost before = frame.contents@;
        frame.contents.push(
            PositionedLayer {
                x: 0,
                y: 0,
                content: ComponentLayer::Text(
                    TextComponent {
                        text: String::new(),
                        font,
                        color: (255, 80, 80),
                        effects: Vec::new(),
                    },
                ),
            },
        );
        assert(frame.contents@.take(before.len() as int) =~= before);
        frame.contents.len() - 1
    }

    /// Adds a new rectangle layer (see `new_rect_layer`) at the end of the
    /// first frame (which is made if missing) and returns its index, the new
    /// selection.
    pub fn add_rect_layer(&mut self) -> (sel: usize)
        ensures
            ({
                let with_frame = if old(self).frames@.len() > 0 {
                    old(self).frames@[0].contents@
                } else {
                    Seq::empty()
                };
                &&& final(self).name == old(self).name
                &&& final(self).frames@.len() > 0
                &&& final(self).frames@[0].contents@ == with_frame.push(new_rect_layer())
                &&& sel == with_frame.len()
                &&& old(self).frames@.len() > 0 ==> first_frame_layers_now(
                    *old(self),
                    *final(self),
                    with_frame.push(new_rect_layer()),
                )
                &&& old(self).frames@.len() == 0 ==> final(self).frames@.len() == 1 && has_new_frame_shape(
                    final(self).frames@[0],
                )
            }),
    {
        self.ensure_first_frame();
        let frame = &mut self.frames[0];
        frame.contents.push(
            PositionedLayer {
                x: 0,
                y: 0,
                content: ComponentLayer::Rectangle(
                    RectangleComponent { width: 16, height: 16, radius: 0, color: (255, 255, 255) },
                ),
            },
        );
        frame.contents.len() - 1
    }

    /// Moves layer `idx` of the first frame one place up (towards the
    /// front of the list), if it is not first; the selection follows the
    /// layers it was on. Returns the new selection.
    pub fn move_layer_up(&mut self, idx: usize, selected: Option<usize>) -> (sel: Option<usize>)
        ensures
            if old(self).has_layer(idx as int) && idx > 0 {
                &&& first_frame_layers_now(
                    *old(self),
                    *final(self),
                    swapped(old(self).frames@[0].contents@, idx as int, idx - 1),
                )
                &&& sel == selection_after_swap(selected, idx, (idx - 1) as usize)
            } else {
                *final(self) == *old(self) && sel == selected
            },
    {
        if self.frames.len() > 0 && idx > 0 && idx < self.frames[0].contents.len() {
            let frame = &mut self.frames[0];
            let ghost before = frame.contents@;
            let moved = frame.contents.remove(idx);
            frame.contents.insert(idx - 1, moved);
            assert(frame.contents@ =~= swapped(before, idx as int, idx - 1));
            match selected {
                Some(s) => if s == idx {
                    Some(idx - 1)
                } else if s == idx - 1 {
                    Some(idx)
                } else {
                    selected
                },
                None => None,
            }
        } else {
            selected
        }
    }

    /// Moves layer `idx` of the first frame one place down, if it is not
    /// last; the selection follows the layers it was on. Returns the new
    /// selection.
    pub fn move_layer_down(&mut self, idx: usize, selected: Option<usize>) -> (sel: Option<usize>)
        ensures
            if old(self).has_layer(idx + 1) {
                &&& first_frame_layers_now(
                    *old(self),
                    *final(self),
                    swapped(old(self).frames@[0].contents@, idx as int, idx + 1),
                )
                &&& sel == selection_after_swap(selected, idx, (idx + 1) as usize)
            } else {
                *final(self) == *old(self) && sel == selected
            },
    {
        if self.frames.len() > 0 && idx < self.frames[0].contents.len() && self.frames[0].contents.len()
            - idx > 1 {
            let frame = &mut self.frames[0];
            let ghost before = frame.contents@;
            let moved = frame.contents.remove(idx + 1);
            frame.contents.insert(idx, moved);
            assert(frame.contents@ =~= swapped(before, idx as int, idx + 1));
            match selected {
                Some(s) => if s == idx {
                    Some(idx + 1)
                } else if s == idx + 1 {
                    Some(idx)
                } else {
                    selected
                },
                None => None,
            }
        } else {
            selected
        }
    }

    /// Removes layer `idx` of the first frame, if there is one, and returns
    /// the selection after it (see `selection_after_remove`), which is
    /// updated either way.
    pub fn remove_layer(&mut self, idx: usize, selected: Option<usize>) -> (sel: Option<usize>)
        ensures
            old(self).has_layer(idx as int) ==> first_frame_layers_now(
                *old(self),
                *final(self),
                old(self).frames@[0].contents@.remove(idx as int),
            ),
            !old(self).has_layer(idx as int) ==> *final(self) == *old(self),
            sel == selection_after_remove(selected, idx),
    {
        if self.frames.len() > 0 && idx < self.frames[0].contents.len() {
            let frame = &mut self.frames[0];
            let _removed = frame.contents.remove(idx);
        }
        match selected {
            Some(s) => if s == idx {
                None
            } else if s > idx {
                Some(s - 1)
            } else {
                selected
            },
            None => None,
        }
    }
}


// ---------------------------------------------------------------------------
// Layer labels
// ---------------------------------------------------------------------------

/// At most the first `n` characters of `s`.
pub open spec fn first_chars(s: Seq<char>, n: int) -> Seq<char> {
    if s.len() > n {
        s.take(n)
    } else {
        s
    }
}

/// How the layer list names the layer at `idx`: an empty text layer by its
/// number counted from 1, a text layer by its first 12 characters, a
/// rectangle by its size.
pub open spec fn layer_label_of(layer: PositionedLayer, idx: int) -> Seq<char> {
    match layer.content {
        ComponentLayer::Text(t) => if t.text@.len() == 0 {
            "文字图层 "@ + dec_digits((idx + 1) as nat)
        } else {
            "T: "@ + first_chars(t.text@, 12)
        },
        ComponentLayer::Rectangle(r) => "矩形 "@ + dec_digits(r.width as nat) + "×"@ + dec_digits(
            r.height as nat,
        ),
    }
}

/// The label of the layer at `idx` in the layer list (see `layer_label_of`).
pub fn layer_label(layer: &PositionedLayer, idx: usize) -> (s: String)
    requires
        idx < usize::MAX,
    ensures
        s@ == layer_label_of(*layer, idx as int),
{
    let mut v: Vec<char> = Vec::new();
    match &layer.content {
        ComponentLayer::Text(t) => {
            let text = chars_of(t.text.as_str());
            if text.len() == 0 {
                push_str_chars(&mut v, "文字图层 ");
                push_decimal(&mut v, (idx + 1) as u64);
            } else {
                push_str_chars(&mut v, "T: ");
                let n = if text.len() > 12 {
                    12
                } else {
                    text.len()
                };
                let head = string_from_range(&text, 0, n);
                push_str_chars(&mut v, head.as_str());
                assert(text@.subrange(0, n as int) =~= first_chars(t.text@, 12));
            }
        },
        ComponentLayer::Rectangle(r) => {
            push_str_chars(&mut v, "矩形 ");
            push_decimal(&mut v, r.width as u64);
            push_str_chars(&mut v, "×");
            push_decimal(&mut v, r.height as u64);
        },
    }
    let s = string_from_range(&v, 0, v.len());
    assert(v@.subrange(0, v.len() as int) =~= v@);
    s
}

// ---------------------------------------------------------------------------
// Laws
// ---------------------------------------------------------------------------

/// Moving a layer up and then back down restores the layers and the
/// selection.
pub proof fn lemma_move_up_then_down(layers: Seq<PositionedLayer>, idx: int, sel: Option<usize>)
    requires
        0 < idx < layers.len(),
        idx <= usize::MAX,
    ensures
        swapped(swapped(layers, idx, idx - 1), idx - 1, idx) == layers,
        selection_after_swap(
            selection_after_swap(sel, idx as usize, (idx - 1) as usize),
            (idx - 1) as usize,
            idx as usize,
        ) == sel,
{
    assert(swapped(swapped(layers, idx, idx - 1), idx - 1, idx) =~= layers);
}

/// Removing a layer keeps the selection on the layer it was on, and drops
/// it only when that layer is the one removed.
pub proof fn lemma_remove_keeps_selected_layer(
    layers: Seq<PositionedLayer>,
    idx: int,
    sel: usize,
)
    requires
        0 <= idx < layers.len(),
        0 <= sel < layers.len(),
        idx <= usize::MAX,
    ensures
        sel == idx ==> selection_after_remove(Some(sel), idx as usize) is None,
        sel != idx ==> (selection_after_remove(Some(sel), idx as usize) matches Some(s)
            && layers.remove(idx)[s as int] == layers[sel as int]),
{
}

} // verus!
