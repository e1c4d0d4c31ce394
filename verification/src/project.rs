use vstd::prelude::*;
use crate::config::{AppConfig, NamedPath};

verus! {

/// An LED sign project: named frames of layered content.
#[derive(Debug, PartialEq)]
pub struct LedMakerProject {
    pub name: String,
    pub frames: Vec<Frame>,
}

/// One frame: a canvas of `width` by `height` LEDs and the layers on it,
/// drawn first to last.
#[derive(Debug, PartialEq)]
pub struct Frame {
    pub name: String,
    pub width: u32,
    pub height: u32,
    pub contents: Vec<PositionedLayer>,
}

/// A layer placed on the canvas; `x`/`y` is its top-left corner relative to
/// the canvas's top-left corner and may be negative.
#[derive(Debug, PartialEq)]
pub struct PositionedLayer {
    pub x: i32,
    pub y: i32,
    pub content: ComponentLayer,
}

/// What a layer draws.
#[derive(Debug, PartialEq)]
pub enum ComponentLayer {
    Text(TextComponent),
    Rectangle(RectangleComponent),
}

/// Text in a bitmap font, named by the font's name or path.
#[derive(Debug, PartialEq)]
pub struct TextComponent {
    pub text: String,
    pub font: String,
    pub color: (u8, u8, u8),
    pub effects: Vec<TextEffect>,
}

/// An effect applied to rendered text.
#[derive(Debug, PartialEq)]
pub enum TextEffect {
    Outline(OutlineEffect),
}

/// A ring of `width` pixels of `color` around the text's lit pixels.
#[derive(Debug, PartialEq)]
pub struct OutlineEffect {
    pub width: u32,
    pub color: (u8, u8, u8),
}

/// A filled rectangle.
#[derive(Debug, PartialEq)]
pub struct RectangleComponent {
    pub width: u32,
    pub height: u32,
    pub radius: u32,
    pub color: (u8, u8, u8),
}

/// The state the application keeps: the file of the open project, the
/// project and the configuration.
#[derive(Debug)]
pub struct AppState {
    pub file_path: Option<String>,
    pub current_project: LedMakerProject,
    pub config: AppConfig,
}

/// The project as the editor shows it while it is being edited.
#[derive(Debug)]
pub struct LiveProject(pub LedMakerProject);

// ---------------------------------------------------------------------------
// Defaults
// ---------------------------------------------------------------------------

/// A project without a name or frames.
pub open spec fn is_empty_project(p: LedMakerProject) -> bool {
    p.name@.len() == 0 && p.frames@.len() == 0
}

/// A new frame: unnamed, 32 by 8, without layers.
pub open spec fn is_new_frame(f: Frame) -> bool {
    f.name@.len() == 0 && f.width == 32 && f.height == 8 && f.contents@.len() == 0
}

impl Default for LedMakerProject {
    fn default() -> (p: LedMakerProject)
        ensures
            is_empty_project(p),
    {
        LedMakerProject { name: String::new(), frames: Vec::new() }
    }
}

impl Default for Frame {
    fn default() -> (f: Frame)
        ensures
            is_new_frame(f),
    {
        Frame { name: String::new(), width: 32, height: 8, contents: Vec::new() }
    }
}

impl Default for TextComponent {
    fn default() -> (t: TextComponent)
        ensures
            t.text@.len() == 0,
            t.font@.len() == 0,
            t.color == (0u8, 0u8, 0u8),
            t.effects@.len() == 0,
    {
        TextComponent {
            text: String::new(),
            font: String::new(),
            color: (0, 0, 0),
            effects: Vec::new(),
        }
    }
}

impl Default for RectangleComponent {
    fn default() -> (r: RectangleComponent)
        ensures
            r.width == 0 && r.height == 0 && r.radius == 0 && r.color == (0u8, 0u8, 0u8),
    {
        RectangleComponent { width: 0, height: 0, radius: 0, color: (0, 0, 0) }
    }
}

impl Default for PositionedLayer {
    fn default() -> (l: PositionedLayer)
        ensures
            l.x == 0 && l.y == 0,
            l.content matches ComponentLayer::Text(t) && t.text@.len() == 0 && t.font@.len() == 0
                && t.color == (0u8, 0u8, 0u8) && t.effects@.len() == 0,
    {
        PositionedLayer { x: 0, y: 0, content: ComponentLayer::Text(TextComponent::default()) }
    }
}

impl AppState {
    /// The state at start: no file, an empty project, and the configuration
    /// that was loaded.
    pub fn new(config: AppConfig) -> (s: AppState)
        ensures
            s.file_path is None,
            is_empty_project(s.current_project),
            s.config == config,
    {
        AppState { file_path: None, current_project: LedMakerProject::default(), config }
    }
}

impl LiveProject {
    /// An empty live project.
    pub fn new() -> (l: LiveProject)
        ensures
            is_empty_project(l.0),
    {
        LiveProject(LedMakerProject::default())
    }
}

// ---------------------------------------------------------------------------
// Font names
// ---------------------------------------------------------------------------

/// The index of the first font with a name whose path is spelled `font`.
pub open spec fn named_font_index(font: Seq<char>, fonts: Seq<NamedPath>) -> Option<int>
    decreases fonts.len(),
{
    if fonts.len() == 0 {
        None
    } else if fonts[0].name@.len() > 0 && fonts[0].path@ == font {
        Some(0)
    } else {
        match named_font_index(font, fonts.drop_first()) {
            Some(i) => Some(i + 1),
            None => None,
        }
    }
}

/// A layer whose text font is given by a path of a named font, given by the
/// font's name instead; other layers as they are.
pub open spec fn layer_with_font_name(l: PositionedLayer, fonts: Seq<NamedPath>) -> PositionedLayer {
    match l.content {
        ComponentLayer::Text(t) => match named_font_index(t.font@, fonts) {
            Some(i) => PositionedLayer {
                content: ComponentLayer::Text(TextComponent { font: fonts[i].name, ..t }),
                ..l
            },
            None => l,
        },
        ComponentLayer::Rectangle(_) => l,
    }
}

/// `new` is `old` with every layer's font given by name where it can be.
pub open spec fn frame_with_font_names(old: Frame, new: Frame, fonts: Seq<NamedPath>) -> bool {
    &&& new.name == old.name
    &&& new.width == old.width
    &&& new.height == old.height
    &&& new.contents@.len() == old.contents@.len()
    &&& forall|j: int|
        0 <= j < old.contents@.len() ==> #[trigger] new.contents@[j] == layer_with_font_name(
            old.contents@[j],
            fonts,
        )
}

/// The index of the first font with a name whose path is spelled `font`.
fn find_named_font(font: &String, fonts: &[NamedPath]) -> (r: Option<usize>)
    ensures
        match r {
            Some(k) => named_font_index(font@, fonts@) == Some(k as int),
            None => named_font_index(font@, fonts@) is None,
        },
        r matches Some(k) ==> k < fonts@.len(),
{
    let mut i: usize = 0;
    assert(fonts@.skip(0) =~= fonts@);
    while i < fonts.len()
        invariant
            i <= fonts.len(),
            named_font_index(font@, fonts@) == match named_font_index(font@, fonts@.skip(i as int)) {
                Some(k) => Some(k + i),
                None => None,
            },
        decreases fonts.len() - i,
    {
        assert(fonts@.skip(i as int).drop_first() =~= fonts@.skip(i + 1));
        if !fonts[i].name.as_str().is_empty() && fonts[i].path.eq(font) {
            assert(fonts@.skip(i as int)[0] == fonts@[i as int]);
            return Some(i);
        }
        i = i + 1;
    }
    assert(fonts@.skip(i as int) =~= Seq::<NamedPath>::empty());
    None
}

impl LedMakerProject {
    /// Where a text layer names its font by the path of a font in
    /// `font_list` that has a name, names it by that name instead.
    pub fn normalize_text_fonts_to_names(&mut self, font_list: &[NamedPath])
        ensures
            final(self).name == old(self).name,
            final(self).frames@.len() == old(self).frames@.len(),
            forall|i: int|
                0 <= i < old(self).frames@.len() ==> frame_with_font_names(
                    old(self).frames@[i],
                    #[trigger] final(self).frames@[i],
                    font_list@,
                ),
    {
        let ghost old_frames = self.frames@;
        let mut i: usize = 0;
        while i < self.frames.len()
            invariant
                i <= self.frames@.len() == old_frames.len(),
                self.name == old(self).name,
                old_frames == old(self).frames@,
                forall|k: int|
                    0 <= k < i ==> frame_with_font_names(
                        old_frames[k],
                        #[trigger] self.frames@[k],
                        font_list@,
                    ),
                forall|k: int| i <= k < old_frames.len() ==> #[trigger] self.frames@[k] == old_frames[k],
            decreases old_frames.len() - i,
        {
            let frame = &mut self.frames[i];
            let ghost old_frame = *frame;
            let mut j: usize = 0;
            while j < frame.contents.len()
                invariant
                    j <= frame.contents@.len() == old_frame.contents@.len(),
                    frame.name == old_frame.name,
                    frame.width == old_frame.width,
                    frame.height == old_frame.height,
                    forall|k: int|
                        0 <= k < j ==> #[trigger] frame.contents@[k] == layer_with_font_name(
                            old_frame.contents@[k],
                            font_list@,
                        ),
                    forall|k: int|
                        j <= k < old_frame.contents@.len() ==> #[trigger] frame.contents@[k]
                            == old_frame.contents@[k],
                decreases old_frame.contents@.len() - j,
            {
                let ghost old_layer = frame.contents@[j as int];
                let layer = &mut frame.contents[j];
                match &mut layer.content {
                    ComponentLayer::Text(text) => {
                        let ghost t0 = *text;
                        match find_named_font(&text.font, font_list) {
                            Some(k) => {
                                text.font = font_list[k].name.clone();
                                assert(*text == TextComponent { font: font_list@[k as int].name, ..t0 });
                            },
                            None => {},
                        }
                    },
                    ComponentLayer::Rectangle(_) => {},
                }
                assert(frame.contents@[j as int] == layer_with_font_name(old_layer, font_list@));
                j = j + 1;
            }
            i = i + 1;
        }
    }
}

// ---------------------------------------------------------------------------
// Laws
// ---------------------------------------------------------------------------

/// Font `i` of `fonts` has a name and the path `font`.
pub open spec fn names_font(fonts: Seq<NamedPath>, i: int, font: Seq<char>) -> bool {
    fonts[i].name@.len() > 0 && fonts[i].path@ == font
}

proof fn lemma_named_font_index(font: Seq<char>, fonts: Seq<NamedPath>)
    ensures
        match named_font_index(font, fonts) {
            Some(i) => 0 <= i < fonts.len() && names_font(fonts, i, font) && forall|k: int|
                0 <= k < i ==> !#[trigger] names_font(fonts, k, font),
            None => forall|k: int| 0 <= k < fonts.len() ==> !#[trigger] names_font(fonts, k, font),
        },
    decreases fonts.len(),
{
    if fonts.len() > 0 {
        let rest = fonts.drop_first();
        lemma_named_font_index(font, rest);
        assert forall|k: int| 1 <= k < fonts.len() implies #[trigger] names_font(fonts, k, font)
            == names_font(rest, k - 1, font) by {
            assert(fonts[k] == rest[k - 1]);
        }
        if !names_font(fonts, 0, font) {
            match named_font_index(font, rest) {
                Some(i) => {
                    assert forall|k: int| 0 <= k < i + 1 implies !#[trigger] names_font(
                        fonts,
                        k,
                        font,
                    ) by {
                        if k > 0 {
                            assert(!names_font(rest, k - 1, font));
                        }
                    }
                },
                None => {
                    assert forall|k: int| 0 <= k < fonts.len() implies !#[trigger] names_font(
                        fonts,
                        k,
                        font,
                    ) by {
                        if k > 0 {
                            assert(!names_font(rest, k - 1, font));
                        }
                    }
                },
            }
        }
    }
}

/// After fonts are given by name, every layer `j` of a frame is the old
/// layer `j` at the same place; a text layer keeps its text, colour and
/// effects, and its font becomes the name of the first font in `fonts`
/// that has a name and the layer's font as its path, or stays as it was
/// when there is none; a rectangle stays as it was.
pub proof fn lemma_fonts_named_per_layer(old: Frame, new: Frame, fonts: Seq<NamedPath>, j: int)
    requires
        frame_with_font_names(old, new, fonts),
        0 <= j < old.contents@.len(),
    ensures
        new.contents@.len() == old.contents@.len(),
        new.contents@[j].x == old.contents@[j].x,
        new.contents@[j].y == old.contents@[j].y,
        match old.contents@[j].content {
            ComponentLayer::Rectangle(r) => new.contents@[j].content == ComponentLayer::Rectangle(r),
            ComponentLayer::Text(t) => new.contents@[j].content matches ComponentLayer::Text(u)
                && u.text == t.text && u.color == t.color && u.effects == t.effects && (forall|i: int|
                0 <= i < fonts.len() && names_font(fonts, i, t.font@) && (forall|k: int|
                0 <= k < i ==> !#[trigger] names_font(fonts, k, t.font@)) ==> u.font
                == fonts[i].name) && ((forall|i: int|
                0 <= i < fonts.len() ==> !#[trigger] names_font(fonts, i, t.font@)) ==> u.font
                == t.font),
        },
{
    assert(new.contents@[j] == layer_with_font_name(old.contents@[j], fonts));
    match old.contents@[j].content {
        ComponentLayer::Text(t) => {
            lemma_named_font_index(t.font@, fonts);
        },
        ComponentLayer::Rectangle(_) => {},
    }
}

} // verus!
