use std::collections::HashMap;

use led_maker::bitmap::GlyphMap;
use led_maker::config::{AppConfig, NamedPath, MAX_RECENT_PROJECTS};
use led_maker::editing::{default_text_font, parse_i32_or, parse_u32_or};
use led_maker::frame::{
    apply_outline_effect, layer_font_request, render_frame_to_matrix, render_layer,
    resolve_font_path,
};
use led_maker::led_image::{led_layout, led_picture_fits, LedRenderOptions};
use led_maker::matrix::{Matrix, Color};
use led_maker::project::{
    AppState, ComponentLayer, Frame, LedMakerProject, LiveProject, OutlineEffect, PositionedLayer,
    RectangleComponent, TextComponent, TextEffect,
};

fn np(path: &str, name: &str) -> NamedPath {
    NamedPath { path: path.to_string(), name: name.to_string() }
}

fn text_layer(text: &str, font: &str, effects: Vec<TextEffect>) -> ComponentLayer {
    ComponentLayer::Text(TextComponent {
        text: text.to_string(),
        font: font.to_string(),
        color: (1, 2, 3),
        effects,
    })
}

#[test]
fn add_recent_project_moves_to_front_and_caps() {
    let mut config = AppConfig::default();
    for i in 0..25 {
        config.add_recent_project(format!("/p/{}", i), format!("P{}", i));
    }
    assert_eq!(config.recent_projects.len(), MAX_RECENT_PROJECTS);
    assert_eq!(config.recent_projects[0].path, "/p/24");
    assert_eq!(config.recent_projects[19].path, "/p/5");
    config.add_recent_project("/p/10".to_string(), "again".to_string());
    assert_eq!(config.recent_projects.len(), 20);
    assert_eq!(config.recent_projects[0].name, "again");
    assert_eq!(config.recent_projects.iter().filter(|p| p.path == "/p/10").count(), 1);
    assert_eq!(config.recent_projects[1].path, "/p/24");
}

#[test]
fn add_font_replaces_same_path_and_remove_font_drops_it() {
    let mut config = AppConfig::default();
    config.add_font("/f/a.bdf".to_string(), "A".to_string());
    config.add_font("/f/b.bdf".to_string(), "B".to_string());
    config.add_font("/f//a.bdf".to_string(), "A2".to_string());
    assert_eq!(config.font_list.len(), 2);
    assert_eq!(config.font_list[0].name, "B");
    assert_eq!(config.font_list[1].name, "A2");
    config.remove_font("/f/b.bdf");
    assert_eq!(config.font_list.len(), 1);
    assert_eq!(config.font_list[0].name, "A2");
    assert!(config.recent_projects.is_empty());
}

#[test]
fn add_font_treats_trailing_slash_as_same_path() {
    let mut config = AppConfig::default();
    config.add_font("fonts/a.bdf".to_string(), "A".to_string());
    config.add_font("fonts/a.bdf/".to_string(), "A2".to_string());
    assert_eq!(config.font_list.len(), 1);
    assert_eq!(config.font_list[0].name, "A2");
    config.remove_font("fonts/a.bdf");
    assert!(config.font_list.is_empty());
}

#[test]
fn remove_font_undoes_add_font() {
    let mut config = AppConfig::default();
    config.add_font("/f/a.bdf".to_string(), "A".to_string());
    config.add_font("/f/b.bdf".to_string(), "B".to_string());
    config.remove_font("/f/b.bdf");
    assert_eq!(config.font_list.len(), 1);
    assert_eq!(config.font_list[0].path, "/f/a.bdf");
    config.add_recent_project("/p/x".to_string(), "X".to_string());
    config.add_recent_project("/p//x".to_string(), "X2".to_string());
    assert_eq!(config.recent_projects.len(), 1);
    assert_eq!(config.recent_projects[0].name, "X2");
}

#[test]
fn load_or_default_and_new_states() {
    let loaded = AppConfig { recent_projects: vec![np("/x", "X")], font_list: vec![] };
    let c = AppConfig::load_or_default(Some(loaded));
    assert_eq!(c.recent_projects.len(), 1);
    let d = AppConfig::load_or_default(None);
    assert!(d.recent_projects.is_empty() && d.font_list.is_empty());
    let state = AppState::new(d);
    assert!(state.file_path.is_none());
    assert!(state.current_project.name.is_empty() && state.current_project.frames.is_empty());
    let live = LiveProject::new();
    assert!(live.0.frames.is_empty());
    let f = Frame::default();
    assert_eq!((f.width, f.height), (32, 8));
}

#[test]
fn normalize_text_fonts_to_names_uses_named_fonts() {
    let fonts = vec![np("/f/a.bdf", ""), np("/f/a.bdf", "Alpha"), np("/f/b.bdf", "Beta")];
    let mut project = LedMakerProject {
        name: "demo".to_string(),
        frames: vec![Frame {
            name: String::new(),
            width: 8,
            height: 8,
            contents: vec![
                PositionedLayer { x: 1, y: 2, content: text_layer("hi", "/f/a.bdf", vec![]) },
                PositionedLayer { x: 0, y: 0, content: text_layer("yo", "/f/c.bdf", vec![]) },
                PositionedLayer {
                    x: 0,
                    y: 0,
                    content: ComponentLayer::Rectangle(RectangleComponent {
                        width: 1,
                        height: 1,
                        radius: 0,
                        color: (0, 0, 0),
                    }),
                },
            ],
        }],
    };
    project.normalize_text_fonts_to_names(&fonts);
    match &project.frames[0].contents[0].content {
        ComponentLayer::Text(t) => assert_eq!(t.font, "Alpha"),
        _ => panic!("expected text"),
    }
    match &project.frames[0].contents[1].content {
        ComponentLayer::Text(t) => assert_eq!(t.font, "/f/c.bdf"),
        _ => panic!("expected text"),
    }
    assert_eq!(project.frames[0].contents[0].x, 1);
}

#[test]
fn resolve_font_path_by_name_or_path() {
    let fonts = vec![np("/f/a.bdf", "Alpha"), np("/f/b.bdf", "Beta")];
    assert_eq!(resolve_font_path("Beta", &fonts), "/f/b.bdf");
    assert_eq!(resolve_font_path("/f//a.bdf", &fonts), "/f/a.bdf");
    assert_eq!(resolve_font_path("other.bdf", &fonts), "other.bdf");
    assert_eq!(layer_font_request(&text_layer("x", "Alpha", vec![]), &fonts), Some("/f/a.bdf".to_string()));
    assert_eq!(layer_font_request(&text_layer("", "Alpha", vec![]), &fonts), None);
    assert_eq!(default_text_font(&fonts), "Alpha");
    assert_eq!(default_text_font(&[np("/f/z.bdf", "")]), "/f/z.bdf");
    assert_eq!(default_text_font(&[]), "");
}

fn dot_glyphs() -> GlyphMap {
    // one lit pixel at the bottom-left of an 8x16 glyph
    let mut g: GlyphMap = HashMap::new();
    g.insert('.' as u32, format!("{}80", "00".repeat(15)));
    g
}

#[test]
fn apply_outline_effect_rings_lit_pixels() {
    let c = Some(Color([7, 7, 7]));
    let o = Some(Color([9, 9, 9]));
    let base: Matrix = vec![vec![None, c], vec![None]];
    let out = apply_outline_effect(&base, 1, Color([9, 9, 9]));
    assert_eq!(out.len(), 4);
    assert_eq!(out[0], vec![None, o, o, o]);
    assert_eq!(out[1], vec![None, o, c, o]);
    assert_eq!(out[2], vec![None, o, o, o]);
    assert_eq!(out[3], vec![None, None, None, None]);
    let empty: Matrix = vec![];
    assert!(apply_outline_effect(&empty, 3, Color([1, 1, 1])).is_empty());
    assert_eq!(apply_outline_effect(&base, 0, Color([1, 1, 1])), base);
}

#[test]
fn render_layer_text_with_outline_moves_up_left() {
    let glyphs = dot_glyphs();
    let layer = text_layer(
        ".",
        "font",
        vec![TextEffect::Outline(OutlineEffect { width: 1, color: (9, 9, 9) })],
    );
    let (m, off) = render_layer(&layer, Some(&glyphs)).unwrap();
    assert_eq!(off, -1);
    assert_eq!(m.len(), 18);
    assert_eq!(m[16][1], Some(Color([1, 2, 3])));
    assert_eq!(m[15][0], Some(Color([9, 9, 9])));
    assert!(render_layer(&layer, None).is_none());
    let missing = text_layer("?", "font", vec![]);
    assert!(render_layer(&missing, Some(&glyphs)).is_none());
}

#[test]
fn render_frame_draws_layers_on_fixed_canvas() {
    let color = Some(Color([5, 6, 7]));
    let frame = Frame {
        name: "f".to_string(),
        width: 4,
        height: 3,
        contents: vec![PositionedLayer {
            x: 1,
            y: 1,
            content: ComponentLayer::Rectangle(RectangleComponent {
                width: 2,
                height: 5,
                radius: 0,
                color: (5, 6, 7),
            }),
        }],
    };
    let m = render_frame_to_matrix(&frame, &vec![None]).unwrap();
    assert_eq!(m, vec![vec![None; 4], vec![None, color, color, None], vec![None, color, color, None]]);
    let empty = Frame { contents: vec![], ..Frame::default() };
    assert!(render_frame_to_matrix(&empty, &vec![]).is_none());
    let flat = Frame { height: 0, ..Frame::default() };
    assert!(render_frame_to_matrix(&flat, &vec![]).is_none());
}

#[test]
fn render_frame_text_outline_is_clipped_to_canvas() {
    let frame = Frame {
        name: String::new(),
        width: 3,
        height: 17,
        contents: vec![PositionedLayer {
            x: 0,
            y: 0,
            content: text_layer(
                ".",
                "font",
                vec![TextEffect::Outline(OutlineEffect { width: 1, color: (9, 9, 9) })],
            ),
        }],
    };
    let m = render_frame_to_matrix(&frame, &vec![Some(dot_glyphs())]).unwrap();
    let o = Some(Color([9, 9, 9]));
    assert_eq!(m.len(), 17);
    assert_eq!(m[15], vec![Some(Color([1, 2, 3])), o, None]);
    assert_eq!(m[14], vec![o, o, None]);
    assert_eq!(m[16], vec![o, o, None]);
    assert_eq!(m[13], vec![None, None, None]);
}

#[test]
fn led_layout_places_dots() {
    let m: Matrix = vec![vec![Some(Color([1, 1, 1])), None]];
    let layout = led_layout(&m, &LedRenderOptions::default());
    assert_eq!((layout.width, layout.height, layout.radius), (32, 16, 6));
    assert_eq!(layout.background, Color([10, 0, 0]));
    assert_eq!(layout.dots.len(), 2);
    assert_eq!((layout.dots[0].center_x, layout.dots[0].center_y), (6, 6));
    assert_eq!(layout.dots[0].color, Color([1, 1, 1]));
    assert_eq!((layout.dots[1].center_x, layout.dots[1].center_y), (22, 6));
    assert_eq!(layout.dots[1].color, Color([40, 0, 0]));
    let empty: Matrix = vec![];
    let l2 = led_layout(&empty, &LedRenderOptions::default());
    assert_eq!((l2.width, l2.height), (16, 0));
}

#[test]
fn number_fields_parse_like_str_parse() {
    assert_eq!(parse_u32_or("12", 32), 12);
    assert_eq!(parse_u32_or("+7", 32), 7);
    assert_eq!(parse_u32_or(" 7", 32), 32);
    assert_eq!(parse_u32_or("-1", 32), 32);
    assert_eq!(parse_u32_or("4294967296", 8), 8);
    assert_eq!(parse_u32_or("4294967295", 8), 4294967295);
    assert_eq!(parse_i32_or("-2147483648", 0), -2147483648);
    assert_eq!(parse_i32_or("2147483648", 0), 0);
    assert_eq!(parse_i32_or("-", 5), 5);
    assert_eq!(parse_i32_or("", 5), 5);
}

#[test]
fn render_led_matrices_paints_discs_on_background() {
    let m: Matrix = vec![vec![Some(Color([1, 2, 3])), None]];
    let picture = led_maker::led_image::render_led_matrices(&m, &LedRenderOptions::default());
    let (w, h, bytes) = picture.into_parts();
    assert_eq!((w, h), (32, 16));
    assert_eq!(bytes.len(), 32 * 16 * 3);
    let px = |x: usize, y: usize| bytes[(y * 32 + x) * 3..(y * 32 + x) * 3 + 3].to_vec();
    assert_eq!(px(6, 6), vec![1, 2, 3]);
    assert_eq!(px(22, 6), vec![40, 0, 0]);
    assert_eq!(px(15, 15), vec![10, 0, 0]);
    assert_eq!(px(31, 0), vec![10, 0, 0]);
}

#[test]
fn re_adding_a_recent_project_moves_it_first() {
    let mut c = AppConfig::default();
    c.add_recent_project("a".to_string(), "A".to_string());
    c.add_recent_project("b".to_string(), "B".to_string());
    c.add_recent_project("a".to_string(), "A2".to_string());
    let paths: Vec<&str> = c.recent_projects.iter().map(|p| p.path.as_str()).collect();
    let names: Vec<&str> = c.recent_projects.iter().map(|p| p.name.as_str()).collect();
    assert_eq!(paths, vec!["a", "b"]);
    assert_eq!(names, vec!["A2", "B"]);
}

#[test]
fn led_picture_fits_checks_the_picture_size() {
    let m: Matrix = vec![vec![Some(Color([1, 2, 3])), None]; 2];
    assert!(led_picture_fits(&m, &LedRenderOptions::default()));
    let huge = LedRenderOptions { led_size: u32::MAX, spacing: 1, off_color: [0; 3], bg_color: [0; 3] };
    assert!(!led_picture_fits(&m, &huge));
    let wide = LedRenderOptions { led_size: 0x8000_0000, spacing: 0, off_color: [0; 3], bg_color: [0; 3] };
    assert!(!led_picture_fits(&m, &wide));
    let empty: Matrix = vec![];
    assert!(led_picture_fits(&empty, &LedRenderOptions::default()));
}
