use led_maker::editing::layer_label;
use led_maker::project::{
    ComponentLayer, Frame, LedMakerProject, PositionedLayer, RectangleComponent, TextComponent,
};

fn project_with_layers(n: i32) -> LedMakerProject {
    let mut p = LedMakerProject::default();
    p.ensure_first_frame();
    for i in 0..n {
        p.add_rect_layer();
        p.set_layer_x(Some(i as usize), &i.to_string());
    }
    p
}

fn xs(p: &LedMakerProject) -> Vec<i32> {
    p.frames[0].contents.iter().map(|l| l.x).collect()
}

#[test]
fn adding_layers_creates_first_frame_and_selects_new_layer() {
    let mut p = LedMakerProject::default();
    let sel = p.add_text_layer("Font".to_string());
    assert_eq!(sel, 0);
    assert_eq!(p.frames.len(), 1);
    assert_eq!((p.frames[0].width, p.frames[0].height), (32, 8));
    match &p.frames[0].contents[0].content {
        ComponentLayer::Text(t) => {
            assert_eq!(t.font, "Font");
            assert_eq!(t.color, (255, 80, 80));
            assert!(t.text.is_empty());
        },
        _ => panic!("expected text"),
    }
    let sel2 = p.add_rect_layer();
    assert_eq!(sel2, 1);
    match &p.frames[0].contents[1].content {
        ComponentLayer::Rectangle(r) => assert_eq!((r.width, r.height, r.color), (16, 16, (255, 255, 255))),
        _ => panic!("expected rectangle"),
    }
}

#[test]
fn moving_layers_swaps_and_follows_selection() {
    let mut p = project_with_layers(3);
    assert_eq!(xs(&p), vec![0, 1, 2]);
    let sel = p.move_layer_up(2, Some(2));
    assert_eq!(xs(&p), vec![0, 2, 1]);
    assert_eq!(sel, Some(1));
    let sel = p.move_layer_down(1, sel);
    assert_eq!(xs(&p), vec![0, 1, 2]);
    assert_eq!(sel, Some(2));
    assert_eq!(p.move_layer_up(0, Some(0)), Some(0));
    assert_eq!(p.move_layer_down(2, Some(1)), Some(1));
    assert_eq!(xs(&p), vec![0, 1, 2]);
    assert_eq!(p.move_layer_up(1, Some(0)), Some(1));
    assert_eq!(xs(&p), vec![1, 0, 2]);
}

#[test]
fn removing_layers_updates_selection() {
    let mut p = project_with_layers(3);
    assert_eq!(p.remove_layer(1, Some(2)), Some(1));
    assert_eq!(xs(&p), vec![0, 2]);
    assert_eq!(p.remove_layer(0, Some(0)), None);
    assert_eq!(xs(&p), vec![2]);
    assert_eq!(p.remove_layer(5, Some(7)), Some(6));
    assert_eq!(xs(&p), vec![2]);
}

#[test]
fn frame_size_and_layer_position_fields() {
    let mut p = LedMakerProject::default();
    p.set_frame_width("abc");
    assert_eq!(p.frames[0].width, 32);
    p.set_frame_width("64");
    p.set_frame_height("16");
    assert_eq!((p.frames[0].width, p.frames[0].height), (64, 16));
    p.set_frame_height("x");
    assert_eq!(p.frames[0].height, 8);
    p.add_rect_layer();
    p.set_layer_x(Some(0), "-3");
    p.set_layer_y(Some(0), "oops");
    assert_eq!(p.layer_position(Some(0)), (-3, 0));
    p.set_layer_y(Some(0), "4");
    assert_eq!(p.layer_position(Some(0)), (-3, 4));
    assert_eq!(p.layer_position(Some(3)), (0, 0));
    assert_eq!(p.layer_position(None), (0, 0));
    p.set_layer_x(Some(9), "1");
    assert_eq!(p.layer_position(Some(0)), (-3, 4));
    let defaults = PositionedLayer::default();
    assert_eq!((defaults.x, defaults.y), (0, 0));
    let _ = Frame::default();
}

fn text_layer_of(text: &str) -> PositionedLayer {
    let mut t = TextComponent::default();
    t.text = text.to_string();
    PositionedLayer { x: 0, y: 0, content: ComponentLayer::Text(t) }
}

#[test]
fn layer_labels_name_layers() {
    assert_eq!(layer_label(&text_layer_of(""), 0), "文字图层 1");
    assert_eq!(layer_label(&text_layer_of(""), 41), "文字图层 42");
    assert_eq!(layer_label(&text_layer_of("Hi"), 3), "T: Hi");
    assert_eq!(layer_label(&text_layer_of("一二三四五六七八九十abc"), 0), "T: 一二三四五六七八九十ab");
    let rect = PositionedLayer {
        x: 1,
        y: 2,
        content: ComponentLayer::Rectangle(RectangleComponent {
            width: 120,
            height: 0,
            radius: 0,
            color: (1, 2, 3),
        }),
    };
    assert_eq!(layer_label(&rect, 7), "矩形 120×0");
}
