use led_maker::matrix::{
    concat_horizontal, concat_horizontal_aligned, content_rows, matrix_height, matrix_width,
    max_row_width, overlay_at, overlay_at_clipped, vertical_offset, Matrix, Color, VerticalAlign,
};

fn p(v: u8) -> Color {
    Color([v, v, v])
}

fn s(v: u8) -> Option<Color> {
    Some(Color([v, v, v]))
}

#[test]
fn concat_horizontal_joins_rows() {
    let left: Matrix = vec![vec![s(1), s(2)], vec![s(3)]];
    let right: Matrix = vec![vec![s(4)], vec![s(5), s(6)]];

    let merged = concat_horizontal(&left, &right);

    assert_eq!(merged[0], vec![s(1), s(2), s(4)]);
    assert_eq!(merged[1], vec![s(3), s(5), s(6)]);
}

#[test]
fn concat_horizontal_center_aligns_shorter_matrix() {
    let left: Matrix = vec![vec![s(1)], vec![s(2)], vec![s(3)], vec![s(4)]];
    let right: Matrix = vec![vec![s(9)], vec![s(8)]];

    let merged = concat_horizontal_aligned(&left, &right, VerticalAlign::Center);

    // right (2 rows) is centered within 4: right_offset=1.
    // Absent-side rows are padded with None (transparent) so all rows are width=2.
    assert_eq!(merged[0], vec![s(1), None]);
    assert_eq!(merged[1], vec![s(2), s(9)]);
    assert_eq!(merged[2], vec![s(3), s(8)]);
    assert_eq!(merged[3], vec![s(4), None]);
}

#[test]
fn concat_horizontal_bottom_aligns_shorter_matrix() {
    let left: Matrix = vec![vec![s(1)], vec![s(2)], vec![s(3)]];
    let right: Matrix = vec![vec![s(9)]];

    let merged = concat_horizontal_aligned(&left, &right, VerticalAlign::Bottom);

    // right (1 row) sits at bottom: right_offset=2.
    // Rows 0-1 have no right content → padded with None (transparent).
    assert_eq!(merged[0], vec![s(1), None]);
    assert_eq!(merged[1], vec![s(2), None]);
    assert_eq!(merged[2], vec![s(3), s(9)]);
}

#[test]
fn concat_horizontal_bottom_aligns_padded_matrices() {
    // Both matrices are 4 rows tall, but left has content in all 4 rows
    // while right only has content in rows 0-1, rows 2-3 being blank.
    let left: Matrix = vec![vec![s(1)], vec![s(2)], vec![s(3)], vec![s(4)]];
    let right: Matrix = vec![
        vec![s(9)], // content row 0
        vec![s(8)], // content row 1
        vec![None], // blank/padding
        vec![None], // blank/padding
    ];

    let merged = concat_horizontal_aligned(&left, &right, VerticalAlign::Bottom);

    // right content_rows = 2, left content_rows = 4, so right_offset = 2:
    // right[0] lands at merged[2], right[1] at merged[3].
    assert_eq!(merged[0], vec![s(1), None], "row 0");
    assert_eq!(merged[1], vec![s(2), None], "row 1");
    assert_eq!(merged[2], vec![s(3), s(9)], "row 2: left s(3) + right s(9)");
    assert_eq!(merged[3], vec![s(4), s(8)], "row 3: left s(4) + right s(8)");
    assert_eq!(merged.len(), 4);
}

#[test]
fn overlay_at_replaces_pixels_with_offset() {
    let base: Matrix = vec![
        vec![None, None, None],
        vec![None, None, None],
        vec![None, None, None],
    ];
    let top: Matrix = vec![vec![s(7), s(8)], vec![s(9), s(1)]];

    let out = overlay_at(&base, &top, 1, 1);

    assert_eq!(out[0], vec![None, None, None]);
    assert_eq!(out[1], vec![None, s(7), s(8)]);
    assert_eq!(out[2], vec![None, s(9), s(1)]);
}

#[test]
fn overlay_at_skips_transparent_pixels() {
    let base: Matrix = vec![vec![s(1), s(2), s(3)], vec![s(4), s(5), s(6)]];
    // overlay has transparent pixels mixed with colored ones
    let top: Matrix = vec![vec![None, s(9), None], vec![s(7), None, s(8)]];
    let _ = p(0);

    let out = overlay_at(&base, &top, 0, 0);

    // None in overlay should NOT overwrite base pixels
    assert_eq!(out[0], vec![s(1), s(9), s(3)]);
    assert_eq!(out[1], vec![s(7), s(5), s(8)]);
}

#[test]
fn concat_onto_empty_matrix_is_identity_top() {
    let right: Matrix = vec![vec![s(1), None], vec![s(2)]];
    let empty: Matrix = vec![];
    assert_eq!(concat_horizontal(&empty, &right), right);
    assert_eq!(concat_horizontal(&right, &empty), right);
}

#[test]
fn concat_bottom_onto_empty_drops_trailing_blank_rows_to_bottom() {
    let empty: Matrix = vec![];
    let right: Matrix = vec![vec![s(1)], vec![None], vec![None]];
    let merged = concat_horizontal_aligned(&empty, &right, VerticalAlign::Bottom);
    // content height is 1 (last lit row is row 0), so the glyph moves down two rows
    assert_eq!(merged, vec![vec![None], vec![None], vec![s(1)]]);
}

#[test]
fn concat_top_pads_missing_rows_with_longest_width() {
    let left: Matrix = vec![vec![s(1), s(2), s(3)]];
    let right: Matrix = vec![vec![s(4)], vec![s(5)]];
    let merged = concat_horizontal(&left, &right);
    assert_eq!(merged, vec![vec![s(1), s(2), s(3), s(4)], vec![None, None, None, s(5)]]);
}

#[test]
fn content_rows_measures_by_alignment() {
    let m: Matrix = vec![vec![None], vec![s(1)], vec![None], vec![s(2)], vec![None, None]];
    assert_eq!(content_rows(&m, VerticalAlign::Bottom), 4);
    assert_eq!(content_rows(&m, VerticalAlign::Top), 4);
    assert_eq!(content_rows(&m, VerticalAlign::Center), 3);
    let blank: Matrix = vec![vec![None], vec![None]];
    assert_eq!(content_rows(&blank, VerticalAlign::Center), 2);
    let empty: Matrix = vec![];
    assert_eq!(content_rows(&empty, VerticalAlign::Top), 0);
}

#[test]
fn content_rows_treats_black_rows_as_blank() {
    let m: Matrix = vec![vec![Some(Color([255, 0, 0]))], vec![Some(Color([0, 0, 0]))]];
    assert_eq!(content_rows(&m, VerticalAlign::Bottom), 1);
    assert_eq!(content_rows(&m, VerticalAlign::Top), 2);
    let dark: Matrix = vec![vec![s(0)], vec![s(0), None]];
    assert_eq!(content_rows(&dark, VerticalAlign::Center), 2);
    let framed: Matrix = vec![vec![s(0)], vec![s(5)], vec![s(0)]];
    assert_eq!(content_rows(&framed, VerticalAlign::Center), 1);
}

#[test]
fn vertical_offset_values() {
    assert_eq!(vertical_offset(10, 4, VerticalAlign::Top), 0);
    assert_eq!(vertical_offset(10, 4, VerticalAlign::Center), 3);
    assert_eq!(vertical_offset(10, 4, VerticalAlign::Bottom), 6);
    assert_eq!(vertical_offset(4, 10, VerticalAlign::Bottom), 0);
    assert_eq!(vertical_offset(5, 2, VerticalAlign::Center), 1);
}

#[test]
fn matrix_dimensions() {
    let m: Matrix = vec![vec![s(1), s(2)], vec![s(3), s(4), s(5)]];
    assert_eq!(matrix_height(&m), 2);
    assert_eq!(matrix_width(&m), 2);
    assert_eq!(max_row_width(&m), 3);
    let empty: Matrix = vec![];
    assert_eq!(matrix_width(&empty), 0);
}

#[test]
fn overlay_at_grows_rows_and_drops_rows_below() {
    let base: Matrix = vec![vec![s(1)], vec![s(2)]];
    let top: Matrix = vec![vec![s(7), None], vec![s(8)], vec![s(9)]];
    let out = overlay_at(&base, &top, 2, 1);
    assert_eq!(out[0], vec![s(1)]);
    assert_eq!(out[1], vec![s(2), None, s(7), None]);
    assert_eq!(out.len(), 2);
}

#[test]
fn overlay_at_clipped_handles_negative_offsets() {
    let base: Matrix = vec![vec![None, None, None], vec![None, None, None]];
    let top: Matrix = vec![vec![s(1), s(2)], vec![s(3), s(4)], vec![s(5), s(6)]];
    let out = overlay_at_clipped(&base, &top, -1, -1);
    assert_eq!(out, vec![vec![s(4), None, None], vec![s(6), None, None]]);
    let out2 = overlay_at_clipped(&base, &top, 2, 0);
    assert_eq!(out2, vec![vec![None, None, s(1)], vec![None, None, s(3)]]);
}

#[test]
fn overlay_at_clipped_keeps_base_shape() {
    let base: Matrix = vec![vec![s(1), s(1)], vec![s(1), s(1)]];
    let top: Matrix = vec![vec![s(9); 5]; 5];
    let out = overlay_at_clipped(&base, &top, -2, -2);
    assert_eq!(out, vec![vec![s(9), s(9)], vec![s(9), s(9)]]);
    let clear: Matrix = vec![vec![None; 5]; 5];
    assert_eq!(overlay_at_clipped(&base, &clear, 0, 0), base);
}

#[test]
fn overlay_at_clipped_agrees_with_overlay_at_when_it_fits() {
    let base: Matrix = vec![vec![s(1), s(2), s(3), s(4)]; 3];
    let top: Matrix = vec![vec![s(7), None], vec![None, s(8), s(9)], vec![s(5)]];
    for (ox, oy) in [(0usize, 0usize), (1, 0), (0, 1), (1, 2), (0, 3)] {
        let clipped = overlay_at_clipped(&base, &top, ox as i32, oy as i32);
        let plain = overlay_at(&base, &top, ox, oy);
        assert_eq!(clipped, plain);
    }
}
