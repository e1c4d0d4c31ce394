# led_maker

A verified library for an LED-sign editor: pixel matrices, bitmap fonts
(BDF and Unifont `.hex`), text rendering with outlines, layered frames, the
LED picture they are shown as, the application's configuration and the
editor's layer operations. Every function in `src/` carries a contract that
Verus proves, except seven small wrappers marked `#[verifier::external_body]`
whose contracts Verus takes on trust, each calling one outside function:

- `text.rs`: `to_uppercase` (`str::to_uppercase`) and `string_from_range`
  (collecting characters into a `String`);
- `config.rs`: `paths_equal` (`Path`'s `==`);
- `led_image.rs`: `blank_picture` (`RgbImage::from_pixel`), `draw_disc`
  (`imageproc`'s `draw_filled_circle_mut`), `picture_dimensions` and
  `picture_into_bytes` (`ImageBuffer::dimensions` and `into_raw`). The
  picture type `LedPicture`, which holds an `RgbImage`, is hidden from
  proofs too.

- `src/matrix.rs`: matrices of optional colours; side-by-side concatenation
  with vertical alignment, overlays (growing and clipped).
- `src/text.rs`: character-level parsing (white space, lines, integers as
  `str::parse` reads them).
- `src/bitmap.rs`: glyph bitmaps, the BDF and `.hex` parsers, text to matrix.
- `src/frame.rs`: layers (text with outline effects, rectangles) composed on
  a frame's canvas.
- `src/led_image.rs`: LED layout and the picture, painted with `image` and
  `imageproc`.
- `src/font_preview.rs`: font family names and preview matrices.
- `src/config.rs`, `src/project.rs`, `src/editing.rs`: settings, the project
  model and the editor's edits.

`app/` holds the GUI (gpui) and the file input and output around the library.
