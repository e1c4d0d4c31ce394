//! Pixel matrices for LED signs: composing glyph bitmaps, layers and frames.

pub mod matrix;
pub mod text;
pub mod bitmap;
pub mod config;
pub mod project;
pub mod frame;
pub mod led_image;
pub mod font_preview;
pub mod editing;
