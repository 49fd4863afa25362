//! A pixel-buffer drawing engine: packed pixel formats, a bounds-checked
//! bitmap view with drawing primitives, and a bitmap-font glyph extractor.
pub mod pix_type;
pub mod bitmap;
pub mod asc_fonts;

pub use asc_fonts::{AsciiFont, CharBitMap};
pub use bitmap::{BitMap, BitMapError, BitMapResult, Point};
pub use pix_type::{PixExt, RGB, RGB565, ARGB32};
