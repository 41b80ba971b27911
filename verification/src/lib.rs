//! NetPBM raster images: header tokens, bit packing, luminance, and the
//! byte-level codec for the binary `P4`, `P5` and `P6` formats.

pub mod error;
pub mod bits;
pub mod codec;
pub mod decimal;
pub mod gray;
pub mod image;
pub mod text;
pub mod token;
