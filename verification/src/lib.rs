//! A raster image engine over width/height-tagged RGBA pixel buffers:
//! bounds-checked pixel access, rectangle transfer, masked extraction and
//! erasure, scanline flood fill, and buffer resize with origin remapping.

pub mod base;
pub mod crop;
pub mod fill;
pub mod flood;
pub mod pix;
pub mod rect;
pub mod resize;

pub use base::BufferError;
pub use base::RgbaBuffer;
