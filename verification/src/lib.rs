//! Compressed bitmaps of 32-bit integers split into 16-bit keyed containers,
//! and a 64-bit variant whose high halves live in an adaptive radix tree.

pub mod artmap;
pub mod bitmap;

pub use bitmap::RoaringBitmap;
