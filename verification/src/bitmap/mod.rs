//! The 32-bit bitmap: containers keyed by the high 16 bits of each value.

pub mod cmp;
pub mod container;
pub mod inherent;
pub mod iter;
pub mod store;

pub use cmp::{Pairs, ParPairsProducer, ParallelPairs};
pub use container::Container;
pub use inherent::RoaringBitmap;
