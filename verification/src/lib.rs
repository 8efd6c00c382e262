//! A compressed bitmap of 32-bit integers in the roaring layout, with a
//! double-ended iterator, and the model-based properties that check it.

pub mod order;
pub mod runs;
pub mod bits;
pub mod store;
pub mod bitmap;
pub mod model;
pub mod etna;
pub mod laws;

pub use bitmap::RoaringBitmap;
pub use bitmap::iter::Iter;
