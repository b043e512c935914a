//! A probabilistic set-membership filter.
//!
//! A [`Bloom2`] hashes each value once, carves the digest into several bit
//! positions and records them in a [`Bitmap`]. The [`CompressedBitmap`] keeps
//! the set positions as sorted runs, so its memory grows with the number of
//! runs and not with the size of the address space.

pub mod bitmap;
pub mod bloom;
pub mod digest;
pub mod size;

pub use bitmap::CompressedBitmap;
pub use bloom::{Bitmap, Bloom2, BloomFilterBuilder};
pub use size::FilterSize;
