//! Run-length encoded binary images.
//!
//! A binary image is stored as a sorted list of maximal horizontal foreground
//! runs. Set algebra (and, or, diff, complement) and morphology (dilate,
//! erode) operate directly on the compressed representation; a pixel buffer
//! is touched only at the encode/decode boundary.

pub mod canon;
pub mod flip_bits_iter;
pub mod image;
pub mod laws;
pub mod ops;
pub mod rle;
pub mod run;

pub use crate::flip_bits_iter::FlipBitsIter;
pub use crate::image::Image;
pub use crate::rle::RLE;
pub use crate::run::Run;
