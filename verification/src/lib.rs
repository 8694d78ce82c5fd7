//! Perceptual hashes of images, with a checkpoint file that makes the work resumable.
//!
//! - [`checkpoint`] reads a checkpoint file: it recovers the entries of the well-formed
//!   lines and the offset at which writing resumes. [`record`] is the format of one
//!   line, [`text`] the rules of its characters, [`encoding`] what is used of UTF-8.
//! - [`cache`] is the lookup table of recovered entries, [`work`] the paths that are
//!   left to hash.
//! - [`grid`] turns a decoded image into the grid of grey samples, [`keys`] turns
//!   transform coefficients into integers of the same order, and [`median`] turns
//!   these into the bits of a hash.
//! - [`laws`] states what holds of reading and appending taken together.

pub mod cache;
pub mod checkpoint;
pub mod encoding;
pub mod grid;
pub mod keys;
pub mod laws;
pub mod median;
pub mod record;
pub mod text;
pub mod work;
