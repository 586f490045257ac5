//! Search in an index of quantized vectors.
//!
//! The vectors of an index are kept as short codes, one per coordinate.  To
//! search, they are reconstructed as bytes, the queries are quantized to bytes
//! too, and the inner products of all of them are taken as a product of two byte
//! matrices with 32-bit sums.  The scores are then scaled back, corrected and
//! weighted, and the best of each query are listed.
//!
//! Coordinates, weights and ranks are binary32 numbers.  Their arithmetic is
//! done on bit patterns and correctly rounded, so the ranks, and with them what
//! a search finds, are stated exactly.

pub mod binary32;
pub mod contents;
pub mod doubling;
pub mod index;
pub mod laws;
pub mod matrix;
pub mod numbers;
pub mod order;
pub mod parallel;
pub mod quantize;
pub mod rounding;
pub mod scaling;
pub mod scoring;
pub mod topk;

pub use binary32::Binary32;
pub use index::{IndexView, SearchResults, TurboQuantIndex};
