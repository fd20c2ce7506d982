//! The Haar discrete wavelet transform over one-dimensional sequences, with the
//! in-place index permutations that the allocation-free variant relies on.
pub mod arrays;
mod cycles;
pub mod haar;
pub mod model;
pub mod sizes;
