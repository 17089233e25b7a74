//! Verified kernels of a set of fork-join benchmarks: decimal build settings,
//! the N-queens solution counter, merge sort with a parallel merge, the
//! z-order "splayed bits" counter and the slice and fork-join helpers that the
//! matrix-multiplication kernels are built from.
pub mod config;
pub mod slices;
pub mod adapint;
pub mod bh;
pub mod matmul;
pub mod nqueens;
pub mod sort;
pub mod splayed;

pub use bh::parse_leafcap;
pub use sort::seq_merge;
