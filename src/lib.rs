//! Axis-wise permutation of dense multi-dimensional arrays: build a
//! permutation of one axis (identity, or by sorting with a comparator) and
//! relocate every element of an owned array along that axis, exactly once.
//!
//! `frames` and `colour_map` use it on images: folding pixels into
//! rectangles and sorting their columns, and a table of replacement colours.

pub mod permutation;
pub mod array;
pub mod permute;
pub mod sort;
pub mod laws;
pub mod frames;
pub mod colour_map;

pub use array::{Array, Axis};
pub use permutation::Permutation;
pub use permute::PermuteArray;
pub use sort::SortArray;
pub use colour_map::ColourMap;
pub use frames::{construct_sorted_frame, get_factors, Rgb};
