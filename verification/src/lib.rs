//! Square heightmaps refined in place by diamond-square subdivision.
//!
//! A [`grid::Grid`] is a square table of elevation samples. A
//! [`region::Region`] names a square window of it by its origin and side.
//! [`engine::diamond_square`] fills a region from its four corners, calling
//! back into the caller for the arithmetic on samples.

pub mod region;
pub mod grid;
pub mod engine;
