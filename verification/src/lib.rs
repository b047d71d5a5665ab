//! Points in three-dimensional space whose coordinates are IEEE 754 binary64
//! numbers, held as their 64-bit patterns, with componentwise arithmetic and
//! Euclidean distance computed in integer arithmetic and proved to round
//! correctly.
pub mod format;
pub mod rounding;
pub mod pack;
pub mod arith;
pub mod point;
pub mod laws;

pub use crate::point::Point3D;
