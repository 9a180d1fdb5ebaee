//! Exact line-of-sight geometry on integer coordinates.
//!
//! Given an observer, a field of view bounded by two directions and a set of
//! opaque wall segments, the library computes the visible region as a fan of
//! triangles anchored at the observer. All arithmetic is exact: positions and
//! directions have integer coordinates and ray parameters are fractions.

pub mod space;
pub mod sight;
