//! A grid rewriting engine: N-dimensional coordinates and grids, the group of
//! right-angle rotations, and a wildcard pattern matcher that rewrites a grid
//! one rule application at a time.
pub mod coord;
pub mod grid;
pub mod ndcoord;
pub mod ndgrid;
pub mod permutation;
pub mod rotation;
pub mod rules;
