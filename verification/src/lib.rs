//! Spatial indexing for radius-collision queries on fixed-dimension point
//! clouds.
//!
//! Coordinates are fixed-point integers (`i32`), with `i32::MAX` playing the
//! role of the infinite padding sentinel; squared distances are exact `u128`
//! values.  Two structures are provided: `PkdTree`, a complete-binary
//! power-of-two k-d tree with a branchless approximate-leaf descent and an
//! exact backtracking search, and `AffordanceTree`, the same partition
//! augmented with per-leaf affordance buffers that turn a radius-collision
//! query into one descent plus a short scan.

pub mod affordance;
pub mod geom;
pub mod pkdt;
pub mod select;
pub mod tree;

pub use crate::affordance::AffordanceTree;
pub use crate::geom::Volume;
pub use crate::pkdt::PkdTree;
