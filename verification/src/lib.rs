//! A k-d tree index over points with single-precision coordinates.
//!
//! [`KDTree`] keeps points in a tree that splits them along one axis after the other. It
//! can be built from points at once or grow by one point at a time, forgets points, keeps
//! itself balanced, and finds the points nearest to a query.
pub mod kd_tree;
pub mod laws;
pub mod model;
pub mod neighbors;
pub mod path_laws;
pub mod paths;
pub mod point;
pub mod rebuild_laws;
pub mod search;
pub mod search_laws;
pub mod select;
pub mod single;
pub mod sums;

pub use kd_tree::{KDTree, KDTreeNode};
pub use point::{DbError, DenseVector, IndexedVector, PointId, Similarity};
pub use single::Single;
