//! A k-d tree over points with integer coordinates: build it over a vector
//! of points, then ask for the `k` points nearest to a query or for all the
//! points within a radius of it.
//!
//! - `point`: the points and their squared distance;
//! - `queue`: the bounded ascending queue that collects the nearest points;
//! - `select`: the selection that finds the median of a range of points;
//! - `tree`: the nodes, their well-formedness, and the median-split build;
//! - `kdtree`: the tree over a vector of points, and its searches;
//! - `cpus`: the split depth derived from the number of CPUs;
//! - `laws`: what holds across the searches.

pub mod cpus;
pub mod kdtree;
pub mod laws;
pub mod point;
pub mod queue;
pub mod select;
pub mod tree;

pub use kdtree::KDTree;
pub use point::TraitPoint;
pub use queue::FixedSizePriorityQueue;
