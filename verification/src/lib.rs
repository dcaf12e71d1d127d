//! A cover tree: an index over the points of a metric space that answers nearest-neighbour
//! queries exactly, and takes insertions and removals.
//!
//! The tree never looks inside a point. It only measures distances, which are natural
//! numbers, and relies on their symmetry and on the triangle inequality, which every
//! implementation of [`MetricSpace`] proves. A node of level `l` covers the distances up to
//! the `l`-th power of the span factor, a fraction greater than one; the comparison with
//! that power is exact, however large the power is.
//!
//! Every operation states what it returns and what tree it leaves, and the laws that
//! connect the operations are proved in [`laws`]:
//!
//! - a search returns a point that no point of the tree is nearer to the query than, the
//!   first such point in the order in which it visits the tree;
//! - every insertion counts, and a point inserted within the cover distance of the root
//!   comes back from a removal;
//! - remembered distances are the true ones, in every tree;
//! - an insertion within the cover distance of the root keeps every child within the cover
//!   distance of its parent. An insertion beyond it need not.

pub mod common;
pub mod cover;
pub mod forest;
pub mod laws;
pub mod limbs;
pub mod metric;
pub mod span;
pub mod tree;

pub use common::{CoverTreeData, NearestNeighbor};
pub use cover::Cover;
pub use metric::{MetricI16, MetricI32, MetricI64, MetricI8, MetricSpace, Point};
pub use span::{SpanFactor, DEFAULT_SPAN_DENOMINATOR, DEFAULT_SPAN_NUMERATOR};
pub use tree::CoverTree;
