//! Copies of subtrees.

use super::{points_among, Cover};
use crate::metric::{MetricSpace, Point};
use crate::span::SpanFactor;
use vstd::prelude::*;

verus! {

/// Nodes that hold the same points, one by one, hold the same points together.
proof fn lemma_points_among_alike<P: Point>(a: Seq<Cover<P>>, b: Seq<Cover<P>>)
    requires
        a.len() == b.len(),
        forall|i: int| 0 <= i < a.len() ==> (#[trigger] a[i]).points() =~= b[i].points(),
    ensures
        points_among(a) =~= points_among(b),
    decreases a.len(),
{
    if a.len() > 0 {
        lemma_points_among_alike(a.drop_last(), b.drop_last());
    }
}

impl<P: Point> Cover<P> {
    /// Whether this subtree has the shape of `other`: the same point, level and remembered
    /// distance, and as many children, each of the shape of the child in its place.
    pub open spec fn same_shape(self, other: Self) -> bool
        decreases self,
    {
        &&& self.point() == other.point()
        &&& self.level() == other.level()
        &&& self.cached() == other.cached()
        &&& self.children().len() == other.children().len()
        &&& forall|i: int|
            0 <= i < self.children().len() ==> (#[trigger] self.children()[i]).same_shape(
                other.children()[i],
            )
    }

    /// A subtree of the shape of another holds the same points, and is coherent, of
    /// positive levels and covered where the other is.
    pub proof fn lemma_same_shape(self, other: Self)
        requires
            self.same_shape(other),
        ensures
            self.points() =~= other.points(),
            self.below() =~= other.below(),
            other.coherent() ==> self.coherent(),
            other.positive_levels() ==> self.positive_levels(),
            forall|span_factor: SpanFactor|
                other.covered(span_factor) ==> #[trigger] self.covered(span_factor),
        decreases self,
    {
        assert forall|i: int| 0 <= i < self.children().len() implies (
        #[trigger] self.children()[i]).points() =~= other.children()[i].points() by {
            self.children()[i].lemma_same_shape(other.children()[i]);
        }
        lemma_points_among_alike(self.children(), other.children());
        if other.coherent() {
            assert forall|i: int| 0 <= i < self.children().len() implies (
            #[trigger] self.children()[i]).coherent() by {
                self.children()[i].lemma_same_shape(other.children()[i]);
            }
        }
        if other.positive_levels() {
            assert forall|i: int| 0 <= i < self.children().len() implies (
            #[trigger] self.children()[i]).positive_levels() by {
                self.children()[i].lemma_same_shape(other.children()[i]);
            }
        }
        assert forall|span_factor: SpanFactor| other.covered(span_factor) implies self.covered(
            span_factor,
        ) by {
            assert forall|i: int| 0 <= i < self.children().len() implies {
                &&& span_factor.reaches(
                    self.level(),
                    self.point().dist((#[trigger] self.children()[i]).point()),
                )
                &&& self.children()[i].covered(span_factor)
            } by {
                self.children()[i].lemma_same_shape(other.children()[i]);
            }
        }
    }
}

impl<P: Point> Clone for Cover<P> {
    /// A copy of this subtree, node by node.
    fn clone(&self) -> (copy: Self)
        ensures
            copy.same_shape(*self),
        decreases self,
    {
        let mut children: Vec<Cover<P>> = Vec::new();
        let mut i: usize = 0;
        while i < self.children.len()
            invariant
                i <= self.children@.len(),
                children@.len() == i,
                forall|k: int|
                    0 <= k < i ==> (#[trigger] children@[k]).same_shape(self.children@[k]),
            decreases self.children@.len() - i,
        {
            let child = self.children[i].clone();
            children.push(child);
            i = i + 1;
        }
        Cover { point: self.point, children, level: self.level, max_distance: self.max_distance }
    }
}

} // verus!
