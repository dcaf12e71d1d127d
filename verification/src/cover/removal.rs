//! The removal of a point from beneath a node.

use super::Cover;
use crate::forest::{
    first_holder, lemma_nearest_first, lemma_permutation_source, lemma_points_among_includes,
    lemma_points_among_owner, lemma_points_among_swap_remove, lemma_points_among_update,
    nearest_first, no_holder, not_beneath_earlier,
};
use crate::metric::{MetricSpace, Point};
use vstd::prelude::*;

verus! {

impl<P: Point> Cover<P> {
    /// What holds of this node after `query` was asked to be removed from beneath `before`
    /// and `removed` came back.
    ///
    /// Something is removed exactly when `query` is among the descendents' points. The node
    /// that held it goes with everything beneath it, so the node may lose more points than
    /// `query`; its own point stays.
    ///
    /// The children are sorted by their distance to `query`, nearest first. The first child
    /// that holds `query` goes, and the last child takes its place. Where no child holds
    /// it, the children are asked in turn to remove it from beneath them, until one does.
    pub open spec fn pruned_from(self, before: Self, query: P, removed: Option<P>) -> bool
        decreases before,
        via Self::pruned_from_decreases
    {
        let sorted = nearest_first(before.children(), query);
        &&& self.preserves(before)
        &&& (removed is Some <==> before.below().contains(query))
        &&& (removed is Some ==> removed == Some(query))
        &&& self.cached() == (if removed is Some {
            None
        } else {
            before.cached()
        })
        &&& (removed is Some ==> self.below().subset_of(before.below().remove(query)))
        &&& (removed is None ==> self.keeps(before))
        &&& forall|i: int|
            first_holder(sorted, i, query) ==> self.children() == sorted.update(
                i,
                sorted.last(),
            ).drop_last()
        &&& (no_holder(sorted, query) ==> {
            &&& self.children().len() == sorted.len()
            &&& forall|k: int|
                0 <= k < sorted.len() ==> if not_beneath_earlier(sorted, k, query) {
                    (#[trigger] self.children()[k]).pruned_from(
                        sorted[k],
                        query,
                        if sorted[k].below().contains(query) {
                            Some(query)
                        } else {
                            None
                        },
                    )
                } else {
                    self.children()[k] == sorted[k]
                }
        })
    }

    #[via_fn]
    proof fn pruned_from_decreases(self, before: Self, query: P, removed: Option<P>) {
        let sorted = nearest_first(before.children(), query);
        lemma_nearest_first(before.children(), query);
        assert forall|k: int| 0 <= k < sorted.len() implies decreases_to!(before => sorted[k]) by {
            lemma_permutation_source(before.children(), sorted, k);
        }
    }
}

impl<P: Point> Cover<P> {
    /// Whether two points are the same point.
    fn same_point(a: P, b: P) -> (same: bool)
        ensures
            same == (a == b),
    {
        proof {
            P::lemma_eq_is_identity();
        }
        a == b
    }

    /// The position of the first node that holds `query` itself, if there is one.
    fn position_of_point(children: &Vec<Cover<P>>, query: P) -> (position: Option<usize>)
        ensures
            match position {
                Some(i) => {
                    &&& i < children@.len()
                    &&& children@[i as int].point() == query
                    &&& forall|k: int| 0 <= k < i ==> children@[k].point() != query
                },
                None => forall|k: int| 0 <= k < children@.len() ==> children@[k].point() != query,
            },
    {
        let mut i: usize = 0;
        while i < children.len()
            invariant
                i <= children@.len(),
                forall|k: int| 0 <= k < i ==> children@[k].point() != query,
            decreases children@.len() - i,
        {
            if Self::same_point(children[i].point, query) {
                return Some(i);
            }
            i = i + 1;
        }
        None
    }

    /// Removes one node that holds `query` from beneath this node, with everything under
    /// it, and returns its point. The point of this node itself is never removed.
    ///
    /// A child that holds `query` goes first; failing that, the children are searched in
    /// ascending order of their distance to `query`.
    pub fn remove(&mut self, query: P) -> (removed: Option<P>)
        requires
            old(self).coherent(),
        ensures
            final(self).pruned_from(*old(self), query, removed),
            final(self).coherent(),
        decreases old(self).points().len(),
    {
        let mut removed: Option<P> = None;
        let ghost start = *self;
        Self::sort_children(&mut self.children, query);
        let ghost sorted = *self;
        proof {
            lemma_nearest_first(start.children@, query);
            sorted.lemma_keeps_rearranged(start);
        }
        if let Some(index) = Self::position_of_point(&self.children, query) {
            let node = self.children.swap_remove(index);
            removed = Some(node.point);
            if self.children.len() == 0 {
                self.children = Vec::new();
            }
            self.max_distance = None;
            proof {
                lemma_points_among_swap_remove(sorted.children@, index as int);
                self.lemma_preserves_remaining(sorted);
                assert(self.children@ =~= sorted.children@.update(
                    index as int,
                    sorted.children@.last(),
                ).drop_last());
            }
        } else {
            let n: usize = self.children.len();
            let mut i: usize = 0;
            while i < n && removed.is_none()
                invariant
                    i <= n,
                    self.children@.len() == n,
                    sorted.children@.len() == n,
                    old(self).coherent(),
                    start == *old(self),
                    sorted.keeps(start),
                    self.max_distance == if removed is Some {
                        None
                    } else {
                        start.max_distance
                    },
                    no_holder(sorted.children@, query),
                    forall|k: int| 0 <= k < n ==> self.children@[k].point() != query,
                    forall|k: int| i <= k < n ==> self.children@[k] == sorted.children@[k],
                    not_beneath_earlier(sorted.children@, i - 1, query),
                    forall|k: int|
                        0 <= k < i - 1 ==> (#[trigger] self.children@[k]).pruned_from(
                            sorted.children@[k],
                            query,
                            None,
                        ),
                    i > 0 ==> self.children@[i - 1].pruned_from(
                        sorted.children@[i - 1],
                        query,
                        removed,
                    ),
                    removed is None ==> self.keeps(start),
                    removed is Some ==> {
                        &&& i > 0
                        &&& removed == Some(query)
                        &&& self.preserves(start)
                        &&& start.below().contains(query)
                        &&& self.below().subset_of(start.below().remove(query))
                    },
                decreases n - i,
            {
                let ghost entry = *self;
                proof {
                    lemma_points_among_includes(entry.children@, i as int);
                }
                let taken = self.children[i].remove(query);
                if taken.is_some() {
                    self.max_distance = None;
                    removed = taken;
                    proof {
                        let child = entry.children@[i as int];
                        self.lemma_preserves_child(entry, i as int);
                        let grown = self.children@[i as int];
                        lemma_points_among_update(entry.children@, i as int, grown);
                        assert forall|v: P|
                            self.below().count(v) <= start.below().remove(query).count(v) by {
                            assert(self.below().add(child.points()).count(v) == entry.below().add(
                                grown.points(),
                            ).count(v));
                        }
                    }
                } else {
                    proof {
                        self.lemma_keeps_child(entry, i as int);
                    }
                }
                i = i + 1;
            }
            proof {
                if removed is None && start.below().contains(query) {
                    lemma_points_among_owner(self.children@, query);
                }
                let last = i - 1;
                assert forall|k: int| 0 <= k < n implies if not_beneath_earlier(
                    sorted.children@,
                    k,
                    query,
                ) {
                    (#[trigger] self.children()[k]).pruned_from(
                        sorted.children@[k],
                        query,
                        if sorted.children@[k].below().contains(query) {
                            Some(query)
                        } else {
                            None
                        },
                    )
                } else {
                    self.children()[k] == sorted.children@[k]
                } by {
                    if k > last {
                        assert(sorted.children@[last].below().contains(query));
                    }
                }
            }
        }
        removed
    }
}

} // verus!
