//! How the invariants of a node carry over when its children change.

use super::Cover;
use crate::forest::{
    lemma_permutation_source, lemma_points_among_permutation, lemma_points_among_update_same,
};
use crate::metric::{MetricSpace, Point};
use crate::span::SpanFactor;
use vstd::prelude::*;

verus! {

impl<P: Point> Cover<P> {
    /// A node whose children were rearranged holds what it held.
    pub(super) proof fn lemma_keeps_rearranged(self, before: Self)
        requires
            self.point == before.point,
            self.level == before.level,
            self.max_distance == before.max_distance,
            self.children@.to_multiset() =~= before.children@.to_multiset(),
        ensures
            self.keeps(before),
    {
        lemma_points_among_permutation(before.children@, self.children@);
        assert forall|span_factor: SpanFactor| before.covered(span_factor) implies self.covered(
            span_factor,
        ) by {
            assert forall|i: int| 0 <= i < self.children@.len() implies {
                &&& span_factor.reaches(
                    self.level(),
                    self.point().dist((#[trigger] self.children()[i]).point()),
                )
                &&& self.children()[i].covered(span_factor)
            } by {
                let j = lemma_permutation_source(before.children@, self.children@, i);
                assert(before.children()[j].covered(span_factor));
            }
        }
        if before.coherent() {
            assert forall|i: int| 0 <= i < self.children().len() implies (
            #[trigger] self.children()[i]).coherent() by {
                let j = lemma_permutation_source(before.children@, self.children@, i);
                assert(before.children()[j].coherent());
            }
            if let Some(d) = before.cached() {
                self.lemma_max_distance_carries(before, d);
            }
        }
        if before.positive_levels() {
            assert forall|i: int| 0 <= i < self.children().len() implies (
            #[trigger] self.children()[i]).positive_levels() by {
                lemma_permutation_source(before.children@, self.children@, i);
            }
        }
    }

    /// A node one of whose children was exchanged for a node that holds the same holds
    /// what it held.
    pub(super) proof fn lemma_keeps_child(self, before: Self, i: int)
        requires
            self.point == before.point,
            self.level == before.level,
            self.max_distance == before.max_distance,
            0 <= i < before.children@.len(),
            self.children@.len() == before.children@.len(),
            self.children@ == before.children@.update(i, self.children@[i]),
            self.children@[i].keeps(before.children@[i]),
        ensures
            self.keeps(before),
    {
        lemma_points_among_update_same(before.children@, i, self.children@[i]);
        assert forall|span_factor: SpanFactor| before.covered(span_factor) implies self.covered(
            span_factor,
        ) by {
            assert forall|k: int| 0 <= k < self.children@.len() implies {
                &&& span_factor.reaches(
                    self.level(),
                    self.point().dist((#[trigger] self.children()[k]).point()),
                )
                &&& self.children()[k].covered(span_factor)
            } by {
                assert(before.children()[k].covered(span_factor));
            }
        }
        if before.coherent() {
            if let Some(d) = before.cached() {
                self.lemma_max_distance_carries(before, d);
            }
        }
    }

    /// A node that lost its remembered distance and whose children all stood under `before`
    /// carries the invariants of `before`.
    pub(super) proof fn lemma_preserves_remaining(self, before: Self)
        requires
            self.point == before.point,
            self.level == before.level,
            self.max_distance is None,
            forall|k: int|
                0 <= k < self.children@.len() ==> exists|j: int|
                    0 <= j < before.children@.len() && before.children@[j]
                        == #[trigger] self.children@[k],
        ensures
            self.preserves(before),
    {
        assert forall|span_factor: SpanFactor| before.covered(span_factor) implies self.covered(
            span_factor,
        ) by {
            assert forall|k: int| 0 <= k < self.children@.len() implies {
                &&& span_factor.reaches(
                    self.level(),
                    self.point().dist((#[trigger] self.children()[k]).point()),
                )
                &&& self.children()[k].covered(span_factor)
            } by {
                let j = choose|j: int|
                    0 <= j < before.children@.len() && before.children@[j] == self.children@[k];
                assert(before.children()[j].covered(span_factor));
            }
        }
        if before.coherent() {
            assert forall|k: int| 0 <= k < self.children().len() implies (
            #[trigger] self.children()[k]).coherent() by {
                let j = choose|j: int|
                    0 <= j < before.children@.len() && before.children@[j] == self.children@[k];
                assert(before.children()[j].coherent());
            }
        }
        if before.positive_levels() {
            assert forall|k: int| 0 <= k < self.children().len() implies (
            #[trigger] self.children()[k]).positive_levels() by {
                let j = choose|j: int|
                    0 <= j < before.children@.len() && before.children@[j] == self.children@[k];
                assert(before.children()[j].positive_levels());
            }
        }
    }

    /// A node that lost its remembered distance and one of whose children was exchanged for
    /// a node with the same point and invariants carries the invariants of `before`.
    pub(super) proof fn lemma_preserves_child(self, before: Self, i: int)
        requires
            self.point == before.point,
            self.level == before.level,
            self.max_distance is None,
            0 <= i < before.children@.len(),
            self.children@.len() == before.children@.len(),
            self.children@ == before.children@.update(i, self.children@[i]),
            self.children@[i].preserves(before.children@[i]),
        ensures
            self.preserves(before),
    {
        assert forall|span_factor: SpanFactor| before.covered(span_factor) implies self.covered(
            span_factor,
        ) by {
            assert forall|k: int| 0 <= k < self.children@.len() implies {
                &&& span_factor.reaches(
                    self.level(),
                    self.point().dist((#[trigger] self.children()[k]).point()),
                )
                &&& self.children()[k].covered(span_factor)
            } by {
                assert(before.children()[k].covered(span_factor));
            }
        }
    }
}

} // verus!
