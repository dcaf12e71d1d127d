//! The nodes of a cover tree.

mod copying;
mod insertion;
mod keeping;
mod removal;
mod search;

use crate::forest::lemma_points_among_prefix;
use crate::metric::{MetricSpace, Point};
use crate::span::SpanFactor;
use vstd::multiset::Multiset;
use vstd::prelude::*;
use vstd::seq_lib::{group_to_multiset_ensures, lemma_multiset_commutative};

verus! {

/// A node in a cover tree containing a point of type P, with the subtree beneath it.
#[derive(Debug, PartialEq)]
pub struct Cover<P: Point> {
    /// The point stored in the `Cover`.
    point: P,
    /// The children of the `Cover`, in no particular order.
    children: Vec<Cover<P>>,
    /// The level of the `Cover`.
    level: usize,
    /// The maximum distance from the point to any of its descendents, once it was asked for.
    max_distance: Option<u64>,
}

/// The points held by a sequence of nodes and all their descendents.
pub open spec fn points_among<P: Point>(nodes: Seq<Cover<P>>) -> Multiset<P>
    decreases nodes,
{
    if nodes.len() == 0 {
        Multiset::empty()
    } else {
        points_among(nodes.drop_last()).add(nodes.last().points())
    }
}

/// The nearer to `query` of `point` and the nearest point yet, which stays unless `point`
/// is strictly nearer.
pub open spec fn nearer<P: Point>(point: P, query: P, nearest_yet: Option<P>) -> P {
    match nearest_yet {
        Some(y) => if point.dist(query) < y.dist(query) {
            point
        } else {
            y
        },
        None => point,
    }
}

impl<P: Point> Cover<P> {
    /// The point stored in this node.
    pub closed spec fn point(self) -> P {
        self.point
    }

    /// The level of this node.
    pub closed spec fn level(self) -> nat {
        self.level as nat
    }

    /// The direct children of this node, in storage order.
    pub closed spec fn children(self) -> Seq<Cover<P>> {
        self.children@
    }

    /// The remembered maximum distance to a descendent, if one is remembered.
    pub closed spec fn cached(self) -> Option<nat> {
        match self.max_distance {
            Some(d) => Some(d as nat),
            None => None,
        }
    }

    /// The points of all descendents of this node.
    pub open spec fn below(self) -> Multiset<P>
        decreases self,
    {
        points_among(self.children())
    }

    /// The points of this node and of all its descendents.
    pub open spec fn points(self) -> Multiset<P>
        decreases self,
    {
        points_among(self.children()).insert(self.point())
    }

    /// Whether `d` is the greatest distance from this node's point to a descendent's, or zero
    /// where there is no descendent.
    pub open spec fn is_max_distance(self, d: nat) -> bool {
        &&& forall|p: P| #[trigger] self.below().contains(p) ==> self.point().dist(p) <= d
        &&& (d == 0 || exists|p: P|
            #[trigger] self.below().contains(p) && self.point().dist(p) == d)
    }

    /// Cache coherency: wherever a maximum distance is remembered in this subtree, it is the
    /// true one.
    pub open spec fn coherent(self) -> bool
        decreases self,
    {
        &&& (self.cached() matches Some(d) ==> self.is_max_distance(d))
        &&& forall|i: int|
            0 <= i < self.children().len() ==> (#[trigger] self.children()[i]).coherent()
    }

    /// Every node of this subtree has a level of at least one.
    pub open spec fn positive_levels(self) -> bool
        decreases self,
    {
        &&& self.level() >= 1
        &&& forall|i: int|
            0 <= i < self.children().len() ==> (#[trigger] self.children()[i]).positive_levels()
    }

    /// The covering invariant: every child in this subtree lies within the cover distance
    /// of its parent.
    pub open spec fn covered(self, span_factor: SpanFactor) -> bool
        decreases self,
    {
        forall|i: int|
            0 <= i < self.children().len() ==> {
                &&& span_factor.reaches(
                    self.level(),
                    self.point().dist((#[trigger] self.children()[i]).point()),
                )
                &&& self.children()[i].covered(span_factor)
            }
    }

    /// This node has the point and the level of `before`, and is coherent, of
    /// positive levels and covered wherever `before` is.
    pub open spec fn preserves(self, before: Self) -> bool {
        &&& self.point() == before.point()
        &&& self.level() == before.level()
        &&& (before.coherent() ==> self.coherent())
        &&& (before.positive_levels() ==> self.positive_levels())
        &&& forall|span_factor: SpanFactor|
            before.covered(span_factor) ==> #[trigger] self.covered(span_factor)
    }

    /// This node holds what `before` holds: the same point, level and descendents' points,
    /// with the invariants of `before`.
    pub open spec fn keeps(self, before: Self) -> bool {
        &&& self.preserves(before)
        &&& self.below() =~= before.below()
    }

    /// Constructs a new `Cover` with the given point and level, and no children.
    pub fn new(point: P, level: usize) -> (cover: Cover<P>)
        ensures
            cover.point() == point,
            cover.level() == level,
            cover.children() == Seq::<Cover<P>>::empty(),
            cover.cached() is None,
    {
        Cover { point, children: Vec::new(), level, max_distance: None }
    }
}

impl<P: Point> Cover<P> {
    /// Returns the points of all of the `Cover`s under this one.
    fn descendents(&self) -> (found: Vec<P>)
        ensures
            found@.to_multiset() =~= self.below(),
        decreases self,
    {
        let mut found: Vec<P> = Vec::new();
        let mut i: usize = 0;
        proof {
            broadcast use group_to_multiset_ensures;
        }
        while i < self.children.len()
            invariant
                i <= self.children@.len(),
                found@.to_multiset() =~= points_among(self.children@.subrange(0, i as int)),
            decreases self.children@.len() - i,
        {
            let child = &self.children[i];
            let ghost before = found@;
            found.push(child.point);
            let mut deeper = child.descendents();
            let ghost under = deeper@;
            found.append(&mut deeper);
            proof {
                broadcast use group_to_multiset_ensures;

                lemma_multiset_commutative(before.push(child.point), under);
                lemma_points_among_prefix(self.children@, i as int);
            }
            i = i + 1;
        }
        proof {
            assert(self.children@.subrange(0, i as int) =~= self.children@);
        }
        found
    }

    /// Calculates the maximum distance between the `Cover`s point and any of
    /// its descendents' points. Ignores any cached value.
    fn max_distance_(&self) -> (dist: u64)
        ensures
            self.is_max_distance(dist as nat),
    {
        let found = self.descendents();
        let mut dist: u64 = 0;
        let mut k: usize = 0;
        while k < found.len()
            invariant
                k <= found@.len(),
                forall|j: int| 0 <= j < k ==> self.point.dist(#[trigger] found@[j]) <= dist,
                dist == 0 || exists|j: int| 0 <= j < k && self.point.dist(found@[j]) == dist,
            decreases found@.len() - k,
        {
            let d: u64 = self.point.distance(found[k]);
            if d > dist {
                dist = d;
            }
            k = k + 1;
        }
        proof {
            broadcast use group_to_multiset_ensures;

            if dist != 0 {
                let j = choose|j: int| 0 <= j < k && self.point.dist(found@[j]) == dist;
                assert(self.below().contains(found@[j]));
            }
        }
        dist
    }

    /// Returns the maximum distance between the `Cover`s point and any of its
    /// descendents' points, and remembers it.
    fn max_distance(&mut self) -> (dist: u64)
        requires
            old(self).coherent(),
        ensures
            final(self).coherent(),
            final(self).is_max_distance(dist as nat),
            final(self).cached() == Some(dist as nat),
            final(self).children() == old(self).children(),
            final(self).keeps(*old(self)),
    {
        if let Some(dist) = self.max_distance {
            dist
        } else {
            let dist: u64 = self.max_distance_();
            let ghost before = *self;
            self.max_distance = Some(dist);
            proof {
                assert(self.below() =~= before.below());
            }
            dist
        }
    }

    /// Adds a new child `Cover` to this node.
    fn add_child(&mut self, cover: Cover<P>)
        ensures
            final(self).children() == old(self).children().push(cover),
            final(self).point() == old(self).point(),
            final(self).level() == old(self).level(),
            final(self).cached() == old(self).cached(),
    {
        self.children.push(cover);
    }

    /// The greatest distance to a descendent depends on the point and the descendents' points
    /// alone.
    pub(crate) proof fn lemma_max_distance_carries(self, before: Self, d: nat)
        requires
            self.point() == before.point(),
            self.below() =~= before.below(),
            before.is_max_distance(d),
        ensures
            self.is_max_distance(d),
    {
        if d != 0 {
            let p = choose|p: P| #[trigger]
                before.below().contains(p) && before.point().dist(p) == d;
        }
    }

    /// Checks the covering invariant on this subtree, node by node.
    pub fn is_covered(&self, span_factor: SpanFactor) -> (covered: bool)
        ensures
            covered == self.covered(span_factor),
        decreases self,
    {
        let mut i: usize = 0;
        while i < self.children.len()
            invariant
                i <= self.children@.len(),
                forall|k: int|
                    0 <= k < i ==> {
                        &&& span_factor.reaches(
                            self.level(),
                            self.point().dist((#[trigger] self.children()[k]).point()),
                        )
                        &&& self.children()[k].covered(span_factor)
                    },
            decreases self.children@.len() - i,
        {
            let gap: u64 = self.point.distance(self.children[i].point);
            let ghost child = self.children()[i as int];
            if !span_factor.covers(self.level, gap) {
                assert(!span_factor.reaches(self.level(), self.point().dist(child.point())));
                return false;
            }
            if !self.children[i].is_covered(span_factor) {
                assert(!child.covered(span_factor));
                return false;
            }
            i = i + 1;
        }
        true
    }

    /// Checks cache coherency on this subtree: computes the maximum distance afresh
    /// wherever one is remembered, and compares.
    pub fn is_coherent(&self) -> (coherent: bool)
        ensures
            coherent == self.coherent(),
        decreases self,
    {
        if let Some(remembered) = self.max_distance {
            let fresh: u64 = self.max_distance_();
            if fresh != remembered {
                return false;
            }
        }
        let mut i: usize = 0;
        while i < self.children.len()
            invariant
                i <= self.children@.len(),
                self.cached() matches Some(d) ==> self.is_max_distance(d),
                forall|k: int| 0 <= k < i ==> (#[trigger] self.children()[k]).coherent(),
            decreases self.children@.len() - i,
        {
            let ghost child = self.children()[i as int];
            if !self.children[i].is_coherent() {
                assert(!child.coherent());
                return false;
            }
            i = i + 1;
        }
        true
    }
}

} // verus!
