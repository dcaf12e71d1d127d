//! The insertion of a point into a subtree, and the promotion that makes room for it.

use super::Cover;
use crate::forest::{
    first_leaf, lemma_points_among_includes, lemma_points_among_one, lemma_points_among_push,
    lemma_points_among_swap_remove, lemma_points_among_update, no_leaf,
};
use crate::metric::{MetricSpace, Point};
use crate::span::SpanFactor;
use vstd::prelude::*;

verus! {

impl<P: Point> Cover<P> {
    /// Whether the child at position `i` lies close enough to `point` to take it in.
    pub open spec fn child_accepts(self, i: int, point: P, span_factor: SpanFactor) -> bool {
        span_factor.reaches(self.children()[i].level(), self.children()[i].point().dist(point))
    }

    /// Whether `i` is the position of the first child that takes `point` in.
    pub open spec fn first_accepting(self, i: int, point: P, span_factor: SpanFactor) -> bool {
        &&& 0 <= i < self.children().len()
        &&& self.child_accepts(i, point, span_factor)
        &&& forall|k: int| 0 <= k < i ==> !self.child_accepts(k, point, span_factor)
    }

    /// Whether no child takes `point` in.
    pub open spec fn none_accepting(self, point: P, span_factor: SpanFactor) -> bool {
        forall|k: int| 0 <= k < self.children().len() ==> !self.child_accepts(k, point, span_factor)
    }

    /// What holds of this node after it took in `point`, which `before` covers.
    ///
    /// The first child that covers the point takes it in. Where no child does, the point
    /// is a new last child one level below this node, and a node of level one is at level
    /// two.
    pub open spec fn took_in(self, before: Self, point: P, span_factor: SpanFactor) -> bool
        decreases before,
    {
        &&& self.point() == before.point()
        &&& self.below() =~= before.below().insert(point)
        &&& self.cached() is None
        &&& (before.coherent() ==> self.coherent())
        &&& (before.positive_levels() ==> self.positive_levels())
        &&& (before.covered(span_factor) ==> self.covered(span_factor))
        &&& forall|i: int|
            before.first_accepting(i, point, span_factor) ==> {
                &&& self.level() == before.level()
                &&& self.children() == before.children().update(i, self.children()[i])
                &&& self.children()[i].took_in(before.children()[i], point, span_factor)
            }
        &&& (before.none_accepting(point, span_factor) ==> {
            &&& self.level() == if before.level() == 1 {
                2nat
            } else {
                before.level()
            }
            &&& self.children().len() == before.children().len() + 1
            &&& self.children().drop_last() == before.children()
            &&& self.children().last().point() == point
            &&& self.children().last().level() == self.level() - 1
            &&& self.children().last().children().len() == 0
            &&& self.children().last().cached() is None
        })
    }

    /// What holds of this node after a node without children was detached from beneath
    /// `before`, whose point is `leaf`.
    ///
    /// The first child without children goes, and the last child takes its place. Where
    /// every child has children, the first child loses a node in the same way.
    pub open spec fn lost_leaf(self, before: Self, leaf: P) -> bool
        decreases before,
    {
        &&& self.point() == before.point()
        &&& self.level() == before.level()
        &&& self.cached() is None
        &&& before.children().len() > 0
        &&& forall|i: int|
            first_leaf(before.children(), i) ==> {
                &&& leaf == before.children()[i].point()
                &&& self.children() == before.children().update(
                    i,
                    before.children().last(),
                ).drop_last()
            }
        &&& (no_leaf(before.children()) ==> {
            &&& self.children() == before.children().update(0, self.children()[0])
            &&& self.children()[0].lost_leaf(before.children()[0], leaf)
        })
    }

    /// What holds of this subtree after `before` was raised by one level.
    ///
    /// A node without children is raised itself. Otherwise a node without children is
    /// detached from beneath, and its point is the root of the subtree, with what is left
    /// of `before` as its only child.
    pub open spec fn promoted_from(self, before: Self) -> bool {
        &&& self.level() == before.level() + 1
        &&& self.points() =~= before.points()
        &&& if before.children().len() == 0 {
            &&& self.point() == before.point()
            &&& self.children().len() == 0
            &&& self.cached() == before.cached()
        } else {
            &&& self.cached() is None
            &&& self.children().len() == 1
            &&& self.children()[0].lost_leaf(before, self.point())
        }
    }

    /// What holds of this subtree after `before` was raised `steps` times, each time
    /// because twice its cover distance did not reach `point`.
    pub open spec fn climbed_from(
        self,
        before: Self,
        point: P,
        span_factor: SpanFactor,
        steps: nat,
    ) -> bool
        decreases steps,
    {
        if steps == 0 {
            self == before
        } else {
            exists|middle: Self|
                {
                    &&& middle.climbed_from(before, point, span_factor, (steps - 1) as nat)
                    &&& !span_factor.reaches_twice(middle.level(), middle.point().dist(point))
                    &&& #[trigger] self.promoted_from(middle)
                }
        }
    }

    /// What holds of the subtree that results from inserting `point` into `before`.
    ///
    /// A point within the cover distance of `before` is taken in beneath it. A point
    /// farther away is the new root, one level above its only child: that is `before`,
    /// raised as often as it takes for twice its cover distance to reach the point. Where
    /// it reaches at once, the new root covers `before` only if the next level's cover
    /// distance reaches the point.
    pub open spec fn grown_from(self, before: Self, point: P, span_factor: SpanFactor) -> bool {
        let near = span_factor.reaches(before.level(), before.point().dist(point));
        let close = span_factor.reaches_twice(before.level(), before.point().dist(point));
        &&& self.points() =~= before.points().insert(point)
        &&& (before.coherent() ==> self.coherent())
        &&& (before.positive_levels() ==> self.positive_levels())
        &&& (near ==> self.took_in(before, point, span_factor))
        &&& (!near ==> {
            &&& self.point() == point
            &&& self.below() =~= before.points()
            &&& self.cached() is None
            &&& self.children().len() == 1
            &&& self.level() == self.children()[0].level() + 1
            &&& self.level() <= span_factor.level_cap() + 1
            &&& span_factor.reaches_twice(
                self.children()[0].level(),
                self.children()[0].point().dist(point),
            )
            &&& exists|steps: nat| #[trigger]
                self.children()[0].climbed_from(before, point, span_factor, steps)
        })
        &&& (!near && close ==> {
            &&& self.level() == before.level() + 1
            &&& self.children()[0] == before
            &&& (self.covered(span_factor) <==> before.covered(span_factor)
                && span_factor.reaches(before.level() + 1, point.dist(before.point())))
        })
    }
}

impl<P: Point> Cover<P> {
    /// Inserts `point` beneath this node, which covers it, and forgets the remembered
    /// distances on the way down.
    ///
    /// The first child that covers the point takes it in. Where no child does, the point
    /// becomes a new child one level below this node; a node of level one is raised to
    /// level two first.
    fn insert_(&mut self, point: P, span_factor: SpanFactor)
        requires
            span_factor.wf(),
            old(self).coherent(),
            old(self).positive_levels(),
            span_factor.reaches(old(self).level(), old(self).point().dist(point)),
        ensures
            final(self).took_in(*old(self), point, span_factor),
            final(self).coherent(),
            final(self).positive_levels(),
        decreases old(self).points().len(),
    {
        self.max_distance = None;
        let n: usize = self.children.len();
        let mut i: usize = 0;
        let mut done: bool = false;
        while i < n && !done
            invariant
                i <= n,
                span_factor.wf(),
                self.max_distance is None,
                self.point == old(self).point,
                self.level == old(self).level,
                old(self).children@.len() == n,
                old(self).coherent(),
                old(self).positive_levels(),
                !done ==> self.children@ == old(self).children@,
                !done ==> forall|k: int|
                    0 <= k < i ==> !old(self).child_accepts(k, point, span_factor),
                done ==> {
                    &&& i < n
                    &&& old(self).first_accepting(i as int, point, span_factor)
                    &&& self.children@ == old(self).children@.update(
                        i as int,
                        self.children@[i as int],
                    )
                    &&& self.children@[i as int].took_in(
                        old(self).children@[i as int],
                        point,
                        span_factor,
                    )
                    &&& self.children@[i as int].coherent()
                    &&& self.children@[i as int].positive_levels()
                },
            decreases n - i + (if done { 0nat } else { 1nat }),
        {
            let gap: u64 = self.children[i].point.distance(point);
            if span_factor.covers(self.children[i].level, gap) {
                proof {
                    lemma_points_among_includes(self.children@, i as int);
                }
                self.children[i].insert_(point, span_factor);
                done = true;
            } else {
                i = i + 1;
            }
        }
        if !done {
            if self.level == 1 {
                self.level += 1;
            }
            let new_cover = Cover::new(point, self.level - 1);
            self.add_child(new_cover);
            proof {
                let before = old(self).children@;
                lemma_points_among_push(before, new_cover);
                assert(self.children@.drop_last() =~= before);
                assert forall|k: int| 0 <= k < self.children().len() implies (
                #[trigger] self.children()[k]).coherent() by {
                    if k < before.len() {
                        assert(old(self).children()[k].coherent());
                    }
                }
                assert forall|k: int| 0 <= k < self.children().len() implies (
                #[trigger] self.children()[k]).positive_levels() by {
                    if k < before.len() {
                        assert(old(self).children()[k].positive_levels());
                    }
                }
                if old(self).covered(span_factor) {
                    assert forall|k: int| 0 <= k < self.children@.len() implies {
                        &&& span_factor.reaches(
                            self.level(),
                            self.point().dist((#[trigger] self.children()[k]).point()),
                        )
                        &&& self.children()[k].covered(span_factor)
                    } by {
                        if k < before.len() {
                            let d = self.point().dist(self.children()[k].point());
                            if old(self).level() == 1 {
                                span_factor.lemma_reaches_next_level(1, d);
                            }
                        } else {
                            let d = self.point().dist(point);
                            if old(self).level() == 1 {
                                span_factor.lemma_reaches_next_level(1, d);
                            }
                        }
                    }
                }
            }
        } else {
            proof {
                let before = old(self).children@;
                let at = i as int;
                lemma_points_among_update(before, at, self.children@[at]);
                assert forall|v: P|
                    self.below().count(v) == old(self).below().insert(point).count(v) by {
                    assert(self.below().add(before[at].points()).count(v) == old(self).below().add(
                        self.children@[at].points(),
                    ).count(v));
                }
                assert forall|k: int| 0 <= k < self.children().len() implies (
                #[trigger] self.children()[k]).coherent() by {
                    assert(old(self).children()[k].coherent());
                }
                assert forall|k: int| 0 <= k < self.children().len() implies (
                #[trigger] self.children()[k]).positive_levels() by {
                    assert(old(self).children()[k].positive_levels());
                }
            }
        }
    }

    /// The position of the first node without children, if there is one.
    fn position_of_leaf(children: &Vec<Cover<P>>) -> (position: Option<usize>)
        ensures
            match position {
                Some(i) => {
                    &&& i < children@.len()
                    &&& children@[i as int].children().len() == 0
                    &&& forall|k: int| 0 <= k < i ==> children@[k].children().len() > 0
                },
                None => forall|k: int|
                    0 <= k < children@.len() ==> children@[k].children().len() > 0,
            },
    {
        let mut i: usize = 0;
        while i < children.len()
            invariant
                i <= children@.len(),
                forall|k: int| 0 <= k < i ==> children@[k].children().len() > 0,
            decreases children@.len() - i,
        {
            if children[i].children.is_empty() {
                return Some(i);
            }
            i = i + 1;
        }
        None
    }

    /// Detaches a node without children from beneath this node and returns it: the first
    /// such child, or failing that, one found in the same way beneath the first child.
    /// The remembered distances on the way down are forgotten.
    fn remove_leaf(&mut self) -> (leaf: Cover<P>)
        requires
            old(self).children().len() > 0,
            old(self).coherent(),
        ensures
            leaf.children().len() == 0,
            leaf.coherent(),
            old(self).positive_levels() ==> leaf.positive_levels(),
            old(self).below() =~= final(self).below().insert(leaf.point()),
            final(self).preserves(*old(self)),
            final(self).coherent(),
            final(self).lost_leaf(*old(self), leaf.point()),
        decreases old(self).points().len(),
    {
        self.max_distance = None;
        match Self::position_of_leaf(&self.children) {
            Some(index) => {
                let leaf = self.children.swap_remove(index);
                proof {
                    let before = old(self).children@;
                    lemma_points_among_swap_remove(before, index as int);
                }
                leaf
            },
            None => {
                let ghost entry = *self;
                proof {
                    lemma_points_among_includes(entry.children@, 0);
                }
                let leaf = self.children[0].remove_leaf();
                proof {
                    let before = old(self).children@;
                    let grown = self.children@[0];
                    self.lemma_preserves_child(entry, 0);
                    lemma_points_among_update(before, 0, grown);
                    assert forall|v: P|
                        old(self).below().count(v) == self.below().insert(leaf.point()).count(
                            v,
                        ) by {
                        assert(self.below().add(before[0].points()).count(v) == old(
                            self,
                        ).below().add(grown.points()).count(v));
                    }
                }
                leaf
            },
        }
    }

    /// Raises this subtree by one level. A node without children is raised itself.
    /// Otherwise a node without children is detached from beneath, and becomes the root of
    /// the subtree with the old root as its only child.
    fn promote_leaf(&mut self)
        requires
            old(self).coherent(),
            old(self).positive_levels(),
            old(self).level() < usize::MAX,
        ensures
            final(self).promoted_from(*old(self)),
            final(self).coherent(),
            final(self).positive_levels(),
    {
        if self.children.is_empty() {
            self.level += 1;
        } else {
            let mut leaf = self.remove_leaf();
            let ghost rest = *self;
            std::mem::swap(self, &mut leaf);
            self.level = leaf.level + 1;
            self.max_distance = None;
            self.add_child(leaf);
            proof {
                assert(self.children@ =~= seq![rest]);
                lemma_points_among_one(rest);
            }
        }
    }

    /// Inserts `point` into this subtree and returns the subtree that results, whose root
    /// is the new point where this node did not cover it.
    ///
    /// A point within the cover distance goes beneath this node. For a point farther away
    /// the subtree is raised, level by level, until twice its cover distance reaches the
    /// point, and then becomes the only child of a new root that holds the point.
    pub(crate) fn insert(self, point: P, span_factor: SpanFactor) -> (root: Cover<P>)
        requires
            span_factor.wf(),
            self.coherent(),
            self.positive_levels(),
        ensures
            root.grown_from(self, point, span_factor),
            root.coherent(),
            root.positive_levels(),
    {
        let mut node = self;
        let gap: u64 = node.point.distance(point);
        if !span_factor.covers(node.level, gap) {
            let ghost start = self;
            let ghost steps: nat = 0;
            proof {
                if node.level() >= span_factor.level_cap() {
                    span_factor.lemma_reaches_from_cap(node.level(), gap as nat);
                }
            }
            while !span_factor.covers_twice(node.level, node.point.distance(point))
                invariant
                    span_factor.wf(),
                    node.coherent(),
                    node.positive_levels(),
                    node.points() =~= start.points(),
                    node.level() <= span_factor.level_cap(),
                    node.climbed_from(start, point, span_factor, steps),
                    node == start || !span_factor.reaches_twice(
                        start.level(),
                        start.point().dist(point),
                    ),
                decreases span_factor.level_cap() - node.level(),
            {
                proof {
                    let d = node.point().dist(point);
                    if node.level() >= span_factor.level_cap() {
                        span_factor.lemma_reaches_from_cap(node.level(), d);
                        span_factor.lemma_reaches_twice(node.level(), d);
                    }
                }
                node.promote_leaf();
                proof {
                    steps = steps + 1;
                }
            }
            let mut root = Cover::new(point, node.level + 1);
            root.add_child(node);
            proof {
                lemma_points_among_one(node);
            }
            return root;
        }
        node.insert_(point, span_factor);
        node
    }
}

} // verus!
