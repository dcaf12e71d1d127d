//! The search for the nearest neighbour of a point.

use super::{nearer, points_among, Cover};
use crate::forest::{
    lemma_nearest_first, lemma_permutation_source, lemma_points_among_includes,
    lemma_points_among_prefix, lemma_slot_found, nearest_first,
};
use crate::metric::{MetricSpace, Point};
use vstd::prelude::*;

verus! {

impl<P: Point> Cover<P> {
    /// The nearest point that a scan holds after it came to this node with `nearest_yet`
    /// and went through the node's own point and then, nearest child first, through the
    /// first `k` children with all beneath them. A point replaces the nearest point yet
    /// only if it is strictly nearer.
    pub open spec fn nearest_after(self, query: P, nearest_yet: Option<P>, k: nat) -> P
        decreases self, k,
        via Self::nearest_after_decreases
    {
        if k == 0 || k > self.children().len() {
            nearer(self.point(), query, nearest_yet)
        } else {
            let child = nearest_first(self.children(), query)[k - 1];
            child.nearest_after(
                query,
                Some(self.nearest_after(query, nearest_yet, (k - 1) as nat)),
                child.children().len(),
            )
        }
    }

    #[via_fn]
    proof fn nearest_after_decreases(self, query: P, nearest_yet: Option<P>, k: nat) {
        if !(k == 0 || k > self.children().len()) {
            let sorted = nearest_first(self.children(), query);
            lemma_nearest_first(self.children(), query);
            lemma_permutation_source(self.children(), sorted, k - 1);
        }
    }

    /// The nearest point that a scan of this whole subtree holds at its end: the first
    /// point in the order of the scan that no point of the subtree is nearer than, or
    /// `nearest_yet` if no point of the subtree is strictly nearer.
    pub open spec fn nearest_in(self, query: P, nearest_yet: Option<P>) -> P {
        self.nearest_after(query, nearest_yet, self.children().len())
    }

    /// What holds of this node after a search for `query` came to `before` with
    /// `nearest_yet`.
    ///
    /// The children are sorted by their distance to `query`, nearest first, and each
    /// remembers its maximum distance. The search went beneath a child unless that
    /// distance showed that no point there could be nearer than the nearest point yet.
    pub open spec fn searched_from(self, before: Self, query: P, nearest_yet: Option<P>) -> bool
        decreases before, 0nat,
        via Self::searched_from_decreases
    {
        let sorted = nearest_first(before.children(), query);
        &&& self.point() == before.point()
        &&& self.level() == before.level()
        &&& self.children().len() == sorted.len()
        &&& forall|k: int|
            0 <= k < sorted.len() ==> (#[trigger] self.children()[k]).passed_from(
                sorted[k],
                query,
                before.nearest_after(query, nearest_yet, k as nat),
            )
    }

    #[via_fn]
    proof fn searched_from_decreases(self, before: Self, query: P, nearest_yet: Option<P>) {
        let sorted = nearest_first(before.children(), query);
        lemma_nearest_first(before.children(), query);
        assert forall|k: int| 0 <= k < sorted.len() implies decreases_to!(before => sorted[k]) by {
            lemma_permutation_source(before.children(), sorted, k);
        }
    }

    /// What holds of this node after a search for `query` came by its parent with `held`
    /// as the nearest point yet, when the node was `before`.
    ///
    /// The node remembers its maximum distance. The search went beneath it if the
    /// distance from `held` to the query and that maximum distance together exceed the
    /// distance from the query to the node; else the node is otherwise as it was.
    pub open spec fn passed_from(self, before: Self, query: P, held: P) -> bool
        decreases before, 1nat,
    {
        &&& self.cached() matches Some(reach) && before.is_max_distance(reach)
        &&& if held.dist(query) + self.cached()->Some_0 > query.dist(before.point()) {
            self.searched_from(before, query, Some(held))
        } else {
            &&& self.point() == before.point()
            &&& self.level() == before.level()
            &&& self.children() == before.children()
        }
    }
}

impl<P: Point> Cover<P> {
    /// Sorts nodes by the distance of their points to `query`, nearest first. Nodes at the
    /// same distance keep their order.
    pub(super) fn sort_children(children: &mut Vec<Cover<P>>, query: P)
        ensures
            final(children)@ == nearest_first(old(children)@, query),
    {
        let n: usize = children.len();
        let mut i: usize = 0;
        while i < n
            invariant
                i <= n,
                children@.len() == n,
                old(children)@.len() == n,
                children@.subrange(0, i as int) == nearest_first(
                    old(children)@.subrange(0, i as int),
                    query,
                ),
                children@.subrange(i as int, n as int) == old(children)@.subrange(
                    i as int,
                    n as int,
                ),
            decreases n - i,
        {
            let ghost entry = children@;
            let ghost sorted = entry.subrange(0, i as int);
            proof {
                lemma_nearest_first(old(children)@.subrange(0, i as int), query);
                assert(entry[i as int] == entry.subrange(i as int, n as int)[0]);
            }
            let key: u64 = children[i].point.distance(query);
            let mut j: usize = 0;
            while j < i && children[j].point.distance(query) <= key
                invariant
                    j <= i,
                    i < n,
                    children@ == entry,
                    entry.len() == n,
                    forall|k: int| 0 <= k < j ==> entry[k].point().dist(query) <= key,
                decreases i - j,
            {
                j = j + 1;
            }
            proof {
                assert forall|k: int| j <= k < sorted.len() implies sorted[k].point().dist(query)
                    > key by {
                    assert(sorted[j as int] == entry[j as int]);
                }
                lemma_slot_found(sorted, query, key as nat, j as int);
            }
            if j < i {
                let node = children.remove(i);
                children.insert(j, node);
            }
            proof {
                let taken = old(children)@.subrange(0, i + 1);
                assert(taken.drop_last() =~= old(children)@.subrange(0, i as int));
                assert forall|m: int| i < m < n implies #[trigger] children@[m] == old(
                    children,
                )@[m] by {
                    assert(entry[m] == entry.subrange(i as int, n as int)[m - i]);
                }
            }
            i = i + 1;
        }
        proof {
            assert(old(children)@.subrange(0, n as int) =~= old(children)@);
        }
    }

    /// Returns the point nearest to `query` among `nearest_yet` and the points of this
    /// subtree. A point of the subtree replaces `nearest_yet` only if it is strictly nearer.
    ///
    /// Children are visited nearest first, and a child is passed over when the triangle
    /// inequality shows that nothing beneath it can be nearer than the best point so far.
    pub fn find_nearest(&mut self, query: P, nearest_yet: Option<P>) -> (nearest: P)
        requires
            old(self).coherent(),
        ensures
            nearest == old(self).nearest_in(query, nearest_yet),
            nearest_yet == Some(nearest) || old(self).points().contains(nearest),
            forall|p: P| #[trigger]
                old(self).points().contains(p) ==> nearest.dist(query) <= p.dist(query),
            nearest_yet matches Some(y) ==> nearest == y || nearest.dist(query) < y.dist(query),
            final(self).searched_from(*old(self), query, nearest_yet),
            final(self).cached() == old(self).cached(),
            final(self).keeps(*old(self)),
            final(self).coherent(),
        decreases old(self).points().len(),
    {
        let mut nearest: P = match nearest_yet {
            None => self.point,
            Some(y) => if self.point.distance(query) < y.distance(query) {
                self.point
            } else {
                y
            },
        };
        let ghost start = *self;
        Self::sort_children(&mut self.children, query);
        let ghost sorted = self.children@;
        proof {
            lemma_nearest_first(start.children@, query);
            self.lemma_keeps_rearranged(start);
        }
        let n: usize = self.children.len();
        let mut i: usize = 0;
        while i < n
            invariant
                i <= n,
                self.children@.len() == n,
                old(self).children@.len() == n,
                old(self).coherent(),
                sorted == nearest_first(old(self).children(), query),
                self.max_distance == old(self).max_distance,
                self.keeps(*old(self)),
                nearest == old(self).nearest_after(query, nearest_yet, i as nat),
                forall|k: int| i <= k < n ==> self.children@[k] == sorted[k],
                forall|k: int|
                    0 <= k < i ==> (#[trigger] self.children@[k]).passed_from(
                        sorted[k],
                        query,
                        old(self).nearest_after(query, nearest_yet, k as nat),
                    ),
                nearest_yet == Some(nearest) || nearest == self.point || points_among(
                    self.children@.subrange(0, i as int),
                ).contains(nearest),
                nearest.dist(query) <= self.point.dist(query),
                forall|p: P| #[trigger]
                    points_among(self.children@.subrange(0, i as int)).contains(p)
                        ==> nearest.dist(query) <= p.dist(query),
                nearest_yet matches Some(y) ==> nearest == y || nearest.dist(query) < y.dist(
                    query,
                ),
            decreases n - i,
        {
            let ghost entry = *self;
            let ghost seen = points_among(self.children@.subrange(0, i as int));
            let ghost held = nearest;
            let reach: u64 = self.children[i].max_distance();
            let ghost asked = *self;
            proof {
                asked.lemma_keeps_child(entry, i as int);
                lemma_points_among_includes(asked.children@, i as int);
            }
            let gap: u64 = query.distance(self.children[i].point);
            let best: u64 = nearest.distance(query);
            if best as u128 + reach as u128 > gap as u128 {
                nearest = self.children[i].find_nearest(query, Some(nearest));
                proof {
                    self.lemma_keeps_child(asked, i as int);
                    asked.children@[i as int].lemma_nearest_after_alike(
                        sorted[i as int],
                        query,
                        Some(held),
                        sorted[i as int].children().len(),
                    );
                    self.children@[i as int].lemma_searched_from_alike(
                        asked.children@[i as int],
                        sorted[i as int],
                        query,
                        Some(held),
                    );
                }
            } else {
                proof {
                    let child = self.children@[i as int];
                    assert forall|p: P| #[trigger] child.points().contains(p) implies best
                        <= p.dist(query) by {
                        P::lemma_dist_symmetric(p, query);
                        P::lemma_dist_symmetric(p, child.point());
                        P::lemma_dist_triangle(query, p, child.point());
                        if p != child.point() {
                            assert(child.below().contains(p));
                        }
                    }
                    child.lemma_scan_stays(query, held, child.children().len());
                    child.lemma_nearest_after_alike(
                        sorted[i as int],
                        query,
                        Some(held),
                        sorted[i as int].children().len(),
                    );
                }
            }
            proof {
                let child = asked.children@[i as int];
                assert(self.children@.subrange(0, i as int) =~= entry.children@.subrange(
                    0,
                    i as int,
                ));
                lemma_points_among_prefix(self.children@, i as int);
                assert forall|p: P| #[trigger]
                    points_among(self.children@.subrange(0, i + 1)).contains(
                        p,
                    ) implies nearest.dist(query) <= p.dist(query) by {
                    if !seen.contains(p) {
                        assert(child.points().contains(p));
                    }
                }
            }
            i = i + 1;
        }
        proof {
            assert(self.children@.subrange(0, n as int) =~= self.children@);
            assert forall|p: P| #[trigger] old(self).points().contains(p) implies nearest.dist(
                query,
            ) <= p.dist(query) by {
                if p != self.point {
                    assert(self.below().contains(p));
                }
            }
        }
        nearest
    }

    /// A scan gives the same for nodes with the same point and the same children.
    proof fn lemma_nearest_after_alike(self, other: Self, query: P, nearest_yet: Option<P>, k: nat)
        requires
            self.point() == other.point(),
            self.children() == other.children(),
        ensures
            self.nearest_after(query, nearest_yet, k) == other.nearest_after(query, nearest_yet, k),
        decreases k,
    {
        if !(k == 0 || k > self.children().len()) {
            self.lemma_nearest_after_alike(other, query, nearest_yet, (k - 1) as nat);
        }
    }

    /// What holds after a search of a node holds after a search of any node with the same
    /// point, level and children.
    proof fn lemma_searched_from_alike(
        self,
        before: Self,
        other: Self,
        query: P,
        nearest_yet: Option<P>,
    )
        requires
            self.searched_from(before, query, nearest_yet),
            before.point() == other.point(),
            before.level() == other.level(),
            before.children() == other.children(),
        ensures
            self.searched_from(other, query, nearest_yet),
    {
        let sorted = nearest_first(before.children(), query);
        assert forall|k: int| 0 <= k < sorted.len() implies (
        #[trigger] self.children()[k]).passed_from(
            sorted[k],
            query,
            other.nearest_after(query, nearest_yet, k as nat),
        ) by {
            before.lemma_nearest_after_alike(other, query, nearest_yet, k as nat);
        }
    }

    /// A scan that comes to a subtree with a point that no point of the subtree is nearer
    /// than leaves with that point.
    proof fn lemma_scan_stays(self, query: P, held: P, k: nat)
        requires
            forall|p: P| #[trigger] self.points().contains(p) ==> held.dist(query) <= p.dist(query),
        ensures
            self.nearest_after(query, Some(held), k) == held,
        decreases self.points().len(), k,
    {
        if k == 0 || k > self.children().len() {
            assert(self.points().contains(self.point()));
        } else {
            let sorted = nearest_first(self.children(), query);
            let child = sorted[k - 1];
            lemma_nearest_first(self.children(), query);
            let j = lemma_permutation_source(self.children(), sorted, k - 1);
            lemma_points_among_includes(self.children(), j);
            self.lemma_scan_stays(query, held, (k - 1) as nat);
            assert forall|p: P| #[trigger] child.points().contains(p) implies held.dist(query)
                <= p.dist(query) by {
                assert(self.points().contains(p));
            }
            child.lemma_scan_stays(query, held, child.children().len());
        }
    }
}

} // verus!
