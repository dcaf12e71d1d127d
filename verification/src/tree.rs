//! The cover tree: a root node, a span factor and a count of the points put in.

use crate::cover::Cover;
use crate::forest::lemma_subset_len;
use crate::metric::{MetricSpace, Point};
use crate::span::SpanFactor;
use vstd::multiset::Multiset;
use vstd::prelude::*;
use vstd::seq_lib::group_to_multiset_ensures;

verus! {

/// A cover tree containing points of type P.
#[derive(Debug, PartialEq)]
pub struct CoverTree<P: Point> {
    /// The root of the tree.
    root: Option<Cover<P>>,
    /// The span factor for each Cover.
    span_factor: SpanFactor,
    /// The number of points put in, less the number of removals.
    len: usize,
}

/// Whether `p` is one of `points` and no point of `points` is nearer to `query`.
pub open spec fn is_nearest<P: Point>(points: Multiset<P>, query: P, p: P) -> bool {
    &&& points.contains(p)
    &&& forall|q: P| #[trigger] points.contains(q) ==> p.dist(query) <= q.dist(query)
}

impl<P: Point> CoverTree<P> {
    /// The root node, if the tree has one.
    pub closed spec fn root(self) -> Option<Cover<P>> {
        self.root
    }

    /// The span factor of the tree.
    pub closed spec fn span(self) -> SpanFactor {
        self.span_factor
    }

    /// The count of points: one more for every insertion, one less for every removal.
    pub closed spec fn spec_len(&self) -> usize {
        self.len
    }

    /// What holds of every tree: its span factor is greater than one, its remembered
    /// distances are the true ones, its levels are positive, and it holds no more points
    /// than it counts.
    #[verifier::type_invariant]
    pub open spec fn wf(self) -> bool {
        &&& self.span().wf()
        &&& self.root() matches Some(root) ==> {
            &&& root.coherent()
            &&& root.positive_levels()
            &&& root.points().len() <= self.spec_len()
        }
    }

    /// The points held by the tree.
    pub open spec fn points(self) -> Multiset<P> {
        match self.root() {
            Some(root) => root.points(),
            None => Multiset::empty(),
        }
    }

    /// The point of the root node, if the tree has one.
    pub open spec fn root_point(self) -> Option<P> {
        match self.root() {
            Some(root) => Some(root.point()),
            None => None,
        }
    }

    /// The covering invariant: every child in the tree lies within the cover distance of
    /// its parent.
    pub open spec fn covered(self) -> bool {
        self.root() matches Some(root) ==> root.covered(self.span())
    }

    /// Cache coherency: wherever a maximum distance is remembered in the tree, it is the
    /// true one. It holds of every tree.
    pub open spec fn coherent(self) -> bool {
        self.root() matches Some(root) ==> root.coherent()
    }

    /// Whether the tree has a root whose cover distance reaches `point`.
    pub open spec fn root_covers(self, point: P) -> bool {
        self.root() matches Some(root) && self.span().reaches(
            root.level(),
            root.point().dist(point),
        )
    }

    /// What holds of this tree after `point` was inserted into `before`.
    ///
    /// In an empty tree the point is the root, at level one.
    pub open spec fn after_insert(self, before: Self, point: P) -> bool {
        &&& self.wf()
        &&& self.span() == before.span()
        &&& self.spec_len() == before.spec_len() + 1
        &&& self.points() =~= before.points().insert(point)
        &&& self.root() matches Some(root) && match before.root() {
            Some(old_root) => root.grown_from(old_root, point, before.span()),
            None => {
                &&& root.point() == point
                &&& root.level() == 1
                &&& root.children().len() == 0
                &&& root.cached() is None
            },
        }
    }

    /// What holds of this tree after a search for `query` in `before` gave `nearest`.
    ///
    /// The tree holds what it held. What is found is the nearest point that a scan of the
    /// tree holds at its end, and no point of the tree is nearer to the query.
    pub open spec fn after_search(self, before: Self, query: P, nearest: Option<P>) -> bool {
        &&& self.wf()
        &&& self.span() == before.span()
        &&& self.spec_len() == before.spec_len()
        &&& self.points() =~= before.points()
        &&& match before.root() {
            Some(old_root) => {
                &&& nearest == Some(old_root.nearest_in(query, None))
                &&& is_nearest(before.points(), query, old_root.nearest_in(query, None))
                &&& self.root() matches Some(root) && {
                    &&& root.keeps(old_root)
                    &&& root.searched_from(old_root, query, None)
                    &&& root.cached() == old_root.cached()
                }
            },
            None => self.root() is None && nearest is None,
        }
    }

    /// What holds of this tree after `query` was asked to be removed from `before` and
    /// `removed` came back.
    ///
    /// The point of the root is never removed, and an empty tree stays as it is.
    pub open spec fn after_remove(self, before: Self, query: P, removed: Option<P>) -> bool {
        &&& self.wf()
        &&& self.span() == before.span()
        &&& self.spec_len() == if removed is Some {
            before.spec_len() - 1
        } else {
            before.spec_len() as int
        }
        &&& match before.root() {
            Some(old_root) => self.root() matches Some(root) && root.pruned_from(
                old_root,
                query,
                removed,
            ),
            None => self.root() is None && removed is None,
        }
    }

    /// What holds of this tree after `points` were inserted into `before`, one after the
    /// other.
    pub open spec fn after_inserts(self, before: Self, points: Seq<P>) -> bool
        decreases points.len(),
    {
        if points.len() == 0 {
            self == before
        } else {
            exists|middle: Self|
                middle.after_inserts(before, points.drop_last()) && #[trigger] self.after_insert(
                    middle,
                    points.last(),
                )
        }
    }

    /// What holds of this tree after `queries` were asked to be removed from `before`, one
    /// after the other.
    pub open spec fn after_removes(self, before: Self, queries: Seq<P>) -> bool
        decreases queries.len(),
    {
        if queries.len() == 0 {
            self == before
        } else {
            exists|middle: Self, removed: Option<P>|
                middle.after_removes(before, queries.drop_last()) && #[trigger] self.after_remove(
                    middle,
                    queries.last(),
                    removed,
                )
        }
    }

    /// Constructs an empty `CoverTree` with a span factor of thirteen tenths.
    pub fn new() -> (tree: CoverTree<P>)
        ensures
            tree.root() is None,
            tree.spec_len() == 0,
            tree.span().is_standard(),
    {
        CoverTree::with_span_factor(SpanFactor::standard())
    }

    /// Constructs an empty `CoverTree` with the specified span factor.
    pub fn with_span_factor(span_factor: SpanFactor) -> (tree: Self)
        ensures
            tree.root() is None,
            tree.spec_len() == 0,
            tree.span() == span_factor,
    {
        proof {
            use_type_invariant(&span_factor);
        }
        CoverTree { root: None, span_factor, len: 0 }
    }

    /// Constructs a `CoverTree` containing all of the points in the given `Vec`, inserted in
    /// their order.
    pub fn from_items(points: Vec<P>) -> (tree: Self)
        ensures
            tree.spec_len() == points@.len(),
            tree.points() =~= points@.to_multiset(),
            tree.span().is_standard(),
            exists|empty: Self|
                empty.root() is None && empty.spec_len() == 0 && empty.span().is_standard()
                    && #[trigger] tree.after_inserts(empty, points@),
    {
        let mut tree = CoverTree::new();
        proof {
            broadcast use group_to_multiset_ensures;

            assert(points.len() == points@.len());
        }
        tree.insert_all(points);
        tree
    }

    /// Returns the point nearest to the given point in the `CoverTree`, or `None` if the
    /// tree is empty. Remembers distances measured on the way and may reorder children,
    /// which changes nothing of what the tree holds.
    pub fn find_nearest(&mut self, query_point: P) -> (nearest: Option<P>)
        ensures
            final(self).after_search(*old(self), query_point, nearest),
    {
        proof {
            use_type_invariant(&*self);
        }
        let mut taken: Option<Cover<P>> = None;
        std::mem::swap(&mut taken, &mut self.root);
        match taken {
            Some(root) => {
                let mut root = root;
                let nearest = root.find_nearest(query_point, None);
                self.root = Some(root);
                Some(nearest)
            },
            None => None,
        }
    }

    /// Returns the count of points in the `CoverTree`: the number of insertions less the
    /// number of removals.
    #[verifier::when_used_as_spec(spec_len)]
    pub fn len(&self) -> (len: usize)
        ensures
            len == self.spec_len(),
    {
        self.len
    }

    /// Returns the span factor of the `CoverTree`.
    pub fn span_factor(&self) -> (span_factor: SpanFactor)
        ensures
            span_factor == self.span(),
    {
        self.span_factor
    }

    /// Returns `true` if the `CoverTree` counts no points.
    pub fn is_empty(&self) -> (empty: bool)
        ensures
            empty == (self.spec_len() == 0),
    {
        self.len == 0
    }

    /// Inserts the given point into the `CoverTree`.
    pub fn insert(&mut self, point: P)
        requires
            old(self).spec_len() < usize::MAX,
        ensures
            final(self).after_insert(*old(self), point),
    {
        proof {
            use_type_invariant(&*self);
        }
        let span_factor = self.span_factor;
        self.len = self.len + 1;
        let mut taken: Option<Cover<P>> = None;
        std::mem::swap(&mut taken, &mut self.root);
        match taken {
            Some(root) => {
                let grown = root.insert(point, span_factor);
                self.root = Some(grown);
            },
            None => {
                let new_cover = Cover::new(point, 1);
                self.root = Some(new_cover);
            },
        }
    }

    /// Inserts each of the points in the given `Vec` into the `CoverTree`, in their order.
    pub fn insert_all(&mut self, points: Vec<P>)
        requires
            old(self).spec_len() + points@.len() <= usize::MAX,
        ensures
            final(self).wf(),
            final(self).after_inserts(*old(self), points@),
            final(self).span() == old(self).span(),
            final(self).spec_len() == old(self).spec_len() + points@.len(),
            final(self).points() =~= old(self).points().add(points@.to_multiset()),
    {
        proof {
            use_type_invariant(&*self);
            broadcast use group_to_multiset_ensures;
        }
        let mut i: usize = 0;
        while i < points.len()
            invariant
                i <= points@.len(),
                old(self).spec_len() + points@.len() <= usize::MAX,
                self.wf(),
                self.after_inserts(*old(self), points@.subrange(0, i as int)),
                self.span() == old(self).span(),
                self.spec_len() == old(self).spec_len() + i,
                self.points() =~= old(self).points().add(
                    points@.subrange(0, i as int).to_multiset(),
                ),
            decreases points@.len() - i,
        {
            self.insert(points[i]);
            proof {
                broadcast use group_to_multiset_ensures;

                let done = points@.subrange(0, i + 1);
                assert(done.drop_last() =~= points@.subrange(0, i as int));
                assert(done.last() == points@[i as int]);
                assert(done =~= points@.subrange(0, i as int).push(points@[i as int]));
            }
            i = i + 1;
        }
        proof {
            assert(points@.subrange(0, i as int) =~= points@);
        }
    }

    /// Removes the given point from the `CoverTree`: one node that holds it, with all
    /// beneath that node. Returns the point, or `None` where no node but the root holds it.
    pub fn remove(&mut self, point: P) -> (removed: Option<P>)
        ensures
            final(self).after_remove(*old(self), point, removed),
    {
        proof {
            use_type_invariant(&*self);
        }
        let mut taken: Option<Cover<P>> = None;
        std::mem::swap(&mut taken, &mut self.root);
        match taken {
            Some(root) => {
                let mut root = root;
                let ghost old_root = root;
                let removed = root.remove(point);
                proof {
                    if removed is Some {
                        lemma_subset_len(root.below(), old_root.below().remove(point));
                    }
                }
                if removed.is_some() {
                    self.len = self.len - 1;
                }
                self.root = Some(root);
                removed
            },
            None => None,
        }
    }

    /// Removes each point in the given `Vec` from the `CoverTree`, in their order.
    pub fn remove_all(&mut self, points: Vec<P>)
        ensures
            final(self).wf(),
            final(self).after_removes(*old(self), points@),
            final(self).span() == old(self).span(),
            final(self).spec_len() <= old(self).spec_len(),
            final(self).root_point() == old(self).root_point(),
            final(self).points().subset_of(old(self).points()),
    {
        proof {
            use_type_invariant(&*self);
        }
        let mut i: usize = 0;
        while i < points.len()
            invariant
                i <= points@.len(),
                self.wf(),
                self.after_removes(*old(self), points@.subrange(0, i as int)),
                self.span() == old(self).span(),
                self.spec_len() <= old(self).spec_len(),
                self.root_point() == old(self).root_point(),
                self.points().subset_of(old(self).points()),
            decreases points@.len() - i,
        {
            self.remove(points[i]);
            proof {
                let done = points@.subrange(0, i + 1);
                assert(done.drop_last() =~= points@.subrange(0, i as int));
                assert(done.last() == points@[i as int]);
            }
            i = i + 1;
        }
        proof {
            assert(points@.subrange(0, i as int) =~= points@);
        }
    }

    /// Checks the covering invariant on the whole tree.
    pub fn is_covered(&self) -> (covered: bool)
        ensures
            covered == self.covered(),
    {
        match &self.root {
            Some(root) => root.is_covered(self.span_factor),
            None => true,
        }
    }

    /// Checks cache coherency on the whole tree by computing every remembered distance
    /// afresh.
    pub fn is_coherent(&self) -> (coherent: bool)
        ensures
            coherent == self.coherent(),
    {
        match &self.root {
            Some(root) => root.is_coherent(),
            None => true,
        }
    }

    /// Removes all points from the `CoverTree`.
    pub fn clear(&mut self)
        ensures
            final(self).root() is None,
            final(self).spec_len() == 0,
            final(self).span() == old(self).span(),
    {
        proof {
            use_type_invariant(&*self);
        }
        self.root = None;
        self.len = 0;
    }
}

impl<P: Point> Clone for CoverTree<P> {
    /// A copy of this tree, node by node.
    fn clone(&self) -> (copy: Self)
        ensures
            copy.wf(),
            copy.span() == self.span(),
            copy.spec_len() == self.spec_len(),
            copy.points() =~= self.points(),
            match self.root() {
                Some(root) => copy.root() matches Some(copied) && copied.same_shape(root),
                None => copy.root() is None,
            },
    {
        proof {
            use_type_invariant(self);
        }
        let root = match &self.root {
            Some(root) => {
                let copied = root.clone();
                proof {
                    copied.lemma_same_shape(*root);
                }
                Some(copied)
            },
            None => None,
        };
        CoverTree { root, span_factor: self.span_factor, len: self.len }
    }
}

impl<P: Point> Default for CoverTree<P> {
    /// An empty tree with a span factor of thirteen tenths.
    fn default() -> (tree: Self)
        ensures
            tree.root() is None,
            tree.spec_len() == 0,
            tree.span().is_standard(),
    {
        CoverTree::with_span_factor(SpanFactor::standard())
    }
}

} // verus!
