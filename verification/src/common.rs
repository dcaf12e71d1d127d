//! What an index for nearest-neighbour search offers, whatever its inner structure.

use crate::cover::Cover;
use crate::metric::{MetricI32, MetricI64, MetricSpace, Point};
use crate::tree::{is_nearest, CoverTree};
use vstd::multiset::Multiset;
use vstd::prelude::*;

verus! {

/// An index that answers nearest-neighbour queries over the points put into it.
pub trait NearestNeighbor<D: Point> {
    /// The nodes the index is built from.
    type Node;

    /// The points that the index holds.
    spec fn held(&self) -> Multiset<D>;

    /// The count of points: one more for every insertion, one less for every removal.
    spec fn counted(&self) -> nat;

    /// Whether the index can take `data` out.
    spec fn removable(&self, data: D) -> bool;

    /// Returns a point nearest to `query` among the points held, or `None` if there is none.
    fn find_nearest(&mut self, query: D) -> (nearest: Option<D>)
        ensures
            final(self).held() == old(self).held(),
            final(self).counted() == old(self).counted(),
            match nearest {
                Some(p) => is_nearest(old(self).held(), query, p),
                None => old(self).held().len() == 0,
            },
    ;

    /// Puts `data` into the index.
    fn insert(&mut self, data: D)
        requires
            old(self).counted() < usize::MAX,
        ensures
            final(self).held() == old(self).held().insert(data),
            final(self).counted() == old(self).counted() + 1,
    ;

    /// Takes `data` out of the index and returns it, or says why it could not.
    fn remove(&mut self, data: D) -> (removed: Result<D, String>)
        ensures
            removed is Ok <==> old(self).removable(data),
            match removed {
                Ok(p) => {
                    &&& p == data
                    &&& old(self).held().contains(data)
                    &&& final(self).held().subset_of(old(self).held().remove(data))
                    &&& final(self).counted() == old(self).counted() - 1
                },
                Err(_) => {
                    &&& final(self).held() == old(self).held()
                    &&& final(self).counted() == old(self).counted()
                },
            },
    ;

    /// Returns the count of points.
    fn count(&self) -> (count: usize)
        ensures
            count == self.counted(),
    ;
}

impl<P: Point> NearestNeighbor<P> for CoverTree<P> {
    type Node = Cover<P>;

    open spec fn held(&self) -> Multiset<P> {
        self.points()
    }

    open spec fn counted(&self) -> nat {
        self.spec_len() as nat
    }

    /// A tree takes out what a node beneath its root holds.
    open spec fn removable(&self, data: P) -> bool {
        self.root() matches Some(root) && root.below().contains(data)
    }

    fn find_nearest(&mut self, query: P) -> (nearest: Option<P>)
        ensures
            final(self).after_search(*old(self), query, nearest),
    {
        CoverTree::find_nearest(self, query)
    }

    fn insert(&mut self, data: P)
        ensures
            final(self).after_insert(*old(self), data),
    {
        CoverTree::insert(self, data)
    }

    /// Fails where no node but the root holds `data`.
    fn remove(&mut self, data: P) -> (removed: Result<P, String>) {
        match CoverTree::remove(self, data) {
            Some(p) => Ok(p),
            None => Err("no such point beneath the root".to_owned()),
        }
    }

    fn count(&self) -> (count: usize) {
        self.len()
    }
}

/// What a value needs to be the data of a cover tree.
pub trait CoverTreeData: MetricSpace + PartialEq + PartialOrd + Copy {
}

impl CoverTreeData for MetricI32 {
}

impl CoverTreeData for MetricI64 {
}

} // verus!
