//! Facts about the points held by a sequence of nodes, such as the children of one node.

use crate::cover::{points_among, Cover};
use crate::metric::{MetricSpace, Point};
use vstd::multiset::Multiset;
use vstd::prelude::*;
use vstd::seq_lib::group_to_multiset_ensures;

verus! {

/// The first `upto` nodes stand in ascending order of their distance to `query`.
pub open spec fn ascending<P: Point>(nodes: Seq<Cover<P>>, query: P, upto: int) -> bool {
    forall|a: int, b: int|
        0 <= a < b < upto ==> nodes[a].point().dist(query) <= nodes[b].point().dist(query)
}

/// Whether the node at position `i` is the first that holds `query` itself.
pub open spec fn first_holder<P: Point>(nodes: Seq<Cover<P>>, i: int, query: P) -> bool {
    &&& 0 <= i < nodes.len()
    &&& nodes[i].point() == query
    &&& forall|k: int| 0 <= k < i ==> nodes[k].point() != query
}

/// Whether none of the nodes holds `query` itself.
pub open spec fn no_holder<P: Point>(nodes: Seq<Cover<P>>, query: P) -> bool {
    forall|k: int| 0 <= k < nodes.len() ==> nodes[k].point() != query
}

/// Whether `query` is held beneath none of the nodes before position `k`.
pub open spec fn not_beneath_earlier<P: Point>(nodes: Seq<Cover<P>>, k: int, query: P) -> bool {
    forall|m: int| 0 <= m < k ==> !(#[trigger] nodes[m]).below().contains(query)
}

/// Whether the node at position `i` is the first without children.
pub open spec fn first_leaf<P: Point>(nodes: Seq<Cover<P>>, i: int) -> bool {
    &&& 0 <= i < nodes.len()
    &&& nodes[i].children().len() == 0
    &&& forall|k: int| 0 <= k < i ==> nodes[k].children().len() > 0
}

/// Whether every node has children.
pub open spec fn no_leaf<P: Point>(nodes: Seq<Cover<P>>) -> bool {
    forall|k: int| 0 <= k < nodes.len() ==> nodes[k].children().len() > 0
}

/// Where a node at distance `key` from `query` joins `nodes`: behind the last node that is
/// no farther from `query`.
pub open spec fn slot<P: Point>(nodes: Seq<Cover<P>>, query: P, key: nat) -> int
    decreases nodes.len(),
{
    if nodes.len() > 0 && nodes.last().point().dist(query) > key {
        slot(nodes.drop_last(), query, key)
    } else {
        nodes.len() as int
    }
}

/// The nodes in ascending order of their distance to `query`; nodes at the same distance
/// keep their order.
pub open spec fn nearest_first<P: Point>(nodes: Seq<Cover<P>>, query: P) -> Seq<Cover<P>>
    decreases nodes.len(),
{
    if nodes.len() == 0 {
        nodes
    } else {
        let sorted = nearest_first(nodes.drop_last(), query);
        sorted.insert(slot(sorted, query, nodes.last().point().dist(query)), nodes.last())
    }
}

/// One more node at the end adds its points.
pub proof fn lemma_points_among_push<P: Point>(nodes: Seq<Cover<P>>, node: Cover<P>)
    ensures
        points_among(nodes.push(node)) =~= points_among(nodes).add(node.points()),
{
    assert(nodes.push(node).drop_last() =~= nodes);
}

/// Two sequences of nodes, one after the other, hold the points of both.
pub proof fn lemma_points_among_concat<P: Point>(a: Seq<Cover<P>>, b: Seq<Cover<P>>)
    ensures
        points_among(a + b) =~= points_among(a).add(points_among(b)),
    decreases b.len(),
{
    if b.len() > 0 {
        lemma_points_among_concat(a, b.drop_last());
        assert((a + b).drop_last() =~= a + b.drop_last());
    }
}

/// A single node holds its own points.
pub proof fn lemma_points_among_one<P: Point>(node: Cover<P>)
    ensures
        points_among(seq![node]) =~= node.points(),
{
    lemma_points_among_push(Seq::<Cover<P>>::empty(), node);
}

/// The nodes before and after position `i`, together with the node there, hold all points.
pub proof fn lemma_points_among_remove<P: Point>(nodes: Seq<Cover<P>>, i: int)
    requires
        0 <= i < nodes.len(),
    ensures
        points_among(nodes) =~= points_among(nodes.remove(i)).add(nodes[i].points()),
{
    let front = nodes.subrange(0, i);
    let back = nodes.subrange(i + 1, nodes.len() as int);
    assert(nodes =~= front.push(nodes[i]) + back);
    lemma_points_among_concat(front.push(nodes[i]), back);
    lemma_points_among_concat(front, back);
    lemma_points_among_push(front, nodes[i]);
}

/// A node that takes the place of another brings its points and takes the other's away.
pub proof fn lemma_points_among_update<P: Point>(nodes: Seq<Cover<P>>, i: int, node: Cover<P>)
    requires
        0 <= i < nodes.len(),
    ensures
        points_among(nodes.update(i, node)).add(nodes[i].points()) =~= points_among(nodes).add(
            node.points(),
        ),
{
    let changed = nodes.update(i, node);
    lemma_points_among_remove(nodes, i);
    lemma_points_among_remove(changed, i);
    assert(changed.remove(i) =~= nodes.remove(i));
}

/// A node whose points stay the same can change in place without changing the points held.
pub proof fn lemma_points_among_update_same<P: Point>(
    nodes: Seq<Cover<P>>,
    i: int,
    node: Cover<P>,
)
    requires
        0 <= i < nodes.len(),
        node.points() =~= nodes[i].points(),
    ensures
        points_among(nodes.update(i, node)) =~= points_among(nodes),
{
    let changed = nodes.update(i, node);
    lemma_points_among_remove(nodes, i);
    lemma_points_among_remove(changed, i);
    assert(changed.remove(i) =~= nodes.remove(i));
}

/// Moving the last node into position `i` and dropping the end takes away the points of
/// the node that was at `i`.
pub proof fn lemma_points_among_swap_remove<P: Point>(nodes: Seq<Cover<P>>, i: int)
    requires
        0 <= i < nodes.len(),
    ensures
        points_among(nodes) =~= points_among(nodes.update(i, nodes.last()).drop_last()).add(
            nodes[i].points(),
        ),
{
    let rest = nodes.update(i, nodes.last()).drop_last();
    if i == nodes.len() - 1 {
        assert(rest =~= nodes.drop_last());
    } else {
        let shorter = nodes.drop_last();
        assert(rest =~= shorter.update(i, nodes.last()));
        lemma_points_among_update(shorter, i, nodes.last());
    }
}

/// Each node's points are among the points of the sequence.
pub proof fn lemma_points_among_includes<P: Point>(nodes: Seq<Cover<P>>, i: int)
    requires
        0 <= i < nodes.len(),
    ensures
        nodes[i].points().subset_of(points_among(nodes)),
        nodes[i].points().len() <= points_among(nodes).len(),
{
    lemma_points_among_remove(nodes, i);
}

/// A point held by a sequence of nodes is held by one of them.
pub proof fn lemma_points_among_owner<P: Point>(nodes: Seq<Cover<P>>, p: P) -> (i: int)
    requires
        points_among(nodes).contains(p),
    ensures
        0 <= i < nodes.len(),
        nodes[i].points().contains(p),
    decreases nodes.len(),
{
    if nodes.last().points().contains(p) {
        nodes.len() - 1
    } else {
        lemma_points_among_owner(nodes.drop_last(), p)
    }
}

/// The first `k + 1` nodes hold what the first `k` hold and the points of node `k`.
pub proof fn lemma_points_among_prefix<P: Point>(nodes: Seq<Cover<P>>, k: int)
    requires
        0 <= k < nodes.len(),
    ensures
        points_among(nodes.subrange(0, k + 1)) =~= points_among(nodes.subrange(0, k)).add(
            nodes[k].points(),
        ),
{
    assert(nodes.subrange(0, k + 1).drop_last() =~= nodes.subrange(0, k));
}

/// Each node of a rearranged sequence stood somewhere in the sequence before.
pub proof fn lemma_permutation_source<P: Point>(
    before: Seq<Cover<P>>,
    after: Seq<Cover<P>>,
    i: int,
) -> (j: int)
    requires
        after.to_multiset() =~= before.to_multiset(),
        0 <= i < after.len(),
    ensures
        0 <= j < before.len(),
        before[j] == after[i],
{
    broadcast use group_to_multiset_ensures;

    assert(before.to_multiset().count(after[i]) > 0);
    choose|j: int| 0 <= j < before.len() && before[j] == after[i]
}

/// Rearranging nodes does not change the points they hold.
pub proof fn lemma_points_among_permutation<P: Point>(before: Seq<Cover<P>>, after: Seq<Cover<P>>)
    requires
        after.to_multiset() =~= before.to_multiset(),
    ensures
        points_among(after) =~= points_among(before),
        after.len() == before.len(),
    decreases after.len(),
{
    broadcast use group_to_multiset_ensures;

    assert(after.len() == before.len()) by {
        assert(after.to_multiset().len() == before.to_multiset().len());
    }
    if after.len() > 0 {
        let last = after.len() - 1;
        let j = lemma_permutation_source(before, after, last);
        assert(after.drop_last() =~= after.remove(last));
        lemma_points_among_permutation(before.remove(j), after.drop_last());
        lemma_points_among_remove(before, j);
    }
}

/// A part is no larger than the whole.
pub proof fn lemma_subset_len<V>(part: Multiset<V>, whole: Multiset<V>)
    requires
        part.subset_of(whole),
    ensures
        part.len() <= whole.len(),
{
    assert(whole =~= part.add(whole.sub(part)));
}

/// A node joins behind the nodes that are no farther, where all nodes behind are farther.
pub proof fn lemma_slot_found<P: Point>(nodes: Seq<Cover<P>>, query: P, key: nat, j: int)
    requires
        0 <= j <= nodes.len(),
        forall|k: int| 0 <= k < j ==> nodes[k].point().dist(query) <= key,
        forall|k: int| j <= k < nodes.len() ==> nodes[k].point().dist(query) > key,
    ensures
        slot(nodes, query, key) == j,
    decreases nodes.len(),
{
    if nodes.len() > j {
        lemma_slot_found(nodes.drop_last(), query, key, j);
    }
}

/// A node joins at a place among the nodes, behind those no farther and before those
/// farther.
pub proof fn lemma_slot_divides<P: Point>(nodes: Seq<Cover<P>>, query: P, key: nat)
    requires
        ascending(nodes, query, nodes.len() as int),
    ensures
        0 <= slot(nodes, query, key) <= nodes.len(),
        forall|k: int| 0 <= k < slot(nodes, query, key) ==> nodes[k].point().dist(query) <= key,
        forall|k: int|
            slot(nodes, query, key) <= k < nodes.len() ==> nodes[k].point().dist(query) > key,
    decreases nodes.len(),
{
    if nodes.len() > 0 && nodes.last().point().dist(query) > key {
        let front = nodes.drop_last();
        assert(ascending(front, query, front.len() as int));
        lemma_slot_divides(front, query, key);
        assert forall|k: int| 0 <= k < slot(nodes, query, key) implies nodes[k].point().dist(
            query,
        ) <= key by {
            assert(front[k] == nodes[k]);
        }
        assert forall|k: int|
            slot(nodes, query, key) <= k < nodes.len() implies nodes[k].point().dist(query)
            > key by {
            if k < front.len() {
                assert(front[k] == nodes[k]);
            }
        }
    }
}

/// Sorting rearranges the nodes, and puts them in ascending order.
pub proof fn lemma_nearest_first<P: Point>(nodes: Seq<Cover<P>>, query: P)
    ensures
        nearest_first(nodes, query).len() == nodes.len(),
        nearest_first(nodes, query).to_multiset() =~= nodes.to_multiset(),
        ascending(nearest_first(nodes, query), query, nodes.len() as int),
    decreases nodes.len(),
{
    broadcast use group_to_multiset_ensures;

    if nodes.len() > 0 {
        let front = nodes.drop_last();
        let sorted = nearest_first(front, query);
        let key = nodes.last().point().dist(query);
        let at = slot(sorted, query, key);
        let result = sorted.insert(at, nodes.last());
        lemma_nearest_first(front, query);
        lemma_slot_divides(sorted, query, key);
        assert(nodes =~= front.push(nodes.last()));
        assert(ascending(result, query, result.len() as int));
    }
}

} // verus!
