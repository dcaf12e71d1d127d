//! Laws of the cover tree, each proved from the contracts of the operations it speaks of.

use crate::cover::Cover;
use crate::metric::{MetricSpace, Point};
use crate::span::SpanFactor;
use crate::tree::CoverTree;
use vstd::prelude::*;
use vstd::seq_lib::group_to_multiset_ensures;

verus! {

/// Every insertion counts, duplicates too: a tree that took in a sequence of points counts
/// as many more points as the sequence is long, and holds each of them once more.
pub proof fn lemma_inserts_count<P: Point>(
    before: CoverTree<P>,
    after: CoverTree<P>,
    points: Seq<P>,
)
    requires
        after.after_inserts(before, points),
    ensures
        after.spec_len() == before.spec_len() + points.len(),
        after.points() =~= before.points().add(points.to_multiset()),
        after.span() == before.span(),
    decreases points.len(),
{
    broadcast use group_to_multiset_ensures;

    if points.len() > 0 {
        let middle = choose|middle: CoverTree<P>|
            middle.after_inserts(before, points.drop_last()) && #[trigger] after.after_insert(
                middle,
                points.last(),
            );
        lemma_inserts_count(before, middle, points.drop_last());
        assert(points =~= points.drop_last().push(points.last()));
    }
}

/// A search is exact: in a tree that holds a point, it finds a point of the tree, and that
/// point is as near to the query as the nearest point that a scan over all points of the
/// tree finds.
pub proof fn lemma_search_matches_scan<P: Point>(
    before: CoverTree<P>,
    after: CoverTree<P>,
    query: P,
    nearest: Option<P>,
    scanned: P,
)
    requires
        before.wf(),
        after.after_search(before, query, nearest),
        before.points().contains(scanned),
        forall|q: P| #[trigger]
            before.points().contains(q) ==> scanned.dist(query) <= q.dist(query),
    ensures
        nearest matches Some(found) && before.points().contains(found) && found.dist(query)
            == scanned.dist(query),
{
}

/// A point that is inserted within the cover distance of the root and then removed comes
/// back from the removal, the count is what it was, and a tree that was covered is
/// covered still.
pub proof fn lemma_insert_then_remove<P: Point>(
    before: CoverTree<P>,
    middle: CoverTree<P>,
    after: CoverTree<P>,
    point: P,
    removed: Option<P>,
)
    requires
        before.wf(),
        before.root_covers(point),
        middle.after_insert(before, point),
        after.after_remove(middle, point, removed),
    ensures
        removed == Some(point),
        after.spec_len() == before.spec_len(),
        before.covered() ==> after.covered(),
{
}

/// A point that is inserted into an empty tree, or beyond the cover distance of the root,
/// becomes the root, which no removal reaches: a removal of the point right after succeeds
/// only if the tree held an equal point before.
pub proof fn lemma_insert_at_root_then_remove<P: Point>(
    before: CoverTree<P>,
    middle: CoverTree<P>,
    after: CoverTree<P>,
    point: P,
    removed: Option<P>,
)
    requires
        before.wf(),
        !before.root_covers(point),
        middle.after_insert(before, point),
        after.after_remove(middle, point, removed),
    ensures
        middle.root_point() == Some(point),
        removed is Some <==> before.points().contains(point),
        after.root_point() == Some(point),
{
}

/// An insertion into an empty tree, or of a point within the cover distance of the root,
/// keeps the covering invariant.
pub proof fn lemma_insert_keeps_covering<P: Point>(
    before: CoverTree<P>,
    after: CoverTree<P>,
    point: P,
)
    requires
        before.wf(),
        before.covered(),
        before.root() is None || before.root_covers(point),
        after.after_insert(before, point),
    ensures
        after.covered(),
{
}

/// An insertion of a point beyond the cover distance of the root, but within twice that
/// distance, keeps the covering invariant exactly when the cover distance of the next
/// level reaches the point.
pub proof fn lemma_insert_beyond_cover<P: Point>(
    before: CoverTree<P>,
    after: CoverTree<P>,
    point: P,
)
    requires
        before.wf(),
        before.covered(),
        before.root() is Some,
        !before.root_covers(point),
        before.span().reaches_twice(
            before.root()->Some_0.level(),
            before.root()->Some_0.point().dist(point),
        ),
        after.after_insert(before, point),
    ensures
        after.covered() <==> before.span().reaches(
            before.root()->Some_0.level() + 1,
            before.root()->Some_0.point().dist(point),
        ),
{
    let old_root = before.root()->Some_0;
    P::lemma_dist_symmetric(point, old_root.point());
}

/// With a span factor of at least two, an insertion of a point beyond the cover distance
/// of the root, but within twice that distance, keeps the covering invariant.
pub proof fn lemma_insert_beyond_cover_when_doubling<P: Point>(
    before: CoverTree<P>,
    after: CoverTree<P>,
    point: P,
)
    requires
        before.wf(),
        before.covered(),
        before.span().num() >= 2 * before.span().den(),
        before.root() is Some,
        !before.root_covers(point),
        before.span().reaches_twice(
            before.root()->Some_0.level(),
            before.root()->Some_0.point().dist(point),
        ),
        after.after_insert(before, point),
    ensures
        after.covered(),
{
    let old_root = before.root()->Some_0;
    before.span().lemma_reaches_twice_next_level(old_root.level(), old_root.point().dist(point));
    lemma_insert_beyond_cover(before, after, point);
}

/// A node without children that is raised stays without children and keeps its point.
proof fn lemma_climb_without_children<P: Point>(
    node: Cover<P>,
    before: Cover<P>,
    point: P,
    span_factor: SpanFactor,
    steps: nat,
)
    requires
        before.children().len() == 0,
        node.climbed_from(before, point, span_factor, steps),
    ensures
        node.children().len() == 0,
        node.point() == before.point(),
    decreases steps,
{
    if steps > 0 {
        let middle = choose|middle: Cover<P>|
            {
                &&& middle.climbed_from(before, point, span_factor, (steps - 1) as nat)
                &&& !span_factor.reaches_twice(middle.level(), middle.point().dist(point))
                &&& #[trigger] node.promoted_from(middle)
            };
        lemma_climb_without_children(middle, before, point, span_factor, (steps - 1) as nat);
    }
}

/// With a span factor of at least two, an insertion into a tree of a single node keeps the
/// covering invariant, however far away the point is.
pub proof fn lemma_insert_beside_single_node<P: Point>(
    before: CoverTree<P>,
    after: CoverTree<P>,
    point: P,
)
    requires
        before.wf(),
        before.span().num() >= 2 * before.span().den(),
        before.root() matches Some(root) && root.children().len() == 0,
        after.after_insert(before, point),
    ensures
        after.covered(),
{
    let old_root = before.root()->Some_0;
    let root = after.root()->Some_0;
    let span_factor = before.span();
    assert(old_root.covered(span_factor));
    if !before.root_covers(point) {
        let child = root.children()[0];
        let steps = choose|steps: nat| #[trigger]
            child.climbed_from(old_root, point, span_factor, steps);
        lemma_climb_without_children(child, old_root, point, span_factor, steps);
        span_factor.lemma_reaches_twice_next_level(child.level(), child.point().dist(point));
        P::lemma_dist_symmetric(point, child.point());
        assert(child.covered(span_factor));
        assert(root.covered(span_factor));
    }
}

/// Cache coherency: in a coherent subtree a remembered maximum distance is the one that a
/// fresh computation over the descendents gives.
pub proof fn lemma_remembered_is_fresh<P: Point>(node: Cover<P>, fresh: nat)
    requires
        node.coherent(),
        node.cached() is Some,
        node.is_max_distance(fresh),
    ensures
        node.cached() == Some(fresh),
{
}

/// Cache coherency reaches every node: the children of a coherent node are coherent.
pub proof fn lemma_coherent_children<P: Point>(node: Cover<P>, i: int)
    requires
        node.coherent(),
        0 <= i < node.children().len(),
    ensures
        node.children()[i].coherent(),
{
}

} // verus!
