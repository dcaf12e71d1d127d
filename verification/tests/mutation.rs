use covertree::{Cover, CoverTree, SpanFactor};

#[test]
fn count_counts_every_insertion() {
    let mut ct: CoverTree<i64> = CoverTree::new();
    for n in 0..40usize {
        assert_eq!(ct.len(), n);
        ct.insert(((n * 37) % 11) as i64);
    }
    assert_eq!(ct.len(), 40);
    assert!(!ct.is_empty());
}

#[test]
fn count_counts_duplicates() {
    let ct: CoverTree<i32> = CoverTree::from_items(vec![7, 7, 7, 7]);
    assert_eq!(ct.len(), 4);
}

#[test]
fn insert_all_counts_all() {
    let mut ct: CoverTree<i64> = CoverTree::from_items(vec![1, 2, 3]);
    ct.insert_all(vec![10, 20, 30, 40]);
    assert_eq!(ct.len(), 7);
    ct.insert_all(Vec::new());
    assert_eq!(ct.len(), 7);
    assert_eq!(ct.find_nearest(33), Some(30));
}

#[test]
fn insert_then_remove_gives_the_point_back() {
    // The root 0 has level one and covers distances up to 1.3: the point 1 goes beneath it.
    let mut ct: CoverTree<i64> = CoverTree::new();
    ct.insert(0);
    assert!(ct.is_covered());
    ct.insert(1);
    assert_eq!(ct.len(), 2);
    assert!(ct.is_covered());
    assert_eq!(ct.remove(1), Some(1));
    assert_eq!(ct.len(), 1);
    assert!(ct.is_covered());
    assert!(ct.is_coherent());
    assert_eq!(ct.find_nearest(1), Some(0));
}

#[test]
fn insert_then_remove_in_a_larger_tree() {
    let span_factor = SpanFactor::new(2, 1).unwrap();
    let mut ct: CoverTree<i64> = CoverTree::with_span_factor(span_factor);
    // Each point lies within the cover distance of the root as it then is.
    ct.insert(0);
    ct.insert(1);
    ct.insert(2);
    ct.insert(-2);
    ct.insert(-1);
    assert!(ct.is_covered());
    let before = ct.len();
    ct.insert(-3);
    assert_eq!(ct.len(), before + 1);
    assert!(ct.is_covered());
    assert_eq!(ct.find_nearest(-3), Some(-3));
    assert_eq!(ct.remove(-3), Some(-3));
    assert_eq!(ct.len(), before);
    assert!(ct.is_covered());
    assert!(ct.is_coherent());
}

#[test]
fn remove_does_not_reach_the_root() {
    let mut ct: CoverTree<i64> = CoverTree::new();
    ct.insert(5);
    assert_eq!(ct.remove(5), None);
    assert_eq!(ct.len(), 1);
    assert_eq!(ct.find_nearest(0), Some(5));
    // The point 50 lies beyond the cover distance of 5 and becomes the root.
    ct.insert(50);
    assert_eq!(ct.remove(50), None);
    assert_eq!(ct.len(), 2);
    assert_eq!(ct.remove(5), Some(5));
    assert_eq!(ct.len(), 1);
    assert_eq!(ct.find_nearest(0), Some(50));
}

#[test]
fn remove_of_an_absent_point_changes_nothing() {
    let mut ct: CoverTree<i64> = CoverTree::from_items(vec![1, 10, 100]);
    assert_eq!(ct.remove(11), None);
    assert_eq!(ct.len(), 3);
    assert_eq!(ct.find_nearest(11), Some(10));
}

#[test]
fn remove_from_an_empty_tree_is_none() {
    let mut ct: CoverTree<i64> = CoverTree::new();
    assert_eq!(ct.remove(3), None);
    assert_eq!(ct.len(), 0);
    assert!(ct.is_empty());
}

#[test]
fn remove_takes_an_equal_point_beneath_the_node_with_it() {
    // The second 1 goes beneath the first, which covers it. Removing one node that holds 1
    // takes the other with it, and the count goes down by one.
    let mut ct: CoverTree<i64> = CoverTree::new();
    ct.insert(0);
    ct.insert(1);
    ct.insert(1);
    assert_eq!(ct.len(), 3);
    assert_eq!(ct.remove(1), Some(1));
    assert_eq!(ct.len(), 2);
    assert_eq!(ct.find_nearest(1), Some(0));
    assert_eq!(ct.remove(1), None);
    assert_eq!(ct.len(), 2);
    assert!(ct.is_coherent());
}

#[test]
fn remove_takes_what_is_beneath_the_node() {
    // 0 at level one takes in 1 and rises to level two. The point 2 lies beyond 1.3^2 but
    // within twice that, so it becomes the root above 0, and 1 stays beneath 0.
    let mut ct: CoverTree<i64> = CoverTree::new();
    ct.insert(0);
    ct.insert(1);
    ct.insert(2);
    assert_eq!(ct.find_nearest(1), Some(1));
    assert_eq!(ct.remove(0), Some(0));
    assert_eq!(ct.len(), 2);
    assert_eq!(ct.find_nearest(1), Some(2));
    assert_eq!(ct.find_nearest(-5), Some(2));
    assert_eq!(ct.remove(1), None);
}

#[test]
fn remove_all_removes_what_it_finds() {
    // With a span factor of two the root 0 covers all of these points. 1 takes in 2 and -2,
    // and -2 takes in -1, which takes in -3.
    let mut ct: CoverTree<i64> = CoverTree::with_span_factor(SpanFactor::new(2, 1).unwrap());
    ct.insert_all(vec![0, 1, 2, -2, -1, -3]);
    assert_eq!(ct.len(), 6);
    assert_eq!(ct.find_nearest(-3), Some(-3));
    ct.remove_all(vec![-3, 7, 2]);
    assert_eq!(ct.len(), 4);
    assert_eq!(ct.find_nearest(-3), Some(-2));
    assert_eq!(ct.find_nearest(2), Some(1));
    // The node that holds 1 goes with -2 and -1 beneath it.
    ct.remove_all(vec![1]);
    assert_eq!(ct.len(), 3);
    assert_eq!(ct.find_nearest(-3), Some(0));
    ct.remove_all(Vec::new());
    assert_eq!(ct.len(), 3);
    assert!(ct.is_coherent());
    assert!(ct.is_covered());
}

#[test]
fn clear_empties_the_tree() {
    let mut ct: CoverTree<i64> = CoverTree::from_items(vec![1, 2, 3]);
    ct.clear();
    assert!(ct.is_empty());
    assert_eq!(ct.len(), 0);
    assert_eq!(ct.find_nearest(2), None);
    assert_eq!(ct.span_factor().numerator(), 13);
    ct.insert(9);
    assert_eq!(ct.find_nearest(2), Some(9));
    assert_eq!(ct.len(), 1);
}

#[test]
fn default_tree_is_empty_with_the_standard_span_factor() {
    let ct: CoverTree<i64> = CoverTree::default();
    assert!(ct.is_empty());
    assert_eq!(ct.span_factor().numerator(), 13);
    assert_eq!(ct.span_factor().denominator(), 10);
}

#[test]
fn with_span_factor_keeps_the_span_factor() {
    let ct: CoverTree<i64> = CoverTree::with_span_factor(SpanFactor::new(21, 10).unwrap());
    assert_eq!(ct.len(), 0);
    assert_eq!(ct.span_factor().numerator(), 21);
    assert_eq!(ct.span_factor().denominator(), 10);
}

#[test]
fn covering_holds_after_insertions_within_the_cover_distance() {
    let span_factor = SpanFactor::new(2, 1).unwrap();
    let mut ct: CoverTree<i64> = CoverTree::with_span_factor(span_factor);
    ct.insert(0);
    // The root has level one at first and level two once it has a child: it covers
    // distances up to two, then up to four.
    for point in [1i64, -2, 3, 4, -4, 2, 1, 0, -3] {
        ct.insert(point);
        assert!(ct.is_covered());
    }
    assert_eq!(ct.len(), 10);
}

#[test]
fn covering_beyond_the_cover_distance_depends_on_the_next_level() {
    // Thirteen tenths: the root 0 has level one, and 2 lies beyond 1.3 but within 2.6.
    // The new root 2 has level two and covers only 1.69.
    let mut ct: CoverTree<i64> = CoverTree::new();
    ct.insert(0);
    ct.insert(2);
    assert!(!ct.is_covered());
    assert_eq!(ct.find_nearest(0), Some(0));
    // Two: the root 0 covers 2, and 3 lies beyond that but within 4, which level two covers.
    let mut ct: CoverTree<i64> = CoverTree::with_span_factor(SpanFactor::new(2, 1).unwrap());
    ct.insert(0);
    ct.insert(3);
    assert!(ct.is_covered());
}

#[test]
fn covering_beside_a_single_node_with_a_span_factor_of_two() {
    // The single node 0 is raised until twice its cover distance reaches 1000: to level
    // nine, where the cover distance is 512. The root above it covers 1024.
    let mut ct: CoverTree<i64> = CoverTree::with_span_factor(SpanFactor::new(2, 1).unwrap());
    ct.insert(0);
    ct.insert(1000);
    assert!(ct.is_covered());
    assert_eq!(
        format!("{:?}", ct),
        "CoverTree { root: Some(Cover { point: 1000, children: [\
         Cover { point: 0, children: [], level: 9, max_distance: None }], \
         level: 10, max_distance: None }), \
         span_factor: SpanFactor { numerator: 2, denominator: 1 }, len: 2 }"
    );
    // With thirteen tenths the root comes to lie at level 25, which covers 705.6..., and
    // does not cover its child.
    let mut ct: CoverTree<i64> = CoverTree::new();
    ct.insert(0);
    ct.insert(1000);
    assert!(!ct.is_covered());
}

#[test]
fn remembered_distances_hold_after_mutations_and_queries() {
    let mut ct: CoverTree<i64> = CoverTree::new();
    let points: Vec<i64> = vec![50, 51, 49, 52, 10, 90, 53, 48, 500, 47, 46, -20, 54];
    for (n, point) in points.iter().enumerate() {
        ct.insert(*point);
        assert!(ct.is_coherent());
        ct.find_nearest(*point + 3);
        assert!(ct.is_coherent());
        if n % 3 == 2 {
            ct.remove(points[n - 1]);
            assert!(ct.is_coherent());
            ct.find_nearest(0);
            assert!(ct.is_coherent());
        }
    }
}

#[test]
fn node_on_its_own() {
    let mut node: Cover<i64> = Cover::new(12, 3);
    assert_eq!(node.find_nearest(100, None), 12);
    assert_eq!(node.find_nearest(100, Some(90)), 90);
    assert_eq!(node.find_nearest(100, Some(-90)), 12);
    // Of two equally near points the one found so far stays.
    assert_eq!(node.find_nearest(100, Some(188)), 188);
    assert_eq!(node.remove(12), None);
    assert!(node.is_coherent());
    assert!(node.is_covered(SpanFactor::standard()));
}

#[test]
fn shape_after_insertions() {
    let mut ct: CoverTree<i64> = CoverTree::new();
    ct.insert(0);
    assert_eq!(
        format!("{:?}", ct),
        "CoverTree { root: Some(Cover { point: 0, children: [], level: 1, max_distance: None }), \
         span_factor: SpanFactor { numerator: 13, denominator: 10 }, len: 1 }"
    );
    // A node of level one rises to level two to have a child of level one.
    ct.insert(1);
    assert_eq!(
        format!("{:?}", ct),
        "CoverTree { root: Some(Cover { point: 0, children: [Cover { point: 1, children: [], \
         level: 1, max_distance: None }], level: 2, max_distance: None }), \
         span_factor: SpanFactor { numerator: 13, denominator: 10 }, len: 2 }"
    );
    // The first child that covers the point takes it in: 1 covers 1, and rises itself.
    ct.insert(1);
    assert_eq!(
        format!("{:?}", ct),
        "CoverTree { root: Some(Cover { point: 0, children: [Cover { point: 1, children: \
         [Cover { point: 1, children: [], level: 1, max_distance: None }], level: 2, \
         max_distance: None }], level: 2, max_distance: None }), \
         span_factor: SpanFactor { numerator: 13, denominator: 10 }, len: 3 }"
    );
}

#[test]
fn shape_after_a_promotion() {
    // 10 lies beyond twice the cover distance of 0 at level two (3.38). The leaf 1 is
    // detached and becomes the root at level three above 0; twice its cover distance
    // (4.39) does not reach 10 either, so 0, now without children, becomes the root at
    // level four above 1, and so on until twice the cover distance reaches 10.
    let mut ct: CoverTree<i64> = CoverTree::new();
    ct.insert(0);
    ct.insert(1);
    ct.insert(10);
    assert_eq!(ct.len(), 3);
    assert_eq!(ct.find_nearest(0), Some(0));
    assert_eq!(ct.find_nearest(1), Some(1));
    assert_eq!(ct.find_nearest(6), Some(10));
    let shape = format!("{:?}", ct);
    assert!(shape.starts_with("CoverTree { root: Some(Cover { point: 10, children: [Cover {"));
}
