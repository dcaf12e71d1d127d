use covertree::{Cover, CoverTree, SpanFactor};

fn tree_of(numerator: u16, denominator: u16, points: &[i64]) -> CoverTree<i64> {
    let span_factor = SpanFactor::new(numerator, denominator).unwrap();
    let mut ct: CoverTree<i64> = CoverTree::with_span_factor(span_factor);
    ct.insert_all(points.to_vec());
    ct
}

fn shape(ct: &CoverTree<i64>) -> String {
    format!("{:?}", ct)
}

#[test]
fn first_of_equally_near_points_is_found() {
    // 10 and 16 are children of 20 and equally near to 13. The one that stands first
    // among the children is found.
    let mut ct = tree_of(5, 1, &[20, 24, 10, 16]);
    assert_eq!(ct.find_nearest(13), Some(10));
    let mut ct = tree_of(5, 1, &[20, 24, 16, 10]);
    assert_eq!(ct.find_nearest(13), Some(16));
    // The root is looked at first.
    let mut ct = tree_of(5, 1, &[20, 24, 16]);
    assert_eq!(ct.find_nearest(18), Some(20));
    assert_eq!(ct.find_nearest(22), Some(20));
}

#[test]
fn search_sorts_children_and_remembers_distances() {
    let mut ct = tree_of(5, 1, &[20, 24, 10, 16]);
    assert_eq!(
        shape(&ct),
        "CoverTree { root: Some(Cover { point: 20, children: [\
         Cover { point: 24, children: [], level: 1, max_distance: None }, \
         Cover { point: 10, children: [], level: 1, max_distance: None }, \
         Cover { point: 16, children: [], level: 1, max_distance: None }], \
         level: 2, max_distance: None }), \
         span_factor: SpanFactor { numerator: 5, denominator: 1 }, len: 4 }"
    );
    assert_eq!(ct.find_nearest(13), Some(10));
    assert_eq!(
        shape(&ct),
        "CoverTree { root: Some(Cover { point: 20, children: [\
         Cover { point: 10, children: [], level: 1, max_distance: Some(0) }, \
         Cover { point: 16, children: [], level: 1, max_distance: Some(0) }, \
         Cover { point: 24, children: [], level: 1, max_distance: Some(0) }], \
         level: 2, max_distance: None }), \
         span_factor: SpanFactor { numerator: 5, denominator: 1 }, len: 4 }"
    );
}

#[test]
fn search_remembers_the_distance_to_the_farthest_descendent() {
    // 10 lies beyond the cover distance of 20 and becomes the root above it; 16 goes
    // beneath 20, four away from it.
    let mut ct = tree_of(5, 1, &[20, 10, 16]);
    assert_eq!(ct.find_nearest(13), Some(10));
    assert_eq!(
        shape(&ct),
        "CoverTree { root: Some(Cover { point: 10, children: [\
         Cover { point: 20, children: [\
         Cover { point: 16, children: [], level: 1, max_distance: None }], \
         level: 2, max_distance: Some(4) }], \
         level: 2, max_distance: None }), \
         span_factor: SpanFactor { numerator: 5, denominator: 1 }, len: 3 }"
    );
    assert!(ct.is_coherent());
    // An insertion beneath 20 makes it forget.
    ct.insert(21);
    assert!(ct.is_coherent());
    assert_eq!(ct.find_nearest(22), Some(21));
    assert!(ct.is_coherent());
}

#[test]
fn removal_moves_the_last_child_into_the_gap() {
    let mut ct = tree_of(5, 1, &[20, 16, 10, 24, 30]);
    assert_eq!(ct.find_nearest(0), Some(10));
    assert_eq!(ct.remove(16), Some(16));
    assert_eq!(
        shape(&ct),
        "CoverTree { root: Some(Cover { point: 20, children: [\
         Cover { point: 30, children: [], level: 1, max_distance: Some(0) }, \
         Cover { point: 10, children: [], level: 1, max_distance: Some(0) }, \
         Cover { point: 24, children: [], level: 1, max_distance: Some(0) }], \
         level: 2, max_distance: None }), \
         span_factor: SpanFactor { numerator: 5, denominator: 1 }, len: 4 }"
    );
    // A removal that finds nothing leaves the children sorted by their distance to the
    // point it looked for.
    assert_eq!(ct.remove(99), None);
    assert_eq!(
        shape(&ct),
        "CoverTree { root: Some(Cover { point: 20, children: [\
         Cover { point: 30, children: [], level: 1, max_distance: Some(0) }, \
         Cover { point: 24, children: [], level: 1, max_distance: Some(0) }, \
         Cover { point: 10, children: [], level: 1, max_distance: Some(0) }], \
         level: 2, max_distance: None }), \
         span_factor: SpanFactor { numerator: 5, denominator: 1 }, len: 4 }"
    );
}

#[test]
fn removal_beneath_a_child() {
    let mut ct = tree_of(2, 1, &[0, 1, 2, -2, -1, -3]);
    assert_eq!(
        shape(&ct),
        "CoverTree { root: Some(Cover { point: 0, children: [\
         Cover { point: 1, children: [\
         Cover { point: 2, children: [], level: 1, max_distance: None }, \
         Cover { point: -2, children: [\
         Cover { point: -1, children: [\
         Cover { point: -3, children: [], level: 1, max_distance: None }], \
         level: 2, max_distance: None }], level: 2, max_distance: None }], \
         level: 2, max_distance: None }], level: 2, max_distance: None }), \
         span_factor: SpanFactor { numerator: 2, denominator: 1 }, len: 6 }"
    );
    // -1 goes with -3 beneath it, and the children of 1 are left sorted by their distance
    // to -1.
    assert_eq!(ct.remove(-1), Some(-1));
    assert_eq!(
        shape(&ct),
        "CoverTree { root: Some(Cover { point: 0, children: [\
         Cover { point: 1, children: [\
         Cover { point: -2, children: [], level: 2, max_distance: None }, \
         Cover { point: 2, children: [], level: 1, max_distance: None }], \
         level: 2, max_distance: None }], level: 2, max_distance: None }), \
         span_factor: SpanFactor { numerator: 2, denominator: 1 }, len: 5 }"
    );
}

#[test]
fn promotion_raises_a_chain() {
    // 10 lies beyond twice the cover distance of 0 at level two. The leaf 1 is detached
    // and becomes the root above 0; then 0, now a leaf, becomes the root above 1; and so
    // on, level by level, until twice the cover distance reaches 10.
    let ct = tree_of(13, 10, &[0, 1, 10]);
    assert_eq!(
        shape(&ct),
        "CoverTree { root: Some(Cover { point: 10, children: [\
         Cover { point: 1, children: [\
         Cover { point: 0, children: [], level: 6, max_distance: None }], \
         level: 7, max_distance: None }], level: 8, max_distance: None }), \
         span_factor: SpanFactor { numerator: 13, denominator: 10 }, len: 3 }"
    );
}

#[test]
fn promotion_takes_leaves_from_deep_down() {
    let mut ct = tree_of(13, 10, &[0, 1, 2, 1, 3]);
    assert_eq!(
        shape(&ct),
        "CoverTree { root: Some(Cover { point: 2, children: [\
         Cover { point: 0, children: [\
         Cover { point: 1, children: [\
         Cover { point: 1, children: [], level: 1, max_distance: None }], \
         level: 2, max_distance: None }], level: 2, max_distance: None }, \
         Cover { point: 3, children: [], level: 2, max_distance: None }], \
         level: 3, max_distance: None }), \
         span_factor: SpanFactor { numerator: 13, denominator: 10 }, len: 5 }"
    );
    ct.insert(40);
    assert_eq!(
        shape(&ct),
        "CoverTree { root: Some(Cover { point: 40, children: [\
         Cover { point: 0, children: [\
         Cover { point: 1, children: [\
         Cover { point: 1, children: [\
         Cover { point: 3, children: [\
         Cover { point: 2, children: [], level: 8, max_distance: None }], \
         level: 9, max_distance: None }], level: 10, max_distance: None }], \
         level: 11, max_distance: None }], level: 12, max_distance: None }], \
         level: 13, max_distance: None }), \
         span_factor: SpanFactor { numerator: 13, denominator: 10 }, len: 6 }"
    );
    // No point is lost on the way.
    for point in [0i64, 1, 2, 3, 40] {
        assert_eq!(ct.find_nearest(point), Some(point));
    }
}

#[test]
fn copy_is_equal_and_apart() {
    let mut ct = tree_of(13, 10, &[5, 6, 16, 23, 1, 11]);
    ct.find_nearest(7);
    let mut copy = ct.clone();
    assert_eq!(copy, ct);
    assert_eq!(shape(&copy), shape(&ct));
    assert_eq!(copy.len(), 6);
    copy.insert(100);
    assert_ne!(copy, ct);
    assert_eq!(ct.len(), 6);
    assert_eq!(ct.find_nearest(90), Some(23));
    assert_eq!(copy.find_nearest(90), Some(100));
    let empty: CoverTree<i64> = CoverTree::new();
    assert_eq!(empty.clone(), empty);
}

#[test]
fn copy_of_a_node() {
    let mut node: Cover<i32> = Cover::new(3, 2);
    node.find_nearest(0, None);
    let copy = node.clone();
    assert_eq!(copy, node);
    assert_eq!(
        format!("{:?}", copy),
        "Cover { point: 3, children: [], level: 2, max_distance: None }"
    );
}
