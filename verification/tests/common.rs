use covertree::{CoverTree, NearestNeighbor};

fn through_the_trait<T: NearestNeighbor<i64>>(index: &mut T) -> (usize, Option<i64>) {
    index.insert(3);
    index.insert(4);
    index.insert(40);
    (index.count(), index.find_nearest(30))
}

#[test]
fn index_through_the_trait() {
    let mut ct: CoverTree<i64> = CoverTree::new();
    assert_eq!(through_the_trait(&mut ct), (3, Some(40)));
    assert_eq!(ct.len(), 3);
}

#[test]
fn trait_removal_says_why_it_fails() {
    let mut ct: CoverTree<i64> = CoverTree::new();
    assert!(NearestNeighbor::remove(&mut ct, 3).is_err());
    NearestNeighbor::insert(&mut ct, 3);
    NearestNeighbor::insert(&mut ct, 4);
    assert_eq!(NearestNeighbor::remove(&mut ct, 4), Ok(4));
    assert_eq!(NearestNeighbor::count(&ct), 1);
    assert_eq!(
        NearestNeighbor::remove(&mut ct, 3),
        Err("no such point beneath the root".to_string())
    );
    assert_eq!(NearestNeighbor::remove(&mut ct, 99).is_err(), true);
    assert_eq!(NearestNeighbor::count(&ct), 1);
    assert_eq!(NearestNeighbor::find_nearest(&mut ct, 99), Some(3));
}
