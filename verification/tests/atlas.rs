use std::sync::Arc;

use pixel_widgets::atlas::{ceil_pow2, downgrade, Area, Atlas};
use pixel_widgets::qtree::QTree;

fn area(left: usize, top: usize, right: usize, bottom: usize) -> Area {
    Area { left, top, right, bottom }
}

#[test]
fn ceil_pow2_rounds_up() {
    assert_eq!(ceil_pow2(0), 1);
    assert_eq!(ceil_pow2(1), 1);
    assert_eq!(ceil_pow2(3), 4);
    assert_eq!(ceil_pow2(4), 4);
    assert_eq!(ceil_pow2(5), 8);
    assert_eq!(ceil_pow2(1000), 1024);
}

#[test]
fn new_atlas_is_vacant() {
    let a: Atlas<u32> = Atlas::new(8);
    assert_eq!(a.size(), 8);
    assert_eq!(a.area(), area(0, 0, 8, 8));
    assert!(matches!(a, Atlas::Vacant(_)));
}

#[test]
fn atlas_fills_quarters_in_order() {
    let mut a: Atlas<u32> = Atlas::new(8);
    assert_eq!(a.insert(1, 3).ok(), Some(area(0, 0, 4, 4)));
    assert_eq!(a.insert(2, 4).ok(), Some(area(4, 0, 8, 4)));
    assert_eq!(a.insert(3, 4).ok(), Some(area(0, 4, 4, 8)));
    assert_eq!(a.insert(4, 2).ok(), Some(area(4, 4, 6, 6)));
    assert_eq!(a.insert(5, 1).ok(), Some(area(6, 4, 7, 5)));
    assert_eq!(a.area(), area(0, 0, 8, 8));
}

#[test]
fn full_atlas_gives_the_value_back() {
    let mut a: Atlas<u32> = Atlas::new(4);
    assert_eq!(a.insert(1, 4).ok(), Some(area(0, 0, 4, 4)));
    match a.insert(2, 4) {
        Err(v) => assert_eq!(v, 2),
        Ok(_) => panic!("the atlas is full"),
    }
    assert!(matches!(a, Atlas::Occupied(_, 1)));
}

#[test]
fn expired_values_free_their_area() {
    let mut a = Atlas::new(8);
    let one = Arc::new(1u32);
    let two = Arc::new(2u32);
    assert_eq!(a.insert(downgrade(&one), 4).ok(), Some(area(0, 0, 4, 4)));
    assert_eq!(a.insert(downgrade(&two), 4).ok(), Some(area(4, 0, 8, 4)));
    assert!(!a.remove_expired());
    drop(one);
    assert!(!a.remove_expired());
    let three = Arc::new(3u32);
    assert_eq!(a.insert(downgrade(&three), 4).ok(), Some(area(0, 0, 4, 4)));
    drop(two);
    drop(three);
    assert!(a.remove_expired());
    assert!(matches!(a, Atlas::Vacant(_)));
    assert_eq!(a.area(), area(0, 0, 8, 8));
}

fn leaves(t: &QTree<u32>) -> Vec<(u32, (usize, usize, usize, usize, usize))> {
    let mut it = t.iter();
    let mut out = Vec::new();
    while let Some((v, a)) = it.next() {
        out.push((*v, (a.left, a.top, a.right, a.bottom, a.size)));
    }
    out
}

fn placed(r: Result<pixel_widgets::qtree::Area, ()>) -> (usize, usize, usize, usize, usize) {
    match r {
        Ok(a) => (a.left, a.top, a.right, a.bottom, a.size),
        Err(()) => panic!("the value was refused"),
    }
}

#[test]
fn qtree_new_is_empty() {
    let t: QTree<u32> = QTree::new(8);
    assert_eq!(t.size(), 8);
    assert!(leaves(&t).is_empty());
}

#[test]
fn qtree_places_squares_in_quarter_order() {
    let mut t = QTree::new(8);
    assert_eq!(placed(t.insert(1, 3)), (0, 0, 4, 4, 8));
    assert_eq!(placed(t.insert(2, 4)), (4, 0, 8, 4, 8));
    assert_eq!(placed(t.insert(3, 4)), (0, 4, 4, 8, 8));
    assert_eq!(placed(t.insert(4, 4)), (4, 4, 8, 8, 8));
    assert!(t.insert(5, 1).is_err());
    assert_eq!(t.size(), 8);
}

#[test]
fn qtree_walk_skips_the_last_quarter() {
    let mut t = QTree::new(8);
    placed(t.insert(1, 4));
    placed(t.insert(2, 4));
    placed(t.insert(3, 4));
    placed(t.insert(4, 4));
    assert_eq!(
        leaves(&t),
        vec![(1, (0, 0, 4, 4, 8)), (2, (4, 0, 8, 4, 8)), (3, (0, 4, 4, 8, 8))]
    );
}

#[test]
fn qtree_splits_down_to_small_squares() {
    let mut t = QTree::new(4);
    assert_eq!(placed(t.insert(7, 1)), (0, 0, 1, 1, 4));
    assert_eq!(placed(t.insert(8, 1)), (1, 0, 2, 1, 4));
    assert_eq!(placed(t.insert(9, 2)), (2, 0, 4, 2, 4));
    assert_eq!(leaves(&t), vec![(7, (0, 0, 1, 1, 4)), (8, (1, 0, 2, 1, 4)), (9, (2, 0, 4, 2, 4))]);
}

#[test]
fn qtree_whole_square_is_a_leaf_root() {
    let mut t = QTree::new(4);
    assert_eq!(placed(t.insert(1, 4)), (0, 0, 4, 4, 4));
    assert_eq!(leaves(&t), vec![(1, (0, 0, 4, 4, 4))]);
    assert!(t.insert(2, 1).is_err());
    assert_eq!(leaves(&t), vec![(1, (0, 0, 4, 4, 4))]);
}

#[test]
fn qtree_of_uneven_side() {
    let mut t = QTree::new(6);
    assert_eq!(placed(t.insert(1, 3)), (0, 0, 3, 3, 6));
}

fn occupied_values(a: &Atlas<u32>) -> Vec<u32> {
    match a {
        Atlas::Split(_, cs) => {
            let mut v = occupied_values(&cs.0);
            v.extend(occupied_values(&cs.1));
            v.extend(occupied_values(&cs.2));
            v.extend(occupied_values(&cs.3));
            v
        }
        Atlas::Vacant(_) => Vec::new(),
        Atlas::Occupied(_, x) => vec![*x],
    }
}

#[test]
fn prune_frees_exactly_the_flagged_areas() {
    let mut a: Atlas<u32> = Atlas::new(8);
    a.insert(1, 4).ok().unwrap();
    a.insert(2, 4).ok().unwrap();
    a.insert(3, 2).ok().unwrap();
    assert_eq!(occupied_values(&a), vec![1, 2, 3]);
    assert!(!a.prune(&vec![false, true, false]));
    assert_eq!(occupied_values(&a), vec![1, 3]);
    assert_eq!(a.insert(4, 4).ok(), Some(area(4, 0, 8, 4)));
    assert!(!a.prune(&vec![true, false, true]));
    assert_eq!(occupied_values(&a), vec![4]);
    assert!(a.prune(&vec![true]));
    assert!(matches!(a, Atlas::Vacant(_)));
    assert_eq!(a.area(), area(0, 0, 8, 8));
}

#[test]
fn expiry_flags_follow_the_dropped_values() {
    let mut a = Atlas::new(8);
    let one = Arc::new(1u32);
    let two = Arc::new(2u32);
    a.insert(downgrade(&one), 4).ok().unwrap();
    a.insert(downgrade(&two), 4).ok().unwrap();
    assert_eq!(a.expiry_flags(), vec![false, false]);
    drop(two);
    assert_eq!(a.expiry_flags(), vec![false, true]);
    assert!(!a.remove_expired());
    assert_eq!(a.expiry_flags(), vec![false]);
    drop(one);
    assert!(a.remove_expired());
}

#[test]
fn refused_insert_leaves_the_atlas_unchanged() {
    let mut a: Atlas<u32> = Atlas::new(8);
    a.insert(1, 4).ok().unwrap();
    a.insert(2, 4).ok().unwrap();
    a.insert(3, 4).ok().unwrap();
    a.insert(4, 4).ok().unwrap();
    let before = occupied_values(&a);
    assert_eq!(a.insert(5, 4).err(), Some(5));
    assert_eq!(occupied_values(&a), before);
    assert_eq!(a.area(), area(0, 0, 8, 8));
}

#[test]
fn qtree_squares_are_aligned_within_the_tree() {
    let mut t = QTree::new(16);
    for (v, size) in [(1u32, 3usize), (2, 8), (3, 1), (4, 5), (5, 2)] {
        let (left, top, right, bottom, side) = placed(t.insert(v, size));
        let k = ceil_pow2(size);
        assert_eq!((right - left, bottom - top, side), (k, k, 16));
        assert_eq!((left % k, top % k), (0, 0));
        assert!(right <= 16 && bottom <= 16);
    }
}

#[test]
fn atlas_squares_are_aligned_within_the_atlas() {
    let mut a: Atlas<u32> = Atlas::new(32);
    // larger squares first: a square is never asked of a split node whose quarters are narrower
    for (v, size) in [(1u32, 16usize), (2, 9), (3, 5), (4, 3), (5, 1)] {
        let r = a.insert(v, size).ok().expect("there is room");
        let k = ceil_pow2(size);
        assert_eq!((r.right - r.left, r.bottom - r.top), (k, k));
        assert_eq!((r.left % k, r.top % k), (0, 0));
        assert!(r.right <= 32 && r.bottom <= 32);
    }
}
