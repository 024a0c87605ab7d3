use pixel_widgets::bitset::BitSet;

fn bits(s: &BitSet) -> Vec<usize> {
    let mut it = s.iter();
    let mut out = Vec::new();
    while let Some(b) = it.next() {
        out.push(b);
    }
    out
}

#[test]
fn new_set_is_empty() {
    let s = BitSet::new();
    assert!(bits(&s).is_empty());
    assert!(s == BitSet::Small(0));
}

#[test]
fn insert_then_iterate_in_order() {
    let mut s = BitSet::new();
    s.insert(5);
    s.insert(3);
    s.insert(0);
    assert_eq!(bits(&s), vec![0, 3, 5]);
}

#[test]
fn insert_is_idempotent() {
    let mut a = BitSet::new();
    a.insert(7);
    let mut b = BitSet::new();
    b.insert(7);
    b.insert(7);
    assert!(a == b);
    assert_eq!(bits(&b), vec![7]);
}

#[test]
fn insert_bit_31_sets_the_upper_half() {
    let mut s = BitSet::new();
    s.insert(31);
    assert_eq!(bits(&s), (31..64).collect::<Vec<usize>>());
}

#[test]
fn insert_into_large_set() {
    let mut s = BitSet::Large(vec![0, 1]);
    s.insert(2);
    assert_eq!(bits(&s), vec![2, 64]);
}

#[test]
fn remove_clears_the_bit() {
    let mut s = BitSet::new();
    s.insert(1);
    s.insert(4);
    s.remove(1);
    assert_eq!(bits(&s), vec![4]);
    s.remove(9);
    assert_eq!(bits(&s), vec![4]);
}

#[test]
fn remove_on_small_set_wraps_the_bit() {
    let mut s = BitSet::new();
    s.insert(0);
    s.remove(64);
    assert!(bits(&s).is_empty());
}

#[test]
fn remove_on_large_set_drops_trailing_zero_blocks() {
    let mut s = BitSet::Large(vec![1, 2]);
    s.remove(65);
    assert!(s == BitSet::Large(vec![1]));
    assert!(s == BitSet::Small(1));
    assert_eq!(bits(&s), vec![0]);
}

#[test]
fn remove_beyond_the_blocks_of_a_large_set() {
    let mut s = BitSet::Large(vec![1]);
    s.remove(200);
    assert_eq!(bits(&s), vec![0]);
}

#[test]
fn iterate_large_set_over_blocks() {
    let s = BitSet::Large(vec![1, 0, 0x8000_0000_0000_0001]);
    assert_eq!(bits(&s), vec![0, 128, 191]);
}

#[test]
fn iterate_empty_large_set() {
    let s = BitSet::Large(vec![]);
    assert!(bits(&s).is_empty());
}

#[test]
fn from_iter_inserts_each() {
    let s = BitSet::from_iter(vec![2, 1, 2]);
    assert!(s == BitSet::Small(6));
    assert_eq!(bits(&s), vec![1, 2]);
}

#[test]
fn equality_between_representations() {
    assert!(BitSet::Small(0) == BitSet::Large(vec![]));
    assert!(BitSet::Small(5) == BitSet::Large(vec![5]));
    assert!(BitSet::Small(1) != BitSet::Large(vec![1, 0]));
    assert!(BitSet::Large(vec![1, 2]) == BitSet::Large(vec![1, 2]));
    assert!(BitSet::Large(vec![1, 2]) != BitSet::Large(vec![1, 3]));
    assert!(BitSet::Small(3) != BitSet::Small(1));
}

#[test]
fn clone_keeps_the_bits() {
    let s = BitSet::Large(vec![3, 4]);
    let c = s.clone();
    assert!(c == s);
    assert_eq!(bits(&c), vec![0, 1, 66]);
}
