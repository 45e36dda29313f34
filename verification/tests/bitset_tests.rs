use branchbound::order::Order;
use branchbound::BitSet;
use std::cmp::Ordering;
use std::collections::hash_map::DefaultHasher;
use std::hash::{Hash, Hasher};

fn set_of(elements: &[u32]) -> BitSet {
    let mut set = BitSet::new();
    for &e in elements {
        set.insert(e);
    }
    set
}

fn hash_of(set: &BitSet) -> u64 {
    let mut hasher = DefaultHasher::new();
    set.hash(&mut hasher);
    hasher.finish()
}

#[test]
fn test_basic_operations() {
    let mut set1 = BitSet::new();
    set1.insert(1);
    set1.insert(3);
    set1.insert(5);

    let mut set2 = BitSet::new();
    set2.insert(3);
    set2.insert(5);
    set2.insert(7);

    assert_eq!(set1.len(), 3);
    assert!(set1.contains(1));
    assert!(!set1.contains(7));

    let union = set1.union(&set2);
    assert_eq!(union.len(), 4);
    assert!(union.contains(1));
    assert!(union.contains(7));

    let intersection = set1.intersection(&set2);
    assert_eq!(intersection.len(), 2);
    assert!(intersection.contains(3));
    assert!(intersection.contains(5));

    let difference = set1.difference(&set2);
    assert_eq!(difference.len(), 1);
    assert!(difference.contains(1));
    assert!(!difference.contains(3));
}

#[test]
fn test_subset() {
    let mut set1 = BitSet::new();
    set1.insert(1);
    set1.insert(3);

    let mut set2 = BitSet::new();
    set2.insert(1);
    set2.insert(3);
    set2.insert(5);

    assert!(set1.is_subset(&set2));
    assert!(!set2.is_subset(&set1));
    assert!(set2.is_superset(&set1));
}

#[test]
fn test_large_values() {
    let mut set = BitSet::new();

    // values beyond 128
    set.insert(150);
    set.insert(200);
    set.insert(1000);

    assert!(set.contains(150));
    assert!(set.contains(200));
    assert!(set.contains(1000));
    assert!(!set.contains(151));

    assert_eq!(set.len(), 3);

    // the elements, with large values
    let mut elements: Vec<u32> = set.to_vec();
    elements.sort();
    assert_eq!(elements, vec![150, 200, 1000]);
}

#[test]
fn test_operations_with_large_values() {
    let mut set1 = BitSet::new();
    set1.insert(10);
    set1.insert(150);
    set1.insert(300);

    let mut set2 = BitSet::new();
    set2.insert(150);
    set2.insert(300);
    set2.insert(400);

    let union = set1.union(&set2);
    assert_eq!(union.len(), 4);
    assert!(union.contains(10));
    assert!(union.contains(400));

    let intersection = set1.intersection(&set2);
    assert_eq!(intersection.len(), 2);
    assert!(intersection.contains(150));
    assert!(intersection.contains(300));

    let difference = set1.difference(&set2);
    assert_eq!(difference.len(), 1);
    assert!(difference.contains(10));
}

#[test]
fn empty_set_identities() {
    let a = set_of(&[0, 63, 64, 200]);
    let empty = BitSet::new();
    assert!(a.union(&empty) == a);
    assert!(a.intersection(&empty) == empty);
    assert!(a.difference(&empty) == a);
    assert!(empty.difference(&a) == empty);
    assert!(empty.is_empty());
    assert!(!a.is_empty());
    assert_eq!(empty.len(), 0);
    assert!(BitSet::default() == empty);
}

#[test]
fn union_and_intersection_laws() {
    let a = set_of(&[1, 2, 70]);
    let b = set_of(&[2, 3, 500]);
    let c = set_of(&[3, 70, 9]);
    assert!(a.union(&b) == b.union(&a));
    assert!(a.intersection(&b) == b.intersection(&a));
    assert!(a.union(&b).union(&c) == a.union(&b.union(&c)));
    assert!(a.intersection(&b).intersection(&c) == a.intersection(&b.intersection(&c)));
    assert!(a.union(&a) == a);
    assert!(a.intersection(&a) == a);
}

#[test]
fn union_size_formula() {
    let a = set_of(&[1, 2, 70, 71]);
    let b = set_of(&[2, 70, 900]);
    assert_eq!(a.union(&b).len(), 5);
    assert_eq!(a.len() + b.len() - a.intersection(&b).len(), 5);
}

#[test]
fn subset_by_union_and_difference() {
    let a = set_of(&[5, 130]);
    let b = set_of(&[5, 6, 130]);
    assert!(a.is_subset(&b));
    assert!(a.union(&b) == b);
    assert!(a.difference(&b).is_empty());
    assert!(!b.is_subset(&a));
    assert!(b.union(&a) != a);
    assert!(!b.difference(&a).is_empty());
}

#[test]
fn subset_with_longer_left_side() {
    let a = set_of(&[1, 200]);
    let b = set_of(&[1]);
    assert!(!a.is_subset(&b));
    assert!(b.is_subset(&a));
    assert!(BitSet::new().is_subset(&b));
}

#[test]
fn round_trip_through_elements() {
    let a = set_of(&[900, 3, 64, 63, 0]);
    let elements = a.to_vec();
    assert_eq!(elements, vec![0, 3, 63, 64, 900]);
    let as_i32: Vec<i32> = elements.iter().map(|&e| e as i32).collect();
    let again = BitSet::bitset_from_iter(&as_i32);
    assert!(again == a);
}

#[test]
fn from_elements_merges_repeats() {
    let set = BitSet::bitset_from_iter(&[7, 7, 1, 128, 1]);
    assert_eq!(set.len(), 3);
    assert_eq!(set.to_vec(), vec![1, 7, 128]);
    assert!(BitSet::bitset_from_iter(&[]).is_empty());
}

#[test]
fn iteration_is_ascending() {
    let a = set_of(&[4096, 65, 64, 2, 1_000_000]);
    let mut it = a.iter();
    let mut seen = Vec::new();
    while let Some(e) = it.next() {
        seen.push(e);
    }
    assert_eq!(seen, vec![2, 64, 65, 4096, 1_000_000]);
    assert_eq!(it.next(), None);
    assert_eq!(it.next(), None);
    let empty = BitSet::new();
    let mut none = empty.iter();
    assert_eq!(none.next(), None);
}

#[test]
fn singleton_and_insert() {
    let s = BitSet::singleton(77);
    assert_eq!(s.to_vec(), vec![77]);
    let mut t = BitSet::new();
    t.insert(77);
    t.insert(77);
    assert!(s == t);
    assert_eq!(t.len(), 1);
    let top = BitSet::singleton(u32::MAX);
    assert!(top.contains(u32::MAX));
    assert!(!top.contains(u32::MAX - 1));
    assert_eq!(top.len(), 1);
}

#[test]
fn in_place_operations() {
    let a = set_of(&[1, 2, 300]);
    let b = set_of(&[2, 300, 301]);
    let mut u = a.clone();
    u.union_assign(&b);
    assert!(u == a.union(&b));
    let mut i = a.clone();
    i.intersection_assign(&b);
    assert!(i == a.intersection(&b));
    let mut d = a.clone();
    d.difference_assign(&b);
    assert!(d == a.difference(&b));
    assert_eq!(d.to_vec(), vec![1]);
}

#[test]
fn trailing_words_are_trimmed() {
    // the results hold no element past 64, and must equal sets never grown past it
    let a = set_of(&[1, 500]);
    let b = set_of(&[1, 2]);
    let small = set_of(&[1]);
    assert!(a.intersection(&b) == small);
    assert_eq!(hash_of(&a.intersection(&b)), hash_of(&small));
    let mut c = a.clone();
    c.intersection_assign(&b);
    assert!(c == small);
    assert_eq!(hash_of(&c), hash_of(&small));
    let mut d = a.clone();
    d.difference_assign(&set_of(&[500]));
    assert!(d == small);
    assert_eq!(hash_of(&d), hash_of(&small));
    assert!(a.difference(&set_of(&[500])) == small);
    assert!(a.difference(&a) == BitSet::new());
    assert_eq!(hash_of(&a.difference(&a)), hash_of(&BitSet::new()));
}

#[test]
fn equal_sets_hash_alike() {
    let a = set_of(&[3, 64, 129]);
    let b = set_of(&[129, 3, 64, 3]);
    assert!(a == b);
    assert_eq!(hash_of(&a), hash_of(&b));
    assert!(a != set_of(&[3, 64]));
}

#[test]
fn order_is_that_of_the_packed_numbers() {
    let a = set_of(&[0, 1]);
    let b = set_of(&[1]);
    // {0, 1} is 3, {1} is 2
    assert_eq!(a.compare(&b), Order::Greater);
    assert_eq!(b.compare(&a), Order::Less);
    assert_eq!(a.compare(&a), Order::Equal);
    // the largest element in which the sets differ decides
    assert_eq!(BitSet::singleton(0).compare(&BitSet::singleton(64)), Order::Less);
    assert_eq!(BitSet::singleton(64).compare(&BitSet::singleton(0)), Order::Greater);
    assert_eq!(
        BitSet::singleton(0).partial_cmp(&BitSet::singleton(64)),
        Some(Ordering::Less)
    );
    let c = set_of(&[5, 64]);
    let d = set_of(&[6]);
    assert_eq!(c.compare(&d), Order::Greater);
    assert_eq!(set_of(&[5, 200]).compare(&set_of(&[6, 200])), Order::Less);
    assert_eq!(set_of(&[5, 64, 200]).compare(&set_of(&[6, 200])), Order::Greater);
    // a set comes after the sets it extends upwards
    let e = set_of(&[6, 200]);
    assert_eq!(d.compare(&e), Order::Less);
    assert_eq!(BitSet::new().compare(&d), Order::Less);
    assert_eq!(BitSet::new().compare(&BitSet::new()), Order::Equal);
    assert!(b.comes_before(&a));
    assert!(!a.comes_before(&b));
    assert!(!a.comes_before(&a));
    assert!(BitSet::singleton(0) < BitSet::singleton(64));
}

#[test]
fn order_is_a_total_order() {
    let sets = vec![
        BitSet::new(),
        set_of(&[0]),
        set_of(&[1]),
        set_of(&[0, 1]),
        set_of(&[63]),
        set_of(&[64]),
        set_of(&[0, 64]),
        set_of(&[1, 64, 128]),
    ];
    for (i, a) in sets.iter().enumerate() {
        assert_eq!(a.partial_cmp(a), Some(Ordering::Equal));
        for (j, b) in sets.iter().enumerate() {
            let ab = a.partial_cmp(b).unwrap();
            let ba = b.partial_cmp(a).unwrap();
            assert_eq!(ab, ba.reverse());
            assert_eq!(ab == Ordering::Equal, a == b);
            // the sets are listed in the order of their numbers
            assert_eq!(ab, i.cmp(&j));
            assert_eq!(a < b, ab == Ordering::Less);
            for c in &sets {
                if a <= b && b <= c {
                    assert!(a <= c);
                }
            }
        }
    }
}

#[test]
fn bits_packs_the_first_two_words() {
    assert_eq!(BitSet::new().bits(), 0);
    assert_eq!(set_of(&[0, 3]).bits(), 9);
    assert_eq!(set_of(&[64]).bits(), 1u128 << 64);
    assert_eq!(set_of(&[1, 127, 128]).bits(), 2 | (1u128 << 127));
}

#[test]
fn operators_are_the_set_operations() {
    let a = set_of(&[1, 2, 300]);
    let b = set_of(&[2, 300, 301]);
    assert!((&a | &b) == a.union(&b));
    assert!((&a & &b) == a.intersection(&b));
    assert!((&a - &b) == a.difference(&b));
    assert!((a.clone() | b.clone()) == a.union(&b));
    assert!((a.clone() | &b) == a.union(&b));
    assert!((&a | b.clone()) == a.union(&b));
    assert!((a.clone() & b.clone()) == a.intersection(&b));
    assert!((a.clone() & &b) == a.intersection(&b));
    assert!((&a & b.clone()) == a.intersection(&b));
    assert!((a.clone() - b.clone()) == a.difference(&b));
    assert!((a.clone() - &b) == a.difference(&b));
    assert!((&a - b.clone()) == a.difference(&b));
    assert_eq!((&b - &a).to_vec(), vec![301]);
}
