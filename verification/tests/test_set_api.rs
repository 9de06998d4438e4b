use escapegoat::bounds::Bound::{Excluded, Included};
use escapegoat::set_types::{Difference, Intersection, IntoIter, Iter, Range, SymmetricDifference, Union};
use escapegoat::{SgError, SgSet};

const DEFAULT_CAPACITY: usize = 10;

fn refs<'a, const N: usize>(mut it: Iter<'a, usize, N>) -> Vec<&'a usize> {
    let mut out = Vec::new();
    while let Some(k) = it.next() {
        out.push(k);
    }
    out
}

fn owned<const N: usize>(mut it: IntoIter<usize, N>) -> Vec<usize> {
    let mut out = Vec::new();
    while let Some(k) = it.next() {
        out.push(k);
    }
    out
}

fn in_range<'a, const N: usize>(mut it: Range<'a, usize, N>) -> Vec<&'a usize> {
    let mut out = Vec::new();
    while let Some(k) = it.next() {
        out.push(k);
    }
    out
}

fn of_union<const N: usize>(mut it: Union<'_, usize, N>) -> Vec<usize> {
    let mut out = Vec::new();
    while let Some(k) = it.next() {
        out.push(*k);
    }
    out
}

fn of_intersection<const N: usize>(mut it: Intersection<'_, usize, N>) -> Vec<usize> {
    let mut out = Vec::new();
    while let Some(k) = it.next() {
        out.push(*k);
    }
    out
}

fn of_difference<const N: usize>(mut it: Difference<'_, usize, N>) -> Vec<usize> {
    let mut out = Vec::new();
    while let Some(k) = it.next() {
        out.push(*k);
    }
    out
}

fn of_symmetric_difference<const N: usize>(mut it: SymmetricDifference<'_, usize, N>) -> Vec<usize> {
    let mut out = Vec::new();
    while let Some(k) = it.next() {
        out.push(*k);
    }
    out
}

// Normal APIs ---------------------------------------------------------------------------------------------------------

#[test]
fn test_clone() {
    let sgs_1 = SgSet::<usize, 6>::from_iter(vec![3, 4, 1, 2, 5, 6]);
    let sgs_2 = sgs_1.clone();
    assert!(sgs_1.equals(&sgs_2));
    assert_eq!(refs(sgs_1.iter()), refs(sgs_2.iter()));
}

#[test]
fn test_basic_set_functionality() {
    let mut sgs = SgSet::<usize, 10>::new();

    assert!(sgs.is_empty());

    sgs.insert(1);
    sgs.insert(2);
    sgs.insert(3);
    sgs.insert(4);
    sgs.insert(5);

    assert!(!sgs.is_empty());
    assert_eq!(sgs.len(), 5);

    for k in 1..=5 {
        assert!(sgs.contains(&k));
    }

    sgs.remove(&3);

    assert_eq!(refs(sgs.iter()), vec![&1, &2, &4, &5]);

    let val = sgs.pop_first().unwrap();
    assert_eq!(val, 1);

    assert_eq!(refs(sgs.iter()), vec![&2, &4, &5]);

    let val = sgs.pop_last().unwrap();
    assert_eq!(val, 5);

    assert_eq!(refs(sgs.iter()), vec![&2, &4]);

    assert_eq!(sgs.len(), 2);

    sgs.insert(0);
    sgs.insert(3);
    sgs.insert(10);

    assert_eq!(sgs.len(), 5);

    assert_eq!(refs(sgs.iter()), vec![&0, &2, &3, &4, &10]);

    sgs.clear();
    assert_eq!(sgs.len(), 0);
    assert!(sgs.is_empty());

    let empty_vec: Vec<usize> = Vec::new();

    assert_eq!(owned(sgs.into_iter()), empty_vec);
}

#[test]
fn test_set_from_iter() {
    let keys = vec![1, 10, 100];
    let sgs = SgSet::<usize, 3>::from_iter(keys);

    assert!(sgs.len() == 3);
    assert_eq!(owned(sgs.into_iter()), vec![1, 10, 100]);
}

#[test]
fn test_set_iter() {
    let keys = vec![1, 2, 3];
    let sgs = SgSet::<usize, 3>::from_iter(keys);
    let mut sgs_iter = sgs.iter();

    assert_eq!(sgs_iter.next(), Some(&1));
    assert_eq!(sgs_iter.next(), Some(&2));
    assert_eq!(sgs_iter.next(), Some(&3));
    assert_eq!(sgs_iter.next(), None);
}

#[test]
fn test_set_append() {
    let mut a = SgSet::<usize, 10>::new();

    a.insert(1);
    a.insert(2);
    a.insert(3);

    let mut b = SgSet::<usize, 10>::new();

    b.insert(4);
    b.insert(5);
    b.insert(6);
    a.append(&mut b);

    assert!(b.is_empty());
    assert_eq!(a.len(), 6);

    assert_eq!(owned(a.into_iter()), vec![1, 2, 3, 4, 5, 6]);
}

#[test]
fn test_set_intersection() {
    let mut a = SgSet::<usize, 10>::new();

    a.insert(2);
    a.insert(4);
    a.insert(6);
    a.insert(8);
    a.insert(10);

    let mut b = SgSet::<usize, 10>::new();

    b.insert(1);
    b.insert(2);
    b.insert(3);
    b.insert(4);
    b.insert(10);

    let intersection: Vec<_> = of_intersection(a.intersection(&b));
    assert_eq!(intersection, [2, 4, 10]);

    let c: SgSet<usize, 10> = SgSet::new();
    assert!(c.is_empty());

    let intersection: Vec<_> = of_intersection(c.intersection(&b));
    assert!(intersection.is_empty());
}

#[test]
fn test_set_difference() {
    let a = SgSet::<usize, 4>::from_iter(vec![1, 3, 9, 7]);
    let b = SgSet::<usize, 4>::from_iter(vec![2, 8, 9, 1]);
    assert_eq!(of_difference(a.difference(&b)), vec![3, 7]);
}

#[test]
fn test_set_symmetric_difference() {
    let a = SgSet::<usize, 5>::from_iter(vec![1, 2, 3, 4, 5]);
    let b = SgSet::<usize, 5>::from_iter(vec![4, 5, 6, 7, 8]);
    assert_eq!(of_symmetric_difference(a.symmetric_difference(&b)), vec![1, 2, 3, 6, 7, 8]);
}

#[test]
fn test_set_union() {
    let a: SgSet<usize, DEFAULT_CAPACITY> = SgSet::from_iter(vec![1, 3, 9, 7]);
    let b = SgSet::<usize, DEFAULT_CAPACITY>::from_iter(vec![2, 8]);
    assert_eq!(of_union(a.union(&b)), vec![1, 2, 3, 7, 8, 9]);
}

#[test]
fn test_set_is_superset() {
    let a = SgSet::<usize, 4>::from_iter(vec![1, 3, 5]);
    let b = SgSet::<usize, 4>::from_iter(vec![5, 1]);
    let c = SgSet::<usize, 4>::from_iter(vec![1, 3, 4, 5]);
    assert!(a.is_superset(&b));
    assert!(!b.is_superset(&a));
    assert!(!a.is_superset(&c));
}

#[test]
fn test_set_is_subset() {
    let a = SgSet::<usize, DEFAULT_CAPACITY>::from_iter(vec![2, 4, 6]);
    let b = SgSet::<usize, DEFAULT_CAPACITY>::from_iter(vec![1, 2, 3, 4, 5, 6, 7]);
    let c = SgSet::<usize, DEFAULT_CAPACITY>::from_iter(vec![1, 2, 3, 4, 5]);
    assert!(a.is_subset(&b));
    assert!(!b.is_subset(&a));
    assert!(!a.is_subset(&c));
}

#[test]
fn test_set_is_disjoint() {
    let a = SgSet::<usize, 3>::from_iter(vec![1, 2, 3]);
    let b = SgSet::<usize, 3>::from_iter(vec![4, 5, 6]);
    let c = SgSet::<usize, 3>::from_iter(vec![3, 4, 5]);
    assert!(a.is_disjoint(&b));
    assert!(!a.is_disjoint(&c));
}

// Fallible APIs -------------------------------------------------------------------------------------------------------

#[test]
fn test_set_insert_fallible() {
    let mut a = SgSet::<usize, 3>::new();

    assert!(a.try_insert(1).is_ok());
    assert!(a.try_insert(2).is_ok());

    assert_eq!(a.try_insert(3), Ok(true));
    assert_eq!(a.try_insert(1), Ok(false));
    assert_eq!(a.try_insert(4), Err(SgError::StackCapacityExceeded));
}

#[test]
fn test_set_append_fallible() {
    let mut a = SgSet::<usize, 6>::new();

    assert!(a.try_insert(1).is_ok());
    assert!(a.try_insert(2).is_ok());
    assert!(a.try_insert(3).is_ok());

    let mut b = SgSet::<usize, 6>::new();

    assert!(b.try_insert(4).is_ok());
    assert!(b.try_insert(5).is_ok());
    assert!(b.try_insert(6).is_ok());
    assert!(a.try_append(&mut b).is_ok());

    assert!(b.is_empty());
    assert_eq!(b.try_insert(7), Ok(true));

    assert_eq!(a.len(), 6);
    assert_eq!(a.len(), a.capacity());
    assert_eq!(a.try_insert(7), Err(SgError::StackCapacityExceeded));

    assert_eq!(a.pop_last(), Some(6));

    b.clear();
    assert!(b.try_insert(4).is_ok());
    assert!(b.try_insert(5).is_ok());
    assert!(b.try_insert(6).is_ok());

    println!(
        "a_len: {} of {}, b_len: {}, common_len: {}",
        a.len(),
        a.capacity(),
        b.len(),
        refs(a.iter()).into_iter().filter(|k| b.contains(k)).count()
    );

    assert!(a.try_append(&mut b).is_ok());

    assert_eq!(owned(a.into_iter()), vec![1, 2, 3, 4, 5, 6]);
}

// Range APIs ----------------------------------------------------------------------------------------------------------

#[test]
fn test_set_range() {
    let array = vec![1, 5, 3, 7, 9];
    let set = SgSet::<usize, 5>::from_iter(array);

    let range = 3..8;

    let keys: Vec<_> = in_range(set.range(Included(&range.start), Excluded(&range.end)));

    assert!(keys.windows(2).all(|w| w[0] < w[1]));
    assert!(keys.iter().all(|x| range.contains(*x)));
}

#[test]
fn test_set_macro() {
    // Mutable
    let mut set = SgSet::<&str, 4>::new();
    set.insert("a");
    set.insert("b");
    set.insert("c");

    // Immutable
    let mut set_2 = SgSet::<&str, 4>::new();
    set_2.insert("a");
    set_2.insert("b");
    set_2.insert("c");

    assert!(set.equals(&set_2));

    assert_eq!(set.get(&"d"), None);
    assert_eq!(set.capacity(), 4);
    assert_eq!(set.len(), 3);

    set.insert("d");
    assert_eq!(set.get(&"d"), Some(&"d"));
}
