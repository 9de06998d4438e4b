use escapegoat::arena::SgError;
use escapegoat::bounds::Bound;
use escapegoat::set::SgSet;
use std::collections::BTreeSet;

fn listed<const N: usize>(set: &SgSet<usize, N>) -> Vec<usize> {
    let mut out = Vec::new();
    let mut it = set.iter();
    while let Some(k) = it.next() {
        out.push(*k);
    }
    out
}

#[test]
fn test_set_insert_remove_pop() {
    let mut s = SgSet::<usize, 8>::new();
    for k in 1..=5 {
        assert!(s.insert(k));
    }
    assert!(s.remove(&3));
    assert!(!s.remove(&3));
    assert_eq!(listed(&s), vec![1, 2, 4, 5]);
    assert_eq!(s.pop_first(), Some(1));
    assert_eq!(listed(&s), vec![2, 4, 5]);
    assert_eq!(s.pop_last(), Some(5));
    assert_eq!(listed(&s), vec![2, 4]);
    s.insert(0);
    s.insert(3);
    s.insert(10);
    assert_eq!(listed(&s), vec![0, 2, 3, 4, 10]);
}

#[test]
fn test_set_take_first_last() {
    let mut s = SgSet::<usize, 8>::from_iter(vec![4, 2, 9]);
    assert_eq!(s.first(), Some(&2));
    assert_eq!(s.last(), Some(&9));
    assert_eq!(s.take(&4), Some(4));
    assert_eq!(s.take(&4), None);
    assert_eq!(s.get(&9), Some(&9));
    assert_eq!(s.get(&4), None);
    assert!(!s.insert(9));
    assert_eq!(listed(&s), vec![2, 9]);
    s.clear();
    assert_eq!(s.first(), None);
    assert_eq!(s.last(), None);
    assert_eq!(s.pop_first(), None);
    assert_eq!(s.pop_last(), None);
}

#[test]
fn test_set_iter_both_ends() {
    let s = SgSet::<usize, 8>::from_iter(vec![4, 2, 9, 7]);
    let mut it = s.iter();
    assert_eq!(it.len(), 4);
    assert_eq!(it.next_back(), Some(&9));
    assert_eq!(it.next(), Some(&2));
    assert_eq!(it.len(), 2);
    assert_eq!(it.next_back(), Some(&7));
    assert_eq!(it.next_back(), Some(&4));
    assert_eq!(it.next_back(), None);
    assert_eq!(it.next(), None);
    let mut own = s.into_iter();
    assert_eq!(own.len(), 4);
    assert_eq!(own.next_back(), Some(9));
    assert_eq!(own.next(), Some(2));
    assert_eq!(own.next(), Some(4));
    assert_eq!(own.next(), Some(7));
    assert_eq!(own.next(), None);
}

#[test]
fn test_set_range_bounds() {
    let s = SgSet::<usize, 8>::from_iter(vec![3, 5, 8]);
    let mut r = s.range(Bound::Included(&3), Bound::Included(&8));
    assert_eq!(r.next(), Some(&3));
    assert_eq!(r.next_back(), Some(&8));
    assert_eq!(r.next(), Some(&5));
    assert_eq!(r.next(), None);
    let mut r = s.range(Bound::Excluded(&3), Bound::Excluded(&8));
    assert_eq!(r.next(), Some(&5));
    assert_eq!(r.next(), None);
    let mut r = s.range(Bound::Unbounded, Bound::Unbounded);
    assert_eq!(r.next_back(), Some(&8));
    assert_eq!(r.next_back(), Some(&5));
    assert_eq!(r.next_back(), Some(&3));
    assert_eq!(r.next_back(), None);
}

#[test]
fn test_set_split_off_and_retain() {
    let mut a = SgSet::<usize, 8>::from_iter(vec![1, 2, 3, 17, 41]);
    let b = a.split_off(&3);
    assert_eq!(listed(&a), vec![1, 2]);
    assert_eq!(listed(&b), vec![3, 17, 41]);
    let mut c = SgSet::<usize, 8>::from_iter(vec![1, 2, 3, 4, 5, 6]);
    c.retain(|k| k % 2 == 0);
    assert_eq!(listed(&c), vec![2, 4, 6]);
    assert_eq!(c.len(), 3);
}

#[test]
fn test_set_extend() {
    let mut s = SgSet::<usize, 4>::from_iter(vec![1]);
    assert_eq!(s.try_extend(vec![2, 3, 4, 5]), Err(SgError::StackCapacityExceeded));
    assert_eq!(listed(&s), vec![1]);
    assert_eq!(s.try_extend(vec![3, 3, 2]), Ok(()));
    assert_eq!(listed(&s), vec![1, 2, 3]);
    s.extend(vec![0]);
    assert_eq!(listed(&s), vec![0, 1, 2, 3]);
}

#[test]
fn test_set_try_append_is_atomic() {
    let mut a = SgSet::<usize, 4>::from_iter(vec![1, 2, 3]);
    let mut b = SgSet::<usize, 4>::from_iter(vec![3, 4, 5]);
    assert_eq!(a.try_append(&mut b), Err(SgError::StackCapacityExceeded));
    assert_eq!(listed(&a), vec![1, 2, 3]);
    assert_eq!(listed(&b), vec![3, 4, 5]);
}

#[test]
fn test_set_equals() {
    let a = SgSet::<usize, 8>::from_iter(vec![1, 2, 3]);
    let b = SgSet::<usize, 8>::from_iter(vec![3, 1, 2]);
    let c = SgSet::<usize, 8>::from_iter(vec![3, 1]);
    let d = SgSet::<usize, 8>::from_iter(vec![3, 1, 4]);
    assert!(a.equals(&b));
    assert!(!a.equals(&c));
    assert!(!c.equals(&a));
    assert!(!a.equals(&d));
    assert!(SgSet::<usize, 8>::new().equals(&SgSet::<usize, 8>::new()));
}

#[test]
fn test_set_height_and_rebuild() {
    let mut s = SgSet::<usize, 64>::new();
    for k in 0..40usize {
        s.insert(k);
    }
    assert_eq!(s.max_size(), 40);
    let bound = ((40f64).ln() / 1.5f64.ln()).floor() as usize + 1;
    assert!(s.height() - 1 <= bound);
    for k in 0..20usize {
        s.remove(&k);
    }
    assert!(s.max_size() < 40);
    assert_eq!(listed(&s), (20..40).collect::<Vec<usize>>());
}

#[test]
fn test_set_algebra_against_btreeset() {
    let xs = vec![1usize, 4, 6, 9, 12, 15, 20];
    let ys = vec![2usize, 4, 5, 9, 15, 16, 21, 30];
    let a = SgSet::<usize, 16>::from_iter(xs.clone());
    let b = SgSet::<usize, 16>::from_iter(ys.clone());
    let sa: BTreeSet<usize> = xs.into_iter().collect();
    let sb: BTreeSet<usize> = ys.into_iter().collect();

    let mut got = Vec::new();
    let mut it = a.union(&b);
    while let Some(k) = it.next() {
        got.push(*k);
    }
    assert_eq!(got, sa.union(&sb).copied().collect::<Vec<_>>());

    let mut got = Vec::new();
    let mut it = a.intersection(&b);
    while let Some(k) = it.next() {
        got.push(*k);
    }
    assert_eq!(got, sa.intersection(&sb).copied().collect::<Vec<_>>());

    let mut got = Vec::new();
    let mut it = b.difference(&a);
    while let Some(k) = it.next() {
        got.push(*k);
    }
    assert_eq!(got, sb.difference(&sa).copied().collect::<Vec<_>>());

    let mut got = Vec::new();
    let mut it = a.symmetric_difference(&b);
    while let Some(k) = it.next() {
        got.push(*k);
    }
    assert_eq!(got, sa.symmetric_difference(&sb).copied().collect::<Vec<_>>());
    assert_eq!(a.is_disjoint(&b), sa.is_disjoint(&sb));
    assert_eq!(a.is_subset(&b), sa.is_subset(&sb));
    assert!(a.is_subset(&a));
    assert!(a.is_superset(&a));
}
