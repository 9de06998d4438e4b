use escapegoat::arena::SgError;
use escapegoat::balance::too_deep;
use escapegoat::bounds::{range_fault, Bound, RangeFault};
use escapegoat::map::SgMap;
use escapegoat::map_types::{Entry, IntoIter, Iter, Range};
use std::collections::BTreeMap;

fn pairs<const N: usize>(mut it: Iter<'_, usize, usize, N>) -> Vec<(usize, usize)> {
    let mut out = Vec::new();
    while let Some((k, v)) = it.next() {
        out.push((*k, *v));
    }
    out
}

fn pairs_back<const N: usize>(mut it: Iter<'_, usize, usize, N>) -> Vec<(usize, usize)> {
    let mut out = Vec::new();
    while let Some((k, v)) = it.next_back() {
        out.push((*k, *v));
    }
    out
}

fn taken<const N: usize>(mut it: IntoIter<usize, usize, N>) -> Vec<(usize, usize)> {
    let mut out = Vec::new();
    while let Some(e) = it.next() {
        out.push(e);
    }
    out
}

fn ranged<const N: usize>(mut it: Range<'_, usize, usize, N>) -> Vec<usize> {
    let mut out = Vec::new();
    while let Some((k, _)) = it.next() {
        out.push(*k);
    }
    out
}

fn floor_log_three_halves(n: usize) -> usize {
    ((n as f64).ln() / 1.5f64.ln()).floor() as usize
}

#[test]
fn test_map_insert_get_remove() {
    let mut m = SgMap::<usize, usize, 8>::new();
    assert!(m.is_empty());
    assert_eq!(m.capacity(), 8);
    assert_eq!(m.insert(1, 10), None);
    assert_eq!(m.insert(2, 20), None);
    assert_eq!(m.insert(1, 11), Some(10));
    assert_eq!(m.len(), 2);
    assert_eq!(m.get(&1), Some(&11));
    assert_eq!(m.get_key_value(&2), Some((&2, &20)));
    assert!(m.contains_key(&2));
    assert!(!m.contains_key(&3));
    assert_eq!(m.remove(&1), Some(11));
    assert_eq!(m.remove(&1), None);
    assert_eq!(m.remove_entry(&2), Some((2, 20)));
    assert_eq!(m.get(&1), None);
    assert_eq!(m.len(), 0);
}

#[test]
fn test_map_get_mut() {
    let mut m = SgMap::<usize, usize, 4>::new();
    m.insert(7, 70);
    match m.get_mut(&7) {
        Some(v) => *v += 1,
        None => panic!("the key is present"),
    }
    assert!(m.get_mut(&8).is_none());
    assert_eq!(m.get(&7), Some(&71));
}

#[test]
fn test_map_try_insert_capacity() {
    let mut m = SgMap::<usize, usize, 3>::new();
    assert_eq!(m.try_insert(1, 1), Ok(None));
    assert_eq!(m.try_insert(2, 2), Ok(None));
    assert_eq!(m.try_insert(3, 3), Ok(None));
    assert_eq!(m.try_insert(1, 9), Ok(Some(1)));
    assert_eq!(m.try_insert(4, 4), Err(SgError::StackCapacityExceeded));
    assert_eq!(pairs(m.iter()), vec![(1, 9), (2, 2), (3, 3)]);
}

#[test]
fn test_map_first_last_pop() {
    let mut m = SgMap::<usize, usize, 8>::from_iter(vec![(5, 50), (1, 10), (9, 90), (3, 30)]);
    assert_eq!(m.first_key_value(), Some((&1, &10)));
    assert_eq!(m.last_key_value(), Some((&9, &90)));
    assert_eq!(m.first_key(), Some(&1));
    assert_eq!(m.last_key(), Some(&9));
    assert_eq!(m.pop_first(), Some((1, 10)));
    assert_eq!(m.pop_last(), Some((9, 90)));
    assert_eq!(pairs(m.iter()), vec![(3, 30), (5, 50)]);
    m.clear();
    assert_eq!(m.pop_first(), None);
    assert_eq!(m.pop_last(), None);
    assert_eq!(m.first_key_value(), None);
    assert_eq!(m.last_key(), None);
}

#[test]
fn test_map_iterators() {
    let mut m = SgMap::<usize, usize, 8>::from_iter(vec![(2, 20), (1, 10), (3, 30)]);
    assert_eq!(pairs(m.iter()), vec![(1, 10), (2, 20), (3, 30)]);
    assert_eq!(pairs_back(m.iter()), vec![(3, 30), (2, 20), (1, 10)]);
    let mut it = m.iter();
    assert_eq!(it.len(), 3);
    assert_eq!(it.peek(), Some((&1, &10)));
    assert_eq!(it.next(), Some((&1, &10)));
    assert_eq!(it.next_back(), Some((&3, &30)));
    assert_eq!(it.len(), 1);
    assert_eq!(it.next(), Some((&2, &20)));
    assert_eq!(it.next(), None);
    assert_eq!(it.next_back(), None);

    let mut keys = m.keys();
    assert_eq!(keys.len(), 3);
    assert_eq!(keys.next(), Some(&1));
    let mut values = m.values();
    assert_eq!(values.next(), Some(&10));
    assert_eq!(values.len(), 2);

    let mut im = m.iter_mut();
    assert_eq!(im.len(), 3);
    while let Some((k, v)) = im.next() {
        *v += *k;
    }
    assert_eq!(pairs(m.iter()), vec![(1, 11), (2, 22), (3, 33)]);
    let mut im = m.iter_mut();
    if let Some((k, v)) = im.next_back() {
        assert_eq!(*k, 3);
        *v = 0;
    }
    let mut vm = m.values_mut();
    assert_eq!(vm.len(), 3);
    if let Some(v) = vm.next() {
        *v = 1;
    }
    assert_eq!(pairs(m.iter()), vec![(1, 1), (2, 22), (3, 0)]);
}

#[test]
fn test_map_owning_iterators() {
    let m = SgMap::<usize, usize, 4>::from_iter(vec![(2, 20), (1, 10), (3, 30)]);
    let mut it = m.into_iter();
    assert_eq!(it.len(), 3);
    assert_eq!(it.next_back(), Some((3, 30)));
    assert_eq!(taken(it), vec![(1, 10), (2, 20)]);

    let m = SgMap::<usize, usize, 4>::from_iter(vec![(2, 20), (1, 10)]);
    let mut ks = m.into_keys();
    assert_eq!(ks.len(), 2);
    assert_eq!(ks.next(), Some(1));
    assert_eq!(ks.next(), Some(2));
    assert_eq!(ks.next(), None);

    let m = SgMap::<usize, usize, 4>::from_iter(vec![(2, 20), (1, 10)]);
    let mut vs = m.into_values();
    assert_eq!(vs.len(), 2);
    assert_eq!(vs.next(), Some(10));
    assert_eq!(vs.next(), Some(20));
    assert_eq!(vs.next(), None);
}

#[test]
fn test_entry_or_insert() {
    let mut map = SgMap::<&str, usize, 10>::new();
    map.entry("poneyland").or_insert(12);
    assert_eq!(map.get(&"poneyland"), Some(&12));
    *map.entry("poneyland").or_insert(5) += 1;
    assert_eq!(map.get(&"poneyland"), Some(&13));
}

#[test]
fn test_entry_or_insert_with() {
    let mut map = SgMap::<&str, usize, 10>::new();
    let x = 42;
    map.entry("poneyland").or_insert_with(|| x);
    assert_eq!(map.get(&"poneyland"), Some(&42));
    map.entry("poneyland").or_insert_with(|| 7);
    assert_eq!(map.get(&"poneyland"), Some(&42));
}

#[test]
fn test_entry_or_insert_with_key() {
    let mut map = SgMap::<&str, usize, 10>::new();
    map.entry("poneyland").or_insert_with_key(|key| key.chars().count());
    assert_eq!(map.get(&"poneyland"), Some(&9));
}

#[test]
fn test_entry_key() {
    let mut map = SgMap::<&str, usize, 10>::new();
    assert_eq!(map.entry("poneyland").key(), &"poneyland");
    map.insert("poneyland", 1);
    assert_eq!(map.entry("poneyland").key(), &"poneyland");
}

#[test]
fn test_entry_and_modify() {
    let mut map = SgMap::<&str, usize, 10>::new();
    map.entry("poneyland").and_modify(|e| *e += 1).or_insert(42);
    assert_eq!(map.get(&"poneyland"), Some(&42));
    map.entry("poneyland").and_modify(|e| *e += 1).or_insert(42);
    assert_eq!(map.get(&"poneyland"), Some(&43));
}

#[test]
fn test_entry_or_default() {
    let mut map = SgMap::<&str, Option<usize>, 10>::new();
    map.entry("poneyland").or_default();
    assert_eq!(map.get(&"poneyland"), Some(&None));
}

#[test]
fn test_vacant_entry() {
    let mut map = SgMap::<&str, u32, 2>::new();
    match map.entry("poneyland") {
        Entry::Vacant(v) => {
            assert_eq!(v.key(), &"poneyland");
            assert_eq!(v.into_key(), "poneyland");
        },
        Entry::Occupied(_) => panic!("the key is absent"),
    }
    if let Entry::Vacant(o) = map.entry("poneyland") {
        assert_eq!(*o.insert(37), 37);
    }
    assert_eq!(map.get(&"poneyland"), Some(&37));
}

#[test]
fn test_occupied_entry() {
    let mut map = SgMap::<&str, usize, 2>::new();
    map.entry("poneyland").or_insert(12);
    if let Entry::Occupied(mut o) = map.entry("poneyland") {
        assert_eq!(o.key(), &"poneyland");
        assert_eq!(o.get(), &12);
        *o.get_mut() += 10;
        assert_eq!(*o.get(), 22);
        *o.get_mut() += 2;
    } else {
        panic!("the key is present");
    }
    assert_eq!(map.get(&"poneyland"), Some(&24));
    if let Entry::Occupied(o) = map.entry("poneyland") {
        *o.into_mut() += 10;
    }
    assert_eq!(map.get(&"poneyland"), Some(&34));
    if let Entry::Occupied(mut o) = map.entry("poneyland") {
        assert_eq!(o.insert(15), 34);
    }
    assert_eq!(map.get(&"poneyland"), Some(&15));
    if let Entry::Occupied(o) = map.entry("poneyland") {
        assert_eq!(o.remove_entry(), ("poneyland", 15));
    }
    assert_eq!(map.get(&"poneyland"), None);
    map.insert("a", 1);
    map.insert("b", 2);
    if let Entry::Occupied(o) = map.entry("a") {
        assert_eq!(o.remove(), 1);
    }
    assert_eq!(map.len(), 1);
    assert_eq!(map.get(&"b"), Some(&2));
}

#[test]
fn test_first_and_last_entry() {
    let mut map = SgMap::<usize, usize, 4>::from_iter(vec![(2, 20), (1, 10), (3, 30)]);
    match map.first_entry() {
        Some(o) => assert_eq!(o.key(), &1),
        None => panic!("the map is not empty"),
    }
    match map.last_entry() {
        Some(o) => assert_eq!(o.remove(), 30),
        None => panic!("the map is not empty"),
    }
    assert_eq!(pairs(map.iter()), vec![(1, 10), (2, 20)]);
    map.clear();
    assert!(map.first_entry().is_none());
    assert!(map.last_entry().is_none());
}

#[test]
fn test_try_insert_std() {
    let mut map = SgMap::<usize, &str, 4>::new();
    match map.try_insert_std(37, "a") {
        Ok(v) => assert_eq!(*v, "a"),
        Err(_) => panic!("the key is absent"),
    }
    match map.try_insert_std(37, "b") {
        Ok(_) => panic!("the key is present"),
        Err(err) => {
            assert_eq!(err.entry.key(), &37);
            assert_eq!(err.entry.get(), &"a");
            assert_eq!(err.value, "b");
            assert_eq!(err.to_string(), "failed to insert \"b\", key 37 already exists with value \"a\"");
            assert_eq!(err.to_debug_string(), "OccupiedError { key: 37, old_value: \"a\", new_value: \"b\" }");
        },
    }
    assert_eq!(map.get(&37), Some(&"a"));
}

#[test]
fn test_map_range() {
    let m = SgMap::<usize, usize, 8>::from_iter(vec![(3, 0), (5, 0), (8, 0), (1, 0), (9, 0)]);
    assert_eq!(ranged(m.range(Bound::Included(&3), Bound::Excluded(&8))), vec![3, 5]);
    assert_eq!(ranged(m.range(Bound::Included(&3), Bound::Included(&8))), vec![3, 5, 8]);
    assert_eq!(ranged(m.range(Bound::Excluded(&3), Bound::Included(&8))), vec![5, 8]);
    assert_eq!(ranged(m.range(Bound::Excluded(&3), Bound::Excluded(&8))), vec![5]);
    assert_eq!(ranged(m.range(Bound::Unbounded, Bound::Excluded(&5))), vec![1, 3]);
    assert_eq!(ranged(m.range(Bound::Included(&6), Bound::Unbounded)), vec![8, 9]);
    assert_eq!(ranged(m.range(Bound::Unbounded, Bound::Unbounded)), vec![1, 3, 5, 8, 9]);
    assert_eq!(ranged(m.range(Bound::Included(&4), Bound::Included(&4))), Vec::<usize>::new());
    assert_eq!(ranged(m.range(Bound::Excluded(&5), Bound::Included(&5))), Vec::<usize>::new());
    assert_eq!(ranged(m.range(Bound::Included(&20), Bound::Unbounded)), Vec::<usize>::new());
    let mut r = m.range(Bound::Included(&2), Bound::Included(&8));
    assert_eq!(r.next_back(), Some((&8, &0)));
    assert_eq!(r.next(), Some((&3, &0)));
    assert_eq!(r.next_back(), Some((&5, &0)));
    assert_eq!(r.next_back(), None);
    assert_eq!(r.next(), None);
}

#[test]
fn test_map_range_mut() {
    let mut m = SgMap::<usize, usize, 8>::from_iter(vec![(3, 0), (5, 0), (8, 0), (1, 0), (9, 0)]);
    {
        let mut r = m.range_mut(Bound::Included(&3), Bound::Included(&8));
        while let Some((k, v)) = r.next() {
            *v = *k * 2;
        }
    }
    assert_eq!(pairs(m.iter()), vec![(1, 0), (3, 6), (5, 10), (8, 16), (9, 0)]);
    {
        let mut r = m.range_mut(Bound::Excluded(&3), Bound::Unbounded);
        if let Some((k, v)) = r.next_back() {
            assert_eq!(*k, 9);
            *v = 1;
        }
        if let Some((k, v)) = r.next() {
            assert_eq!(*k, 5);
            *v = 2;
        }
        if let Some((k, _)) = r.next() {
            assert_eq!(*k, 8);
        }
        assert!(r.next().is_none());
        assert!(r.next_back().is_none());
    }
    assert_eq!(pairs(m.iter()), vec![(1, 0), (3, 6), (5, 2), (8, 16), (9, 1)]);
}

#[test]
fn test_range_faults() {
    assert_eq!(range_fault(&Bound::Included(&8usize), &Bound::Included(&3usize)), Some(RangeFault::StartAfterEnd));
    assert_eq!(range_fault(&Bound::Excluded(&5usize), &Bound::Excluded(&5usize)), Some(RangeFault::EqualAndExcluded));
    assert_eq!(range_fault(&Bound::Excluded(&5usize), &Bound::Included(&5usize)), None);
    assert_eq!(range_fault(&Bound::Included(&5usize), &Bound::Included(&5usize)), None);
    assert_eq!(range_fault(&Bound::Included(&3usize), &Bound::Excluded(&8usize)), None);
    assert_eq!(range_fault(&Bound::Unbounded, &Bound::Excluded(&8usize)), None);
    assert_eq!(range_fault(&Bound::Included(&9usize), &Bound::Unbounded), None);
    assert_eq!(RangeFault::StartAfterEnd.message(), "range start is greater than range end");
    assert_eq!(RangeFault::EqualAndExcluded.message(), "range start and end are equal and excluded");
}

#[test]
fn test_map_split_off() {
    let mut a = SgMap::<usize, usize, 8>::from_iter(vec![(1, 1), (2, 2), (3, 3), (17, 17), (41, 41)]);
    let b = a.split_off(&3);
    assert_eq!(pairs(a.iter()), vec![(1, 1), (2, 2)]);
    assert_eq!(pairs(b.iter()), vec![(3, 3), (17, 17), (41, 41)]);
    assert_eq!(a.max_size(), 2);
    assert_eq!(b.max_size(), 3);
    assert_eq!(b.height(), 2);
    assert_eq!(a.len(), 2);
    assert_eq!(b.len(), 3);

    let mut c = SgMap::<usize, usize, 8>::from_iter(vec![(1, 1), (5, 5)]);
    let d = c.split_off(&0);
    assert!(c.is_empty());
    assert_eq!(pairs(d.iter()), vec![(1, 1), (5, 5)]);
    let mut e = SgMap::<usize, usize, 8>::from_iter(vec![(1, 1), (5, 5)]);
    let f = e.split_off(&6);
    assert!(f.is_empty());
    assert_eq!(pairs(e.iter()), vec![(1, 1), (5, 5)]);
    let mut f = f;
    assert_eq!(f.insert(4, 4), None);
    assert_eq!(e.insert(4, 4), None);
    assert_eq!(pairs(e.iter()), vec![(1, 1), (4, 4), (5, 5)]);
}

#[test]
fn test_map_append() {
    let mut a = SgMap::<usize, &str, 5>::from_iter(vec![(1, "a"), (2, "b"), (3, "c")]);
    let mut b = SgMap::<usize, &str, 5>::from_iter(vec![(3, "d"), (4, "e"), (5, "f")]);
    a.append(&mut b);
    assert_eq!(a.len(), 5);
    assert_eq!(b.len(), 0);
    assert_eq!(a.get(&1), Some(&"a"));
    assert_eq!(a.get(&2), Some(&"b"));
    assert_eq!(a.get(&3), Some(&"d"));
    assert_eq!(a.get(&4), Some(&"e"));
    assert_eq!(a.get(&5), Some(&"f"));
    assert_eq!(b.insert(9, "z"), None);
}

#[test]
fn test_map_try_append_is_atomic() {
    let mut a = SgMap::<usize, usize, 4>::from_iter(vec![(1, 1), (2, 2), (3, 3)]);
    let mut b = SgMap::<usize, usize, 4>::from_iter(vec![(3, 30), (4, 40), (5, 50)]);
    assert_eq!(a.try_append(&mut b), Err(SgError::StackCapacityExceeded));
    assert_eq!(pairs(a.iter()), vec![(1, 1), (2, 2), (3, 3)]);
    assert_eq!(pairs(b.iter()), vec![(3, 30), (4, 40), (5, 50)]);
    assert_eq!(b.pop_last(), Some((5, 50)));
    assert_eq!(a.try_append(&mut b), Ok(()));
    assert_eq!(pairs(a.iter()), vec![(1, 1), (2, 2), (3, 30), (4, 40)]);
    assert!(b.is_empty());
    let mut c = SgMap::<usize, usize, 4>::new();
    assert_eq!(a.try_append(&mut c), Ok(()));
    assert_eq!(c.try_append(&mut a), Ok(()));
    assert!(a.is_empty());
    assert_eq!(pairs(c.iter()), vec![(1, 1), (2, 2), (3, 30), (4, 40)]);
}

#[test]
fn test_map_retain() {
    let mut m = SgMap::<usize, usize, 10>::from_iter((0..8).map(|x| (x, x * 10)).collect());
    assert_eq!(m.max_size(), 8);
    m.retain(|k, _| k % 2 == 0);
    assert_eq!(pairs(m.iter()), vec![(0, 0), (2, 20), (4, 40), (6, 60)]);
    assert_eq!(m.max_size(), 4);
    m.retain(|_, v| *v > 20);
    assert_eq!(pairs(m.iter()), vec![(4, 40), (6, 60)]);
    m.retain(|_, _| false);
    assert!(m.is_empty());
    assert_eq!(m.insert(1, 1), None);
    assert_eq!(m.len(), 1);
}

#[test]
fn test_map_extend() {
    let mut m = SgMap::<usize, usize, 4>::new();
    m.insert(1, 1);
    assert_eq!(m.try_extend(vec![(2, 2), (1, 10), (3, 3), (4, 4)]), Err(SgError::StackCapacityExceeded));
    assert_eq!(pairs(m.iter()), vec![(1, 1)]);
    assert_eq!(m.try_extend(vec![(2, 2), (1, 10), (2, 20)]), Ok(()));
    assert_eq!(pairs(m.iter()), vec![(1, 10), (2, 20)]);
    m.extend(vec![(0, 0)]);
    assert_eq!(pairs(m.iter()), vec![(0, 0), (1, 10), (2, 20)]);
    let n = SgMap::<usize, usize, 3>::from_iter(vec![(3, 1), (3, 2), (1, 1)]);
    assert_eq!(pairs(n.iter()), vec![(1, 1), (3, 2)]);
}

#[test]
fn test_iteration_round_trip() {
    let first = SgMap::<usize, usize, 16>::from_iter(vec![(9, 1), (4, 2), (7, 3), (1, 4), (12, 5), (3, 6)]);
    let listed = pairs(first.iter());
    assert_eq!(listed, vec![(1, 4), (3, 6), (4, 2), (7, 3), (9, 1), (12, 5)]);
    let second = SgMap::<usize, usize, 16>::from_iter(listed.clone());
    assert_eq!(pairs(second.iter()), listed);
}

#[test]
fn test_too_deep_formula() {
    // the logarithm of 10 to the base 3/2 is 5.67..., so depth 6 is allowed and depth 7 is not
    assert!(!too_deep(6, 10));
    assert!(too_deep(7, 10));
    assert!(!too_deep(0, 1));
    assert!(!too_deep(1, 1));
    assert!(too_deep(2, 1));
    // (3/2)^2 = 2.25 > 2 and (3/2)^1 <= 2
    assert!(!too_deep(2, 2));
    assert!(too_deep(3, 2));
    for n in 1..200usize {
        for depth in 0..20usize {
            assert_eq!(too_deep(depth, n), depth > floor_log_three_halves(n) + 1);
        }
    }
    assert!(!too_deep(55, u32::MAX as usize));
    assert!(too_deep(56, u32::MAX as usize));
}

#[test]
fn test_height_stays_within_bound() {
    let mut m = SgMap::<usize, usize, 512>::new();
    for k in 0..512usize {
        m.insert(k, k);
        let levels = m.height();
        assert!(levels >= 1);
        assert!(levels - 1 <= floor_log_three_halves(m.max_size()) + 1);
        assert_eq!(m.max_size(), k + 1);
    }
    let mut d = SgMap::<usize, usize, 512>::new();
    for k in (0..512usize).rev() {
        d.insert(k, k);
        assert!(d.height() - 1 <= floor_log_three_halves(d.max_size()) + 1);
    }
    assert_eq!(SgMap::<usize, usize, 4>::new().height(), 0);
}

#[test]
fn test_deletion_triggers_rebuild() {
    let mut m = SgMap::<usize, usize, 32>::new();
    for k in 0..30usize {
        m.insert(k, k);
    }
    assert_eq!(m.max_size(), 30);
    let mut removed = 0;
    for k in [7usize, 2, 29, 15, 0, 11, 3, 22, 18, 25, 9, 1, 27, 13, 5, 20, 16, 28, 8, 24, 12] {
        assert_eq!(m.remove(&k), Some(k));
        removed += 1;
        assert_eq!(m.len(), 30 - removed);
        assert!(m.len() <= m.max_size());
        if m.len() > 0 {
            assert!(m.height() - 1 <= floor_log_three_halves(m.max_size()) + 1);
        }
    }
    assert_eq!(m.len(), 9);
    // the largest size on record fell below 30: the tree was rebuilt as a whole
    assert!(m.max_size() < 30);
    // after a whole rebuild the count starts at the size, and 3 * size <= 2 * count triggers the next
    assert!(3 * m.len() > 2 * m.max_size());
    assert_eq!(pairs(m.iter()), vec![(4, 4), (6, 6), (10, 10), (14, 14), (17, 17), (19, 19), (21, 21), (23, 23), (26, 26)]);
}

#[test]
fn test_rebuild_at_two_thirds() {
    let mut m = SgMap::<usize, usize, 8>::new();
    for k in 0..6usize {
        m.insert(k, k);
    }
    assert_eq!(m.max_size(), 6);
    m.remove(&0);
    assert_eq!(m.max_size(), 6);
    m.remove(&1);
    // 3 * 4 <= 2 * 6: rebuilt, and the count is now the size
    assert_eq!(m.max_size(), 4);
    assert_eq!(m.height(), 3);
}

#[test]
fn test_differential_against_btreemap() {
    let mut sg = SgMap::<usize, usize, 64>::new();
    let mut bt = BTreeMap::new();
    let mut state: u64 = 0x2545F4914F6CDD1D;
    for step in 0..4000usize {
        state ^= state << 13;
        state ^= state >> 7;
        state ^= state << 17;
        let key = (state % 97) as usize;
        match (state >> 32) % 8 {
            0 | 1 | 2 => {
                if bt.len() < 64 || bt.contains_key(&key) {
                    assert_eq!(sg.insert(key, step), bt.insert(key, step));
                } else {
                    assert_eq!(sg.try_insert(key, step), Err(SgError::StackCapacityExceeded));
                }
            },
            3 | 4 => assert_eq!(sg.remove(&key), bt.remove(&key)),
            5 => assert_eq!(sg.get(&key), bt.get(&key)),
            6 => assert_eq!(sg.pop_first(), bt.pop_first()),
            _ => assert_eq!(sg.pop_last(), bt.pop_last()),
        }
        assert_eq!(sg.len(), bt.len());
        assert_eq!(sg.first_key_value(), bt.first_key_value());
        assert_eq!(sg.last_key_value(), bt.last_key_value());
        if step % 50 == 0 {
            assert_eq!(pairs(sg.iter()), bt.iter().map(|(k, v)| (*k, *v)).collect::<Vec<_>>());
            let lo = key.min(40);
            let hi = key.max(40);
            assert_eq!(
                ranged(sg.range(Bound::Included(&lo), Bound::Excluded(&hi))),
                bt.range(lo..hi).map(|(k, _)| *k).collect::<Vec<_>>()
            );
            if sg.len() > 0 {
                assert!(sg.height() - 1 <= floor_log_three_halves(sg.max_size()) + 1);
            }
        }
    }
}

#[test]
fn test_differential_bulk_against_btreemap() {
    let mut sg = SgMap::<usize, usize, 48>::new();
    let mut bt: BTreeMap<usize, usize> = BTreeMap::new();
    let mut state: u64 = 0x9E3779B97F4A7C15;
    for step in 0..600usize {
        state ^= state << 13;
        state ^= state >> 7;
        state ^= state << 17;
        let key = (state % 61) as usize;
        match (state >> 40) % 6 {
            0 => {
                let other_sg = sg.split_off(&key);
                let other_bt = bt.split_off(&key);
                assert_eq!(pairs(other_sg.iter()), other_bt.iter().map(|(k, v)| (*k, *v)).collect::<Vec<_>>());
                let mut other_sg = other_sg;
                let mut other_bt = other_bt;
                // put the upper half back, so that the maps stay populated
                assert_eq!(sg.try_append(&mut other_sg), Ok(()));
                bt.append(&mut other_bt);
                assert!(other_sg.is_empty());
            },
            1 => {
                let m = 2 + key % 3;
                sg.retain(|k, _| k % m != 0);
                bt.retain(|k, _| k % m != 0);
            },
            2 => {
                let items: Vec<(usize, usize)> = (0..(key % 5)).map(|i| ((key + 7 * i) % 61, step + i)).collect();
                if items.len() <= sg.capacity() - sg.len() {
                    assert_eq!(sg.try_extend(items.clone()), Ok(()));
                    bt.extend(items);
                } else {
                    assert_eq!(sg.try_extend(items), Err(SgError::StackCapacityExceeded));
                }
            },
            3 => {
                let mut other_sg = SgMap::<usize, usize, 48>::new();
                let mut other_bt = BTreeMap::new();
                for i in 0..(key % 7) {
                    other_sg.insert((key * 3 + i * 11) % 61, i);
                    other_bt.insert((key * 3 + i * 11) % 61, i);
                }
                let mut union = bt.clone();
                union.extend(other_bt.iter().map(|(k, v)| (*k, *v)));
                if union.len() <= 48 {
                    assert_eq!(sg.try_append(&mut other_sg), Ok(()));
                    bt.append(&mut other_bt);
                    assert!(other_sg.is_empty());
                } else {
                    assert_eq!(sg.try_append(&mut other_sg), Err(SgError::StackCapacityExceeded));
                    assert_eq!(pairs(other_sg.iter()), other_bt.iter().map(|(k, v)| (*k, *v)).collect::<Vec<_>>());
                }
            },
            4 => {
                if bt.len() < 48 || bt.contains_key(&key) {
                    *sg.entry(key).or_insert(0) += step;
                    *bt.entry(key).or_insert(0) += step;
                }
            },
            _ => {
                let lo = key.min(30);
                let hi = key.max(30);
                let mut r = sg.range_mut(Bound::Included(&lo), Bound::Included(&hi));
                while let Some((_, v)) = r.next() {
                    *v += 1;
                }
                for (_, v) in bt.range_mut(lo..=hi) {
                    *v += 1;
                }
            },
        }
        assert_eq!(sg.len(), bt.len());
        assert_eq!(pairs(sg.iter()), bt.iter().map(|(k, v)| (*k, *v)).collect::<Vec<_>>());
        if sg.len() > 0 {
            assert!(sg.height() - 1 <= floor_log_three_halves(sg.max_size()) + 1);
        }
    }
}

#[test]
fn test_large_capacity() {
    let mut m = SgMap::<usize, usize, 4096>::new();
    for k in 0..4096usize {
        assert_eq!(m.insert((k * 2654435761) % 4096, k), None);
    }
    assert_eq!(m.len(), 4096);
    assert_eq!(m.try_insert(5000, 0), Err(SgError::StackCapacityExceeded));
    assert!(m.height() - 1 <= floor_log_three_halves(m.max_size()) + 1);
    let listed = pairs(m.iter());
    assert_eq!(listed.len(), 4096);
    assert!(listed.windows(2).all(|w| w[0].0 < w[1].0));
    for k in (0..4096usize).step_by(3) {
        assert!(m.remove(&k).is_some());
        assert!(m.height() - 1 <= floor_log_three_halves(m.max_size()) + 1);
    }
    assert_eq!(m.len(), 4096 - 1366);
    assert!(pairs(m.iter()).iter().all(|(k, _)| k % 3 != 0));
}

#[test]
fn test_map_equals() {
    let a = SgMap::<usize, usize, 8>::from_iter(vec![(1, 10), (2, 20), (3, 30)]);
    let b = SgMap::<usize, usize, 8>::from_iter(vec![(3, 30), (1, 10), (2, 20)]);
    let c = SgMap::<usize, usize, 8>::from_iter(vec![(1, 10), (2, 21), (3, 30)]);
    let d = SgMap::<usize, usize, 8>::from_iter(vec![(1, 10), (2, 20), (4, 30)]);
    let e = SgMap::<usize, usize, 8>::from_iter(vec![(1, 10), (2, 20)]);
    assert!(a.equals(&b));
    assert!(b.equals(&a));
    assert!(!a.equals(&c));
    assert!(!a.equals(&d));
    assert!(!a.equals(&e));
    assert!(!e.equals(&a));
    assert!(SgMap::<usize, usize, 8>::new().equals(&SgMap::<usize, usize, 8>::new()));
    let copy = a.clone();
    assert!(copy.equals(&a));
}
