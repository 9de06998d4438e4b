//! Sequences of entries in ascending key order, and the maps they stand for.
use crate::order::{key_lt, lemma_lt_asymmetric, lemma_lt_irreflexive, total_order};
use vstd::prelude::*;

verus! {

/// The keys of `s` ascend strictly.
pub open spec fn ascending<K: Ord, V>(s: Seq<(K, V)>) -> bool {
    forall|a: int, b: int| 0 <= a < b < s.len() ==> key_lt(#[trigger] s[a].0, #[trigger] s[b].0)
}

/// Position `j` of `s` holds key `k`.
pub open spec fn holds_key<K, V>(s: Seq<(K, V)>, j: int, k: K) -> bool {
    0 <= j < s.len() && s[j].0 == k
}

/// Some position of `s` holds key `k`.
pub open spec fn has_key<K, V>(s: Seq<(K, V)>, k: K) -> bool {
    exists|j: int| holds_key(s, j, k)
}

/// A position of `s` that holds key `k`, if there is one.
pub open spec fn position_of<K, V>(s: Seq<(K, V)>, k: K) -> int {
    choose|j: int| holds_key(s, j, k)
}

/// The map from each key of `s` to the value listed with it.
pub open spec fn map_of<K, V>(s: Seq<(K, V)>) -> Map<K, V> {
    Map::new(|k: K| has_key(s, k), |k: K| s[position_of(s, k)].1)
}

/// Every key before position `p` is below `k`, every key from `p` on above it.
pub open spec fn gap_at<K: Ord, V>(s: Seq<(K, V)>, p: int, k: K) -> bool {
    &&& 0 <= p <= s.len()
    &&& forall|j: int| 0 <= j < p ==> key_lt((#[trigger] s[j]).0, k)
    &&& forall|j: int| p <= j < s.len() ==> key_lt(k, (#[trigger] s[j]).0)
}

/// In an ascending sequence a key stands at one position only.
pub proof fn lemma_position_unique<K: Ord, V>(s: Seq<(K, V)>, i: int, j: int)
    requires
        total_order::<K>(),
        ascending(s),
        0 <= i < s.len(),
        0 <= j < s.len(),
        s[i].0 == s[j].0,
    ensures
        i == j,
{
    if i < j {
        lemma_lt_irreflexive(s[i].0);
    }
    if j < i {
        lemma_lt_irreflexive(s[i].0);
    }
}

/// The map of an ascending sequence sends each listed key to its value.
pub proof fn lemma_map_of_at<K: Ord, V>(s: Seq<(K, V)>, j: int)
    requires
        total_order::<K>(),
        ascending(s),
        0 <= j < s.len(),
    ensures
        map_of(s).contains_key(s[j].0),
        map_of(s)[s[j].0] == s[j].1,
{
    assert(holds_key(s, j, s[j].0));
    lemma_position_unique(s, j, position_of(s, s[j].0));
}

/// A key with a gap in `s` is not listed in `s`.
pub proof fn lemma_gap_absent<K: Ord, V>(s: Seq<(K, V)>, p: int, k: K)
    requires
        total_order::<K>(),
        gap_at(s, p, k),
    ensures
        !map_of(s).contains_key(k),
{
    if has_key(s, k) {
        let j = position_of(s, k);
        lemma_lt_irreflexive(k);
        if j < p {
            assert(key_lt(s[j].0, k));
        } else {
            assert(key_lt(k, s[j].0));
        }
    }
}

/// Putting a new entry into its gap keeps the order and adds it to the map.
pub proof fn lemma_insert_at_gap<K: Ord, V>(s: Seq<(K, V)>, p: int, k: K, v: V)
    requires
        total_order::<K>(),
        ascending(s),
        gap_at(s, p, k),
    ensures
        ascending(s.insert(p, (k, v))),
        map_of(s.insert(p, (k, v))) == map_of(s).insert(k, v),
{
    let t = s.insert(p, (k, v));
    assert forall|a: int, b: int| 0 <= a < b < t.len() implies key_lt(
        #[trigger] t[a].0,
        #[trigger] t[b].0,
    ) by {
        if a < p && b == p {
            assert(t[a] == s[a]);
        } else if a < p && b > p {
            assert(t[a] == s[a]);
            assert(t[b] == s[b - 1]);
        } else if a == p {
            assert(t[b] == s[b - 1]);
        } else if a > p {
            assert(t[a] == s[a - 1]);
            assert(t[b] == s[b - 1]);
        } else {
            assert(t[a] == s[a]);
            assert(t[b] == s[b]);
        }
    }
    let m = map_of(s).insert(k, v);
    assert forall|x: K| map_of(t).contains_key(x) <==> m.contains_key(x) by {
        if has_key(t, x) {
            let j = position_of(t, x);
            if j < p {
                assert(holds_key(s, j, x));
            } else if j > p {
                assert(holds_key(s, j - 1, x));
            }
        }
        if x == k {
            assert(holds_key(t, p, x));
        } else if has_key(s, x) {
            let j = position_of(s, x);
            if j < p {
                assert(holds_key(t, j, x));
            } else {
                assert(holds_key(t, j + 1, x));
            }
        }
    }
    assert forall|x: K| map_of(t).contains_key(x) implies map_of(t)[x] == m[x] by {
        let j = position_of(t, x);
        lemma_map_of_at(t, j);
        if j < p {
            assert(t[j] == s[j]);
            lemma_map_of_at(s, j);
            lemma_gap_absent(s, p, k);
        } else if j > p {
            assert(t[j] == s[j - 1]);
            lemma_map_of_at(s, j - 1);
            lemma_gap_absent(s, p, k);
        }
    }
    assert(map_of(t) =~= m);
}

/// Changing the value at a position keeps the order and updates the map.
pub proof fn lemma_update_at<K: Ord, V>(s: Seq<(K, V)>, p: int, v: V)
    requires
        total_order::<K>(),
        ascending(s),
        0 <= p < s.len(),
    ensures
        ascending(s.update(p, (s[p].0, v))),
        map_of(s.update(p, (s[p].0, v))) == map_of(s).insert(s[p].0, v),
{
    let k = s[p].0;
    let t = s.update(p, (k, v));
    assert(t.len() == s.len());
    assert forall|a: int, b: int| 0 <= a < b < t.len() implies key_lt(
        #[trigger] t[a].0,
        #[trigger] t[b].0,
    ) by {
        assert(t[a].0 == s[a].0);
        assert(t[b].0 == s[b].0);
    }
    let m = map_of(s).insert(k, v);
    assert forall|x: K| map_of(t).contains_key(x) <==> m.contains_key(x) by {
        if has_key(t, x) {
            let j = position_of(t, x);
            assert(holds_key(s, j, x));
        }
        if x == k {
            assert(holds_key(t, p, x));
        } else if has_key(s, x) {
            let j = position_of(s, x);
            assert(holds_key(t, j, x));
        }
    }
    assert forall|x: K| map_of(t).contains_key(x) implies map_of(t)[x] == m[x] by {
        let j = position_of(t, x);
        lemma_map_of_at(t, j);
        if j != p {
            assert(t[j] == s[j]);
            lemma_map_of_at(s, j);
            if s[j].0 == k {
                lemma_position_unique(s, j, p);
            }
        }
    }
    assert(map_of(t) =~= m);
}

/// Taking a position out keeps the order and removes its key from the map.
pub proof fn lemma_remove_at<K: Ord, V>(s: Seq<(K, V)>, p: int)
    requires
        total_order::<K>(),
        ascending(s),
        0 <= p < s.len(),
    ensures
        ascending(s.remove(p)),
        map_of(s.remove(p)) == map_of(s).remove(s[p].0),
        gap_at(s.remove(p), p, s[p].0),
{
    let k = s[p].0;
    let t = s.remove(p);
    assert forall|a: int, b: int| 0 <= a < b < t.len() implies key_lt(
        #[trigger] t[a].0,
        #[trigger] t[b].0,
    ) by {
        let a0 = if a < p { a } else { a + 1 };
        let b0 = if b < p { b } else { b + 1 };
        assert(t[a] == s[a0]);
        assert(t[b] == s[b0]);
    }
    assert forall|j: int| 0 <= j < p implies key_lt((#[trigger] t[j]).0, k) by {
        assert(t[j] == s[j]);
    }
    assert forall|j: int| p <= j < t.len() implies key_lt(k, (#[trigger] t[j]).0) by {
        assert(t[j] == s[j + 1]);
    }
    lemma_gap_absent(t, p, k);
    let m = map_of(s).remove(k);
    assert forall|x: K| map_of(t).contains_key(x) <==> m.contains_key(x) by {
        if has_key(t, x) {
            let j = position_of(t, x);
            let j0 = if j < p { j } else { j + 1 };
            assert(holds_key(s, j0, x));
        }
        if x != k && has_key(s, x) {
            let j = position_of(s, x);
            if j < p {
                assert(holds_key(t, j, x));
            } else {
                assert(holds_key(t, j - 1, x));
            }
        }
    }
    assert forall|x: K| map_of(t).contains_key(x) implies map_of(t)[x] == m[x] by {
        let j = position_of(t, x);
        lemma_map_of_at(t, j);
        let j0 = if j < p { j } else { j + 1 };
        assert(t[j] == s[j0]);
        lemma_map_of_at(s, j0);
    }
    assert(map_of(t) =~= m);
}

/// Two ascending sequences with the same map are the same sequence.
pub proof fn lemma_lists_unique<K: Ord, V>(s: Seq<(K, V)>, t: Seq<(K, V)>)
    requires
        total_order::<K>(),
        ascending(s),
        ascending(t),
        map_of(s) == map_of(t),
    ensures
        s == t,
    decreases s.len(),
{
    if s.len() == 0 {
        if t.len() > 0 {
            lemma_map_of_at(t, 0);
            assert(has_key(s, t[0].0));
        }
        assert(s =~= t);
    } else {
        let n = s.len() - 1;
        lemma_map_of_at(s, n);
        assert(has_key(t, s[n].0));
        let j = position_of(t, s[n].0);
        lemma_map_of_at(t, j);
        // the last key of `s` is the largest key of the map, so it is last in `t`
        if j < t.len() - 1 {
            let last = t.len() - 1;
            lemma_map_of_at(t, last);
            assert(has_key(s, t[last].0));
            let i = position_of(s, t[last].0);
            assert(key_lt(t[j].0, t[last].0));
            if i < n {
                assert(key_lt(s[i].0, s[n].0));
                lemma_lt_asymmetric(s[i].0, s[n].0);
            } else {
                lemma_lt_irreflexive(s[n].0);
            }
        }
        lemma_remove_at(s, n);
        lemma_remove_at(t, j);
        lemma_lists_unique(s.remove(n), t.remove(j));
        assert(s =~= s.remove(n).push(s[n]));
        assert(t =~= t.remove(j).push(t[j]));
    }
}

/// A stretch of an ascending sequence ascends.
pub proof fn lemma_ascending_subrange<K: Ord, V>(s: Seq<(K, V)>, lo: int, hi: int)
    requires
        ascending(s),
        0 <= lo <= hi <= s.len(),
    ensures
        ascending(s.subrange(lo, hi)),
{
    let u = s.subrange(lo, hi);
    assert forall|a: int, b: int| 0 <= a < b < u.len() implies key_lt(
        #[trigger] u[a].0,
        #[trigger] u[b].0,
    ) by {
        assert(u[a] == s[a + lo] && u[b] == s[b + lo]);
    }
}

/// An ascending sequence has as many entries as its map has keys.
pub proof fn lemma_map_of_len<K: Ord, V>(s: Seq<(K, V)>)
    requires
        total_order::<K>(),
        ascending(s),
    ensures
        map_of(s).dom().finite(),
        map_of(s).dom().len() == s.len(),
    decreases s.len(),
{
    if s.len() == 0 {
        assert(map_of(s).dom() =~= Set::<K>::empty()) by {
            assert forall|k: K| !map_of(s).dom().contains(k) by {
                if has_key(s, k) {
                    let j = position_of(s, k);
                }
            }
        }
    } else {
        let n = s.len() - 1;
        let t = s.remove(n);
        lemma_remove_at(s, n);
        lemma_map_of_len(t);
        lemma_map_of_at(s, n);
        assert(map_of(s).dom() =~= map_of(t).dom().insert(s[n].0));
    }
}

/// The empty sequence lists the empty map.
pub proof fn lemma_map_of_empty<K: Ord, V>()
    ensures
        map_of(Seq::<(K, V)>::empty()) == Map::<K, V>::empty(),
        ascending(Seq::<(K, V)>::empty()),
{
    let s = Seq::<(K, V)>::empty();
    assert forall|k: K| !map_of(s).dom().contains(k) by {
        if has_key(s, k) {
            let j = position_of(s, k);
        }
    }
    assert(map_of(s) =~= Map::<K, V>::empty());
}

} // verus!
