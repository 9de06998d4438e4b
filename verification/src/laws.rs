//! What holds of the containers across their operations.
use crate::bounds::{spans, within, Bound};
use crate::bulk::insert_all;
use crate::listing::{
    ascending, gap_at, has_key, holds_key, lemma_ascending_subrange, lemma_insert_at_gap,
    lemma_lists_unique, lemma_map_of_at, lemma_map_of_empty, map_of, position_of,
};
use crate::map::SgMap;
use crate::order::{key_le, key_lt, total_order};
use crate::set::SgSet;
use crate::set_types::rising_keys;
use vstd::prelude::*;

verus! {

/// Inserting the entries of an ascending sequence, in their order, into the
/// empty map gives the map that the sequence lists.
pub proof fn lemma_insert_all_ascending<K: Ord, V>(s: Seq<(K, V)>, j: int)
    requires
        total_order::<K>(),
        ascending(s),
        0 <= j <= s.len(),
    ensures
        insert_all(map_of(s.take(j)), s.skip(j)) == map_of(s),
    decreases s.len() - j,
{
    if j == s.len() {
        assert(s.take(j) =~= s);
    } else {
        let low = s.take(j);
        lemma_ascending_subrange(s, 0, j);
        assert(s.subrange(0, j) =~= low);
        assert forall|q: int| 0 <= q < j implies key_lt((#[trigger] low[q]).0, s[j].0) by {
            assert(low[q] == s[q]);
        }
        assert(gap_at(low, j, s[j].0));
        lemma_insert_at_gap(low, j, s[j].0, s[j].1);
        assert(low.insert(j, s[j]) =~= s.take(j + 1));
        assert(s.skip(j).skip(1) =~= s.skip(j + 1));
        assert(s.skip(j)[0] == s[j]);
        lemma_insert_all_ascending(s, j + 1);
    }
}

/// Iteration round trip: a map built from what the iteration over a map
/// yields, in that order, holds the same entries and iterates alike.
pub proof fn law_rebuild_from_iteration<K: Ord, V, const N: usize>(first: SgMap<K, V, N>, second: SgMap<K, V, N>)
    requires
        first.wf(),
        second.wf(),
        second@ == insert_all(Map::<K, V>::empty(), first.listing()),
    ensures
        second@ == first@,
        second.listing() == first.listing(),
{
    first.lemma_listing();
    second.lemma_listing();
    lemma_map_of_empty::<K, V>();
    assert(first.listing().take(0) =~= Seq::<(K, V)>::empty());
    assert(first.listing().skip(0) =~= first.listing());
    lemma_insert_all_ascending(first.listing(), 0);
    lemma_lists_unique(second.listing(), first.listing());
}

/// Iteration round trip: the iteration over a set built from a sequence of
/// elements yields the elements of the sequence, each once, in ascending
/// order.
pub proof fn law_iteration_of_built_set<K: Ord, const N: usize>(set: SgSet<K, N>, items: Seq<K>)
    requires
        set.wf(),
        set@ == items.to_set(),
    ensures
        rising_keys(set.listing()),
        forall|k: K| set.listing().contains(k) <==> items.contains(k),
{
    set.lemma_listing();
}

/// Range correctness: the entries of an ascending listing at the places that
/// a half-open range `lo..hi` spans are precisely the entries with a key `k`
/// such that `lo <= k < hi`, in ascending order.
pub proof fn law_range<K: Ord, V>(list: Seq<(K, V)>, lo: K, hi: K, s: int, e: int)
    requires
        total_order::<K>(),
        ascending(list),
        spans(list, Bound::Included(&lo), Bound::Excluded(&hi), s, e),
    ensures
        ascending(list.subrange(s, e)),
        forall|k: K|
            has_key(list.subrange(s, e), k) <==> has_key(list, k) && key_le(lo, k) && key_lt(k, hi),
        forall|j: int|
            0 <= j < e - s ==> map_of(list).contains_key((#[trigger] list.subrange(s, e)[j]).0) && map_of(list)[list.subrange(
                s,
                e,
            )[j].0] == list.subrange(s, e)[j].1,
{
    let part = list.subrange(s, e);
    lemma_ascending_subrange(list, s, e);
    assert forall|k: K| has_key(part, k) <==> has_key(list, k) && key_le(lo, k) && key_lt(k, hi) by {
        if has_key(part, k) {
            let j = position_of(part, k);
            assert(part[j] == list[j + s]);
            assert(holds_key(list, j + s, k));
            assert(within(Bound::Included(&lo), Bound::Excluded(&hi), list[j + s].0));
        }
        if has_key(list, k) && key_le(lo, k) && key_lt(k, hi) {
            let j = position_of(list, k);
            assert(within(Bound::Included(&lo), Bound::Excluded(&hi), list[j].0));
            assert(holds_key(part, j - s, k));
        }
    }
    assert forall|j: int| 0 <= j < e - s implies map_of(list).contains_key((#[trigger] part[j]).0) && map_of(list)[part[j].0]
        == part[j].1 by {
        assert(part[j] == list[j + s]);
        lemma_map_of_at(list, j + s);
    }
}

/// The split law: where a listing is cut so that the keys before the cut
/// lie below `key` and the keys from it on do not, the first part lists the
/// entries of the map below `key` and the second part the others.
pub proof fn law_split<K: Ord, V>(before: Seq<(K, V)>, low: Seq<(K, V)>, high: Seq<(K, V)>, key: K)
    requires
        total_order::<K>(),
        ascending(before),
        low + high == before,
        forall|j: int| 0 <= j < low.len() ==> key_lt((#[trigger] low[j]).0, key),
        forall|j: int| 0 <= j < high.len() ==> key_le(key, (#[trigger] high[j]).0),
    ensures
        forall|k: K| map_of(low).contains_key(k) <==> map_of(before).contains_key(k) && key_lt(k, key),
        forall|k: K| map_of(high).contains_key(k) <==> map_of(before).contains_key(k) && key_le(key, k),
        forall|k: K| map_of(low).contains_key(k) ==> map_of(low)[k] == map_of(before)[k],
        forall|k: K| map_of(high).contains_key(k) ==> map_of(high)[k] == map_of(before)[k],
{
    let n = low.len() as int;
    assert(before.subrange(0, n) =~= low);
    assert(before.subrange(n, before.len() as int) =~= high);
    lemma_ascending_subrange(before, 0, n);
    lemma_ascending_subrange(before, n, before.len() as int);
    assert forall|k: K| map_of(low).contains_key(k) <==> map_of(before).contains_key(k) && key_lt(k, key) by {
        if has_key(low, k) {
            let j = position_of(low, k);
            assert(holds_key(before, j, k));
        }
        if has_key(before, k) && key_lt(k, key) {
            let j = position_of(before, k);
            if j >= n {
                assert(before[j] == high[j - n]);
                crate::order::lemma_lt_le(k, key, high[j - n].0);
                crate::order::lemma_lt_irreflexive(k);
            }
            assert(holds_key(low, j, k));
        }
    }
    assert forall|k: K| map_of(high).contains_key(k) <==> map_of(before).contains_key(k) && key_le(key, k) by {
        if has_key(high, k) {
            let j = position_of(high, k);
            assert(before[j + n] == high[j]);
            assert(holds_key(before, j + n, k));
        }
        if has_key(before, k) && key_le(key, k) {
            let j = position_of(before, k);
            if j < n {
                assert(before[j] == low[j]);
                crate::order::lemma_lt_le(k, key, k);
                crate::order::lemma_lt_irreflexive(k);
            }
            assert(before[j] == high[j - n]);
            assert(holds_key(high, j - n, k));
        }
    }
    assert forall|k: K| map_of(low).contains_key(k) implies map_of(low)[k] == map_of(before)[k] by {
        let j = position_of(low, k);
        lemma_map_of_at(low, j);
        assert(before[j] == low[j]);
        lemma_map_of_at(before, j);
    }
    assert forall|k: K| map_of(high).contains_key(k) implies map_of(high)[k] == map_of(before)[k] by {
        let j = position_of(high, k);
        lemma_map_of_at(high, j);
        assert(before[j + n] == high[j]);
        lemma_map_of_at(before, j + n);
    }
}

} // verus!
