//! Operations on a whole tree: filtering, splitting and merging. Each works
//! on the slots in key order and then links what is left anew.
use crate::arena::{Arena, Node, SgError};
use crate::balance::larger;
use crate::bounds::{after_start, before_end, bound_key, fault_of, spans, Bound};
use crate::idxbuf::IdxBuf;
use crate::listing::{ascending, lemma_map_of_at, map_of};
use crate::order::{
    compare, key_le, key_lt, lemma_lt_asymmetric, lemma_lt_irreflexive, lemma_lt_total,
    lemma_lt_transitive, total_order, Rel,
};
use crate::shape::{entries, entry_at};
use crate::tree::{loose, SgTree};
use vstd::prelude::*;

verus! {

/// The places `kept` of a sequence, in their order.
pub open spec fn pick<T>(s: Seq<T>, kept: Seq<int>) -> Seq<T> {
    Seq::new(kept.len(), |a: int| s[kept[a]])
}

/// `kept` names places of a sequence of length `n` in ascending order.
pub open spec fn rising(kept: Seq<int>, n: int) -> bool {
    &&& forall|a: int| 0 <= a < kept.len() ==> 0 <= #[trigger] kept[a] < n
    &&& forall|a: int, b: int| 0 <= a < b < kept.len() ==> #[trigger] kept[a] < #[trigger] kept[b]
}

/// Picking places in ascending order from an ascending sequence gives an
/// ascending sequence.
pub proof fn lemma_pick_ascending<K: Ord, V>(s: Seq<(K, V)>, kept: Seq<int>)
    requires
        ascending(s),
        rising(kept, s.len() as int),
    ensures
        ascending(pick(s, kept)),
{
    let t = pick(s, kept);
    assert forall|a: int, b: int| 0 <= a < b < t.len() implies key_lt(#[trigger] t[a].0, #[trigger] t[b].0) by {
        assert(kept[a] < kept[b]);
    }
}

impl<K: Ord, V, const N: usize> SgTree<K, V, N> {
    /// Keeps the entries of which `f` returns `true` and removes the others;
    /// `f` sees each entry once, in ascending key order. The tree is then
    /// rebuilt as a whole.
    pub fn retain<F: Fn(&K, &V) -> bool>(&mut self, f: F)
        requires
            old(self).wf(),
            forall|k: K, v: V| old(self)@.contains_key(k) && old(self)@[k] == v ==> call_requires(f, (&k, &v)),
        ensures
            final(self).wf(),
            forall|k: K| #[trigger]
                final(self)@.contains_key(k) ==> old(self)@.contains_key(k) && final(self)@[k] == old(self)@[k]
                    && call_ensures(f, (&k, &old(self)@[k]), true),
            forall|k: K|
                old(self)@.contains_key(k) && !(#[trigger] final(self)@.contains_key(k)) ==> call_ensures(
                    f,
                    (&k, &old(self)@[k]),
                    false,
                ),
            final(self).max_size_since_rebuild() == final(self)@.len(),
    {
        proof {
            self.lemma_listing();
        }
        let idxs = self.sorted_idxs();
        let n = idxs.len();
        let mut keep = IdxBuf::<N>::new();
        let ghost before = self.listing();
        let ghost s0 = self.arena@;
        let ghost mut kept: Seq<int> = Seq::empty();
        proof {
            old(self).lemma_order();
            old(self).lemma_arena();
            old(self).lemma_listing();
            old(self).lemma_loose();
            assert forall|p: int| 0 <= p < n implies call_requires(f, (&(#[trigger] before[p]).0, &before[p].1)) by {
                lemma_map_of_at(before, p);
            }
        }
        let mut j: usize = 0;
        while j < n
            invariant
                j <= n,
                n == idxs.items().len(),
                n == before.len(),
                n <= N,
                total_order::<K>(),
                ascending(before),
                idxs.items().no_duplicates(),
                self.arena.wf(),
                rising(kept, j as int),
                keep.items().len() == kept.len(),
                forall|a: int| 0 <= a < kept.len() ==> #[trigger] keep.items()[a] == idxs.items()[kept[a]],
                forall|a: int|
                    0 <= a < kept.len() ==> self.arena.used(#[trigger] idxs.items()[kept[a]]) && entry_at(
                        self.arena@,
                        idxs.items()[kept[a]],
                    ) == before[kept[a]],
                forall|p: int|
                    j <= p < n ==> self.arena.used(#[trigger] idxs.items()[p]) && entry_at(
                        self.arena@,
                        idxs.items()[p],
                    ) == before[p],
                forall|p: int| 0 <= p < j && !kept.contains(p) ==> !self.arena.used(#[trigger] idxs.items()[p]),
                forall|i: int|
                    0 <= i < N && (#[trigger] self.arena@[i]) is Used ==> idxs.items().contains(i as usize),
                self.arena.chain@.len() + kept.len() + (n - j) == N,
                forall|a: int|
                    0 <= a < kept.len() ==> call_ensures(f, (&before[#[trigger] kept[a]].0, &before[kept[a]].1), true),
                forall|p: int|
                    0 <= p < j && !kept.contains(p) ==> call_ensures(f, (&(#[trigger] before[p]).0, &before[p].1), false),
                forall|p: int| 0 <= p < n ==> call_requires(f, (&(#[trigger] before[p]).0, &before[p].1)),
            decreases n - j,
        {
            let i = idxs.get(j);
            let node = self.arena.get(i);
            let wanted = f(&node.key, &node.val);
            if wanted {
                keep.push(i);
                proof {
                    let grown = kept.push(j as int);
                    assert forall|p: int| 0 <= p < j + 1 && !grown.contains(p) implies !self.arena.used(
                        #[trigger] idxs.items()[p],
                    ) by {
                        assert(grown[kept.len() as int] == j);
                        if p < j && kept.contains(p) {
                            let a = choose|a: int| 0 <= a < kept.len() && kept[a] == p;
                            assert(grown[a] == p);
                        }
                    }
                    assert forall|p: int| 0 <= p < j + 1 && !grown.contains(p) implies call_ensures(
                        f,
                        (&(#[trigger] before[p]).0, &before[p].1),
                        false,
                    ) by {
                        assert(grown[kept.len() as int] == j);
                        if p < j && kept.contains(p) {
                            let a = choose|a: int| 0 <= a < kept.len() && kept[a] == p;
                            assert(grown[a] == p);
                        }
                    }
                    kept = grown;
                }
            } else {
                let _ = self.arena.free(i);
                proof {
                    assert forall|a: int| 0 <= a < kept.len() implies self.arena.used(
                        #[trigger] idxs.items()[kept[a]],
                    ) && entry_at(self.arena@, idxs.items()[kept[a]]) == before[kept[a]] by {
                        assert(kept[a] < j);
                    }
                }
            }
            j = j + 1;
        }
        proof {
            let picked = pick(before, kept);
            assert(keep.items().no_duplicates()) by {
                assert forall|a: int, b: int|
                    0 <= a < keep.items().len() && 0 <= b < keep.items().len() && a != b implies keep.items()[a]
                    != keep.items()[b] by {
                    if a < b {
                        assert(kept[a] < kept[b]);
                    } else {
                        assert(kept[b] < kept[a]);
                    }
                }
            }
            assert(entries(self.arena@, keep.items()) =~= picked);
            lemma_pick_ascending(before, kept);
            assert forall|i: int| 0 <= i < N && (#[trigger] self.arena@[i]) is Used implies keep.items().contains(
                i as usize,
            ) by {
                let p = choose|p: int| 0 <= p < n && idxs.items()[p] == i as usize;
                if !kept.contains(p) {
                    assert(!self.arena.used(idxs.items()[p]));
                }
                let a = choose|a: int| 0 <= a < kept.len() && kept[a] == p;
                assert(keep.items()[a] == i as usize);
            }
        }
        self.assemble(&keep);
        proof {
            self.lemma_listing();
            let picked = pick(before, kept);
            assert forall|k: K| #[trigger] self@.contains_key(k) implies old(self)@.contains_key(k) && self@[k]
                == old(self)@[k] && call_ensures(f, (&k, &old(self)@[k]), true) by {
                let a = crate::listing::position_of(picked, k);
                assert(crate::listing::holds_key(picked, a, k));
                lemma_map_of_at(picked, a);
                lemma_map_of_at(before, kept[a]);
            }
            assert forall|k: K| old(self)@.contains_key(k) && !(#[trigger] self@.contains_key(k)) implies call_ensures(
                f,
                (&k, &old(self)@[k]),
                false,
            ) by {
                let p = crate::listing::position_of(before, k);
                assert(crate::listing::holds_key(before, p, k));
                lemma_map_of_at(before, p);
                if kept.contains(p) {
                    let a = choose|a: int| 0 <= a < kept.len() && kept[a] == p;
                    assert(picked[a] == before[p]);
                    lemma_map_of_at(picked, a);
                }
            }
        }
    }

    /// The number of entries whose key is below `key`, or, with `or_equal`,
    /// below or equal to it: a binary search over the slots in key order.
    pub(crate) fn rank(&self, idxs: &IdxBuf<N>, key: &K, or_equal: bool) -> (r: usize)
        requires
            self.wf(),
            idxs.items() == self.order(),
        ensures
            r <= self.listing().len(),
            forall|j: int| 0 <= j < r ==> precedes((#[trigger] self.listing()[j]).0, *key, or_equal),
            forall|j: int|
                r <= j < self.listing().len() ==> !precedes((#[trigger] self.listing()[j]).0, *key, or_equal),
    {
        let ghost list = self.listing();
        proof {
            self.lemma_order();
            self.lemma_listing();
        }
        let mut lo: usize = 0;
        let mut hi: usize = idxs.len();
        while lo < hi
            invariant
                lo <= hi <= list.len(),
                list == self.listing(),
                self.wf(),
                idxs.items() == self.order(),
                total_order::<K>(),
                ascending(list),
                forall|j: int| 0 <= j < lo ==> precedes((#[trigger] list[j]).0, *key, or_equal),
                forall|j: int| hi <= j < list.len() ==> !precedes((#[trigger] list[j]).0, *key, or_equal),
            decreases hi - lo,
        {
            let mid = lo + (hi - lo) / 2;
            let i = idxs.get(mid);
            proof {
                self.lemma_order();
                assert(self.order()[mid as int] == i);
            }
            let k = self.key_at(i);
            let before = match compare(k, key) {
                Rel::Less => true,
                Rel::Equal => or_equal,
                Rel::Greater => false,
            };
            proof {
                assert(list[mid as int].0 == *k);
                if key_lt(*k, *key) {
                    lemma_lt_asymmetric(*k, *key);
                }
                lemma_lt_irreflexive(*key);
                assert(before == precedes(*k, *key, or_equal));
            }
            if before {
                proof {
                    assert forall|j: int| 0 <= j < mid + 1 implies precedes((#[trigger] list[j]).0, *key, or_equal) by {
                        if j < mid {
                            lemma_precedes_down(list[j].0, *k, *key, or_equal);
                        }
                    }
                }
                lo = mid + 1;
            } else {
                proof {
                    assert forall|j: int| mid <= j < list.len() implies !precedes(
                        (#[trigger] list[j]).0,
                        *key,
                        or_equal,
                    ) by {
                        if j > mid && precedes(list[j].0, *key, or_equal) {
                            lemma_precedes_down(*k, list[j].0, *key, or_equal);
                        }
                    }
                }
                hi = mid;
            }
        }
        lo
    }

    /// The places of the listing whose keys lie in the range from `lo` to
    /// `hi`, as a start and an end. The bounds must be a range.
    pub(crate) fn window(&self, idxs: &IdxBuf<N>, lo: &Bound<&K>, hi: &Bound<&K>) -> (r: (usize, usize))
        requires
            self.wf(),
            idxs.items() == self.order(),
            fault_of(*lo, *hi) is None,
        ensures
            spans(self.listing(), *lo, *hi, r.0 as int, r.1 as int),
    {
        let start = match lo {
            Bound::Included(a) => self.rank(idxs, *a, false),
            Bound::Excluded(a) => self.rank(idxs, *a, true),
            Bound::Unbounded => 0,
        };
        let end = match hi {
            Bound::Included(b) => self.rank(idxs, *b, true),
            Bound::Excluded(b) => self.rank(idxs, *b, false),
            Bound::Unbounded => idxs.len(),
        };
        let ghost list = self.listing();
        proof {
            self.lemma_order();
            self.lemma_listing();
            assert forall|j: int| 0 <= j < list.len() implies (j >= start <==> after_start(*lo, (#[trigger] list[j]).0)) by {
                lemma_sides(list[j].0, *lo);
            }
            assert forall|j: int| 0 <= j < list.len() implies (j < end <==> before_end(*hi, (#[trigger] list[j]).0)) by {
                lemma_sides(list[j].0, *hi);
            }
            if start > end {
                let j = end as int;
                lemma_sides(list[j].0, *lo);
                lemma_sides(list[j].0, *hi);
                let a = bound_key(*lo)->Some_0;
                let b = bound_key(*hi)->Some_0;
                lemma_lt_total(a, b);
                if key_lt(b, list[j].0) && key_lt(list[j].0, a) {
                    lemma_lt_transitive(b, list[j].0, a);
                }
                assert(false);
            }
        }
        (start, end)
    }

    /// The first `p` of the slots `idxs`, as a buffer of their own.
    fn first_slots(idxs: &IdxBuf<N>, p: usize) -> (keep: IdxBuf<N>)
        requires
            N <= u32::MAX,
            p <= idxs.items().len(),
        ensures
            keep.items() == idxs.items().take(p as int),
    {
        let mut keep = IdxBuf::<N>::new();
        let n = idxs.len();
        let mut j: usize = 0;
        while j < p
            invariant
                j <= p <= n,
                n <= N,
                n == idxs.items().len(),
                keep.items() == idxs.items().take(j as int),
            decreases p - j,
        {
            let i = idxs.get(j);
            keep.push(i);
            proof {
                assert(idxs.items().take(j + 1) =~= idxs.items().take(j as int).push(i));
            }
            j = j + 1;
        }
        keep
    }

    /// Moves the nodes in the slots `idxs[p..]` of `from`, which hold the
    /// entries `list[p..]`, into slots of the empty arena `to`, in their
    /// order, and returns those slots.
    fn hand_over(from: &mut Arena<K, V, N>, to: &mut Arena<K, V, N>, idxs: &IdxBuf<N>, p: usize, Ghost(list): Ghost<
        Seq<(K, V)>,
    >) -> (moved: IdxBuf<N>)
        requires
            N <= u32::MAX,
            loose(*old(from), idxs.items()),
            entries(old(from)@, idxs.items()) == list,
            loose(*old(to), Seq::<usize>::empty()),
            p <= idxs.items().len(),
        ensures
            loose(*final(from), idxs.items().take(p as int)),
            entries(final(from)@, idxs.items().take(p as int)) == list.take(p as int),
            loose(*final(to), moved.items()),
            entries(final(to)@, moved.items()) == list.skip(p as int),
    {
        let n = idxs.len();
        let mut moved = IdxBuf::<N>::new();
        let mut j: usize = p;
        proof {
            assert(entries(from@, idxs.items()).len() == n);
        }
        while j < n
            invariant
                p <= j <= n,
                n == idxs.items().len(),
                n == list.len(),
                n <= N,
                idxs.items().no_duplicates(),
                from.wf(),
                to.wf(),
                moved.items().len() == j - p,
                moved.items().no_duplicates(),
                to.chain@.len() + moved.items().len() == N,
                forall|a: int|
                    0 <= a < moved.items().len() ==> to.used(#[trigger] moved.items()[a]) && entry_at(
                        to@,
                        moved.items()[a],
                    ) == list[p + a],
                forall|i: int| 0 <= i < N && (#[trigger] to@[i]) is Used ==> moved.items().contains(i as usize),
                forall|q: int|
                    0 <= q < p || j <= q < n ==> from.used(#[trigger] idxs.items()[q]) && entry_at(
                        from@,
                        idxs.items()[q],
                    ) == list[q],
                forall|q: int| p <= q < j ==> !from.used(#[trigger] idxs.items()[q]),
                forall|i: int| 0 <= i < N && (#[trigger] from@[i]) is Used ==> idxs.items().contains(i as usize),
                from.chain@.len() + p + (n - j) == N,
            decreases n - j,
        {
            let i = idxs.get(j);
            let node = from.free(i);
            let ghost before = to@;
            let fresh = Node { key: node.key, val: node.val, left: None, right: None, size: 1 };
            let slot = match to.allocate(fresh) {
                Ok(slot) => slot,
                Err(_) => vstd::pervasive::unreached(),
            };
            proof {
                assert(!moved.items().contains(slot)) by {
                    if moved.items().contains(slot) {
                        let a = choose|a: int| 0 <= a < moved.items().len() && moved.items()[a] == slot;
                        assert(before[moved.items()[a] as int] is Used);
                    }
                }
                let grown = moved.items().push(slot);
                assert forall|x: int| 0 <= x < N && (#[trigger] to@[x]) is Used implies grown.contains(x as usize) by {
                    if x == slot {
                        assert(grown[moved.items().len() as int] == slot);
                    } else {
                        assert(before[x] is Used);
                        let a = choose|a: int| 0 <= a < moved.items().len() && moved.items()[a] == x as usize;
                        assert(grown[a] == x as usize);
                    }
                }
            }
            moved.push(slot);
            j = j + 1;
        }
        proof {
            lemma_handed_over(*from, *to, idxs.items(), moved.items(), p as int, list);
        }
        moved
    }

    /// Splits the tree at `key`: the tree keeps the entries whose key is
    /// below `key`, and the entries from `key` on are returned as a tree of
    /// their own. Both are rebuilt as a whole.
    pub fn split_off(&mut self, key: &K) -> (other: Self)
        requires
            old(self).wf(),
        ensures
            final(self).wf(),
            other.wf(),
            final(self).listing() + other.listing() == old(self).listing(),
            forall|j: int| 0 <= j < final(self).listing().len() ==> key_lt((#[trigger] final(self).listing()[j]).0, *key),
            forall|j: int| 0 <= j < other.listing().len() ==> key_le(*key, (#[trigger] other.listing()[j]).0),
            final(self).max_size_since_rebuild() == final(self)@.len(),
            other.max_size_since_rebuild() == other@.len(),
    {
        proof {
            self.lemma_listing();
            self.lemma_order();
            self.lemma_loose();
        }
        let ghost before = self.listing();
        let idxs = self.sorted_idxs();
        let p = self.rank(&idxs, key, false);
        let mut other = SgTree::<K, V, N>::new();
        proof {
            other.lemma_loose();
            other.lemma_order();
            assert(other.order() =~= Seq::<usize>::empty());
        }
        let keep = Self::first_slots(&idxs, p);
        let moved = Self::hand_over(&mut self.arena, &mut other.arena, &idxs, p, Ghost(before));
        self.assemble(&keep);
        other.assemble(&moved);
        proof {
            self.lemma_listing();
            other.lemma_listing();
            assert(before.take(p as int) + before.skip(p as int) =~= before);
            assert forall|j: int| 0 <= j < other.listing().len() implies key_le(*key, (#[trigger] other.listing()[j]).0) by {
                assert(other.listing()[j] == before[p + j]);
                lemma_lt_total(before[p + j].0, *key);
            }
        }
        other
    }

    /// The number of keys that the tree and `other` hold between them;
    /// `idxs` are the slots of `other` in key order.
    fn union_size(&self, other: &Self, idxs: &IdxBuf<N>) -> (count: u64)
        requires
            self.wf(),
            other.wf(),
            idxs.items() == other.order(),
        ensures
            self@.union_prefer_right(other@).dom().finite(),
            count == self@.union_prefer_right(other@).len(),
    {
        let n = idxs.len();
        let ghost a = self@;
        let ghost list = other.listing();
        proof {
            self.lemma_listing();
            other.lemma_listing();
            other.lemma_order();
            lemma_union_prefix(a, list, 0);
        }
        let mut count: u64 = self.len() as u64;
        let mut j: usize = 0;
        while j < n
            invariant
                j <= n,
                n == list.len(),
                n <= N,
                count <= N + j,
                N <= u32::MAX,
                self.wf(),
                other.wf(),
                self@ == a,
                a.dom().finite(),
                list == other.listing(),
                idxs.items() == other.order(),
                total_order::<K>(),
                ascending(list),
                a.union_prefer_right(map_of(list.take(j as int))).dom().finite(),
                count == a.union_prefer_right(map_of(list.take(j as int))).len(),
            decreases n - j,
        {
            let i = idxs.get(j);
            proof {
                other.lemma_order();
                lemma_union_step(a, list, j as int);
            }
            let k = other.key_at(i);
            if !self.contains_key(k) {
                count = count + 1;
            }
            j = j + 1;
        }
        proof {
            assert(list.take(n as int) =~= list);
        }
        count
    }

    /// Takes the nodes in the slots `idxs` of `from`, which hold the entries
    /// `list` in ascending order, and inserts their entries, least key
    /// first. The tree must have room for the keys that it lacks.
    fn absorb(&mut self, from: &mut Arena<K, V, N>, idxs: &IdxBuf<N>, Ghost(list): Ghost<Seq<(K, V)>>)
        requires
            old(self).wf(),
            old(from).wf(),
            ascending(list),
            idxs.items().len() == list.len(),
            idxs.items().no_duplicates(),
            forall|q: int|
                0 <= q < list.len() ==> old(from).used(#[trigger] idxs.items()[q]) && entry_at(
                    old(from)@,
                    idxs.items()[q],
                ) == list[q],
            old(self)@.union_prefer_right(map_of(list)).len() <= N,
        ensures
            final(self).wf(),
            final(from).wf(),
            final(self)@ == old(self)@.union_prefer_right(map_of(list)),
            final(self).max_size_since_rebuild() == larger(old(self).max_size_since_rebuild(), final(self)@.len()),
    {
        let n = idxs.len();
        let ghost a = self@;
        let ghost record = self.max_size_since_rebuild();
        proof {
            self.lemma_height();
        }
        proof {
            self.lemma_listing();
            lemma_union_prefix(a, list, 0);
            lemma_union_prefix(a, list, n as int);
            assert(list.take(n as int) =~= list);
        }
        let mut j: usize = 0;
        while j < n
            invariant
                j <= n,
                n == list.len(),
                n == idxs.items().len(),
                self.wf(),
                from.wf(),
                a.dom().finite(),
                total_order::<K>(),
                ascending(list),
                idxs.items().no_duplicates(),
                self@ == a.union_prefer_right(map_of(list.take(j as int))),
                a.union_prefer_right(map_of(list)).dom().finite(),
                a.union_prefer_right(map_of(list)).len() <= N,
                self.max_size_since_rebuild() == larger(record, self@.len()),
                forall|q: int|
                    j <= q < n ==> from.used(#[trigger] idxs.items()[q]) && entry_at(from@, idxs.items()[q])
                        == list[q],
            decreases n - j,
        {
            let i = idxs.get(j);
            let node = from.free(i);
            proof {
                lemma_union_step(a, list, j as int);
                lemma_union_within(a, list, j + 1);
                self.lemma_listing();
            }
            self.insert(node.key, node.val);
            j = j + 1;
        }
        proof {
            assert(list.take(n as int) =~= list);
        }
    }

    /// Moves the entries of `other` into the tree, the value of `other`
    /// taking the place of the tree's for a key that both hold, and leaves
    /// `other` empty. Fails with `StackCapacityExceeded`, changing neither,
    /// where the two hold more than `N` keys between them.
    pub fn try_append(&mut self, other: &mut Self) -> (r: Result<(), SgError>)
        requires
            old(self).wf(),
            old(other).wf(),
        ensures
            final(self).wf(),
            final(other).wf(),
            r is Err <==> old(self)@.union_prefer_right(old(other)@).len() > N,
            match r {
                Ok(_) => {
                    &&& final(self)@ == old(self)@.union_prefer_right(old(other)@)
                    &&& final(other)@ == Map::<K, V>::empty()
                    &&& final(self).max_size_since_rebuild() == larger(
                        old(self).max_size_since_rebuild(),
                        final(self)@.len(),
                    )
                    &&& final(other).max_size_since_rebuild() == 0
                },
                Err(_) => *final(self) == *old(self) && *final(other) == *old(other),
            },
    {
        let idxs = other.sorted_idxs();
        let count = self.union_size(other, &idxs);
        if count > N as u64 {
            return Err(SgError::StackCapacityExceeded);
        }
        let ghost list = other.listing();
        proof {
            other.lemma_listing();
            other.lemma_order();
            other.lemma_arena();
        }
        self.absorb(&mut other.arena, &idxs, Ghost(list));
        other.clear_arena();
        Ok(())
    }

    /// Moves the entries of `other` into the tree, the value of `other`
    /// taking the place of the tree's for a key that both hold, and leaves
    /// `other` empty. The two must hold at most `N` keys between them.
    pub fn append(&mut self, other: &mut Self)
        requires
            old(self).wf(),
            old(other).wf(),
            old(self)@.union_prefer_right(old(other)@).len() <= N,
        ensures
            final(self).wf(),
            final(other).wf(),
            final(self)@ == old(self)@.union_prefer_right(old(other)@),
            final(other)@ == Map::<K, V>::empty(),
            final(self).max_size_since_rebuild() == larger(old(self).max_size_since_rebuild(), final(self)@.len()),
            final(other).max_size_since_rebuild() == 0,
    {
        match self.try_append(other) {
            Ok(_) => {},
            Err(_) => vstd::pervasive::unreached(),
        }
    }

    /// Inserts the entries of `items` in their order, a later value taking
    /// the place of an earlier one for the same key. Fails with
    /// `StackCapacityExceeded`, changing nothing, where `items` is longer
    /// than the tree has free slots.
    pub fn try_extend(&mut self, items: Vec<(K, V)>) -> (r: Result<(), SgError>)
        requires
            old(self).wf(),
        ensures
            final(self).wf(),
            r is Err <==> items@.len() > N - old(self)@.len(),
            match r {
                Ok(_) => final(self)@ == insert_all(old(self)@, items@) && final(self).max_size_since_rebuild()
                    == larger(old(self).max_size_since_rebuild(), final(self)@.len()),
                Err(_) => *final(self) == *old(self),
            },
    {
        let room = N - self.len();
        if items.len() > room {
            return Err(SgError::StackCapacityExceeded);
        }
        proof {
            self.lemma_listing();
            lemma_insert_all_grows(self@, items@);
        }
        self.extend(items);
        Ok(())
    }

    /// Inserts the entries of `items` in their order, a later value taking
    /// the place of an earlier one for the same key. The tree must have room
    /// for the keys that it lacks.
    pub fn extend(&mut self, items: Vec<(K, V)>)
        requires
            old(self).wf(),
            insert_all(old(self)@, items@).len() <= N,
        ensures
            final(self).wf(),
            final(self)@ == insert_all(old(self)@, items@),
            final(self).max_size_since_rebuild() == larger(old(self).max_size_since_rebuild(), final(self)@.len()),
    {
        let ghost start = self@;
        let ghost all = items@;
        let ghost target = insert_all(start, all);
        let ghost record = self.max_size_since_rebuild();
        proof {
            self.lemma_listing();
            self.lemma_height();
            assert(all.skip(0) =~= all);
        }
        for e in it: items.into_iter()
            invariant
                it.seq() == all,
                self.wf(),
                self@.dom().finite(),
                insert_all(self@, all.skip(it.index() as int)) == target,
                target.len() <= N,
                self.max_size_since_rebuild() == larger(record, self@.len()),
        {
            proof {
                let j = it.index() as int;
                assert(all.skip(j).skip(1) =~= all.skip(j + 1));
                assert(all.skip(j)[0] == e);
                lemma_insert_all_grows(self@.insert(e.0, e.1), all.skip(j + 1));
            }
            self.insert(e.0, e.1);
            proof {
                self.lemma_listing();
            }
        }
        proof {
            assert(all.skip(all.len() as int) =~= Seq::<(K, V)>::empty());
        }
    }

    /// The tree of the entries of `items`, inserted in their order. `items`
    /// must be no longer than `N`.
    pub fn from_iter(items: Vec<(K, V)>) -> (t: Self)
        requires
            total_order::<K>(),
            N <= u32::MAX,
            items@.len() <= N,
        ensures
            t.wf(),
            t@ == insert_all(Map::<K, V>::empty(), items@),
    {
        let mut t = SgTree::new();
        proof {
            t.lemma_listing();
            lemma_insert_all_grows(t@, items@);
        }
        t.extend(items);
        t
    }
}

/// `a` comes before `b` in the key order, or, with `or_equal`, is `b`.
pub open spec fn precedes<K: Ord>(a: K, b: K, or_equal: bool) -> bool {
    key_lt(a, b) || (or_equal && a == b)
}

/// What two arenas hold once the nodes in the slots `idxs[p..]` of the first
/// were moved into the slots `moved` of the second.
pub(crate) proof fn lemma_handed_over<K: Ord, V, const N: usize>(
    from: Arena<K, V, N>,
    to: Arena<K, V, N>,
    idxs: Seq<usize>,
    moved: Seq<usize>,
    p: int,
    list: Seq<(K, V)>,
)
    requires
        0 <= p <= idxs.len(),
        idxs.len() == list.len(),
        ascending(list),
        idxs.no_duplicates(),
        from.wf(),
        to.wf(),
        moved.len() == idxs.len() - p,
        moved.no_duplicates(),
        to.chain@.len() + moved.len() == N,
        forall|a: int| 0 <= a < moved.len() ==> to.used(#[trigger] moved[a]) && entry_at(to@, moved[a]) == list[p + a],
        forall|i: int| 0 <= i < N && (#[trigger] to@[i]) is Used ==> moved.contains(i as usize),
        forall|q: int| 0 <= q < p ==> from.used(#[trigger] idxs[q]) && entry_at(from@, idxs[q]) == list[q],
        forall|q: int| p <= q < idxs.len() ==> !from.used(#[trigger] idxs[q]),
        forall|i: int| 0 <= i < N && (#[trigger] from@[i]) is Used ==> idxs.contains(i as usize),
        from.chain@.len() + p == N,
    ensures
        loose(from, idxs.take(p)),
        entries(from@, idxs.take(p)) == list.take(p),
        loose(to, moved),
        entries(to@, moved) == list.skip(p),
{
    let keep = idxs.take(p);
    assert(entries(from@, keep) =~= list.take(p));
    assert(entries(to@, moved) =~= list.skip(p));
    crate::listing::lemma_ascending_subrange(list, 0, p);
    crate::listing::lemma_ascending_subrange(list, p, list.len() as int);
    assert(list.subrange(0, p) =~= list.take(p));
    assert(list.subrange(p, list.len() as int) =~= list.skip(p));
    assert forall|x: int| 0 <= x < N && (#[trigger] from@[x]) is Used implies keep.contains(x as usize) by {
        let q = choose|q: int| 0 <= q < idxs.len() && idxs[q] == x as usize;
        if q >= p {
            assert(!from.used(idxs[q]));
        }
        assert(keep[q] == x as usize);
    }
    assert forall|j: int| 0 <= j < keep.len() implies (#[trigger] keep[j]) < from@.len() && from@[keep[j] as int] is Used by {
        assert(keep[j] == idxs[j]);
    }
    assert(keep.no_duplicates()) by {
        assert forall|i: int, j: int| 0 <= i < keep.len() && 0 <= j < keep.len() && i != j implies keep[i] != keep[j] by {
            assert(keep[i] == idxs[i] && keep[j] == idxs[j]);
        }
    }
}

/// A key is either before a bound's key, or the key itself, or after it,
/// and so on one side of the bound only.
pub proof fn lemma_sides<K: Ord>(k: K, b: Bound<&K>)
    requires
        total_order::<K>(),
    ensures
        match b {
            Bound::Included(a) => {
                &&& precedes(k, *a, false) <==> !after_start(b, k)
                &&& precedes(k, *a, true) <==> before_end(b, k)
            },
            Bound::Excluded(a) => {
                &&& precedes(k, *a, true) <==> !after_start(b, k)
                &&& precedes(k, *a, false) <==> before_end(b, k)
            },
            Bound::Unbounded => true,
        },
{
    match b {
        Bound::Unbounded => {},
        Bound::Included(a) => {
            lemma_lt_total(k, *a);
            lemma_lt_irreflexive(k);
            if key_lt(k, *a) {
                lemma_lt_asymmetric(k, *a);
            }
            if key_lt(*a, k) {
                lemma_lt_asymmetric(*a, k);
            }
        },
        Bound::Excluded(a) => {
            lemma_lt_total(k, *a);
            lemma_lt_irreflexive(k);
            if key_lt(k, *a) {
                lemma_lt_asymmetric(k, *a);
            }
            if key_lt(*a, k) {
                lemma_lt_asymmetric(*a, k);
            }
        },
    }
}

/// What is below a key that precedes `c` precedes `c`.
pub proof fn lemma_precedes_down<K: Ord>(a: K, b: K, c: K, or_equal: bool)
    requires
        total_order::<K>(),
        key_lt(a, b),
        precedes(b, c, or_equal),
    ensures
        precedes(a, c, or_equal),
{
    if b != c {
        lemma_lt_transitive(a, b, c);
    }
}

} // verus!

verus! {

/// The map `m` after the entries of `s` were inserted in their order.
pub open spec fn insert_all<K, V>(m: Map<K, V>, s: Seq<(K, V)>) -> Map<K, V>
    decreases s.len(),
{
    if s.len() == 0 {
        m
    } else {
        insert_all(m.insert(s[0].0, s[0].1), s.skip(1))
    }
}

/// Inserting entries into a finite map keeps it finite and keeps its keys,
/// and adds at most one key for each entry.
pub proof fn lemma_insert_all_grows<K, V>(m: Map<K, V>, s: Seq<(K, V)>)
    requires
        m.dom().finite(),
    ensures
        insert_all(m, s).dom().finite(),
        m.dom().subset_of(insert_all(m, s).dom()),
        m.len() <= insert_all(m, s).len() <= m.len() + s.len(),
    decreases s.len(),
{
    if s.len() > 0 {
        let next = m.insert(s[0].0, s[0].1);
        lemma_insert_all_grows(next, s.skip(1));
        vstd::set_lib::lemma_len_subset(m.dom(), insert_all(m, s).dom());
    }
}

/// The union of a finite map with the first entries of an ascending
/// sequence is finite.
pub proof fn lemma_union_prefix<K: Ord, V>(a: Map<K, V>, list: Seq<(K, V)>, j: int)
    requires
        total_order::<K>(),
        a.dom().finite(),
        ascending(list),
        0 <= j <= list.len(),
    ensures
        a.union_prefer_right(map_of(list.take(j))).dom().finite(),
        j == 0 ==> a.union_prefer_right(map_of(list.take(j))) == a,
{
    crate::listing::lemma_ascending_subrange(list, 0, j);
    assert(list.subrange(0, j) =~= list.take(j));
    crate::listing::lemma_map_of_len(list.take(j));
    assert(a.union_prefer_right(map_of(list.take(j))).dom() =~= a.dom().union(map_of(list.take(j)).dom()));
    vstd::set_lib::lemma_set_union_finite_iff(a.dom(), map_of(list.take(j)).dom());
    if j == 0 {
        crate::listing::lemma_map_of_empty::<K, V>();
        assert(list.take(0) =~= Seq::<(K, V)>::empty());
        assert(a.union_prefer_right(map_of(list.take(j))) =~= a);
    }
}

/// Taking one more entry of an ascending sequence into the union with a map
/// inserts that entry, and adds a key exactly where the map lacks it.
pub proof fn lemma_union_step<K: Ord, V>(a: Map<K, V>, list: Seq<(K, V)>, j: int)
    requires
        total_order::<K>(),
        a.dom().finite(),
        ascending(list),
        0 <= j < list.len(),
    ensures
        a.union_prefer_right(map_of(list.take(j + 1))) == a.union_prefer_right(map_of(list.take(j))).insert(
            list[j].0,
            list[j].1,
        ),
        a.union_prefer_right(map_of(list.take(j))).dom().finite(),
        a.union_prefer_right(map_of(list.take(j + 1))).dom().finite(),
        a.union_prefer_right(map_of(list.take(j))).contains_key(list[j].0) == a.contains_key(list[j].0),
        a.union_prefer_right(map_of(list.take(j + 1))).len() == a.union_prefer_right(map_of(list.take(j))).len() + (
        if a.contains_key(list[j].0) {
            0int
        } else {
            1int
        }),
{
    let low = list.take(j);
    let next = list.take(j + 1);
    lemma_union_prefix(a, list, j);
    lemma_union_prefix(a, list, j + 1);
    crate::listing::lemma_ascending_subrange(list, 0, j);
    assert(list.subrange(0, j) =~= low);
    assert forall|q: int| 0 <= q < j implies key_lt((#[trigger] low[q]).0, list[j].0) by {
        assert(low[q] == list[q]);
    }
    assert(crate::listing::gap_at(low, j, list[j].0));
    crate::listing::lemma_insert_at_gap(low, j, list[j].0, list[j].1);
    crate::listing::lemma_gap_absent(low, j, list[j].0);
    assert(low.insert(j, list[j]) =~= next);
    let u = a.union_prefer_right(map_of(low));
    assert(a.union_prefer_right(map_of(next)) =~= u.insert(list[j].0, list[j].1));
}

/// The union of a map with the first entries of an ascending sequence is
/// no larger than its union with the whole sequence.
pub proof fn lemma_union_within<K: Ord, V>(a: Map<K, V>, list: Seq<(K, V)>, j: int)
    requires
        total_order::<K>(),
        a.dom().finite(),
        ascending(list),
        0 <= j <= list.len(),
    ensures
        a.union_prefer_right(map_of(list.take(j))).len() <= a.union_prefer_right(map_of(list)).len(),
    decreases list.len() - j,
{
    if j == list.len() {
        assert(list.take(j) =~= list);
    } else {
        lemma_union_step(a, list, j);
        lemma_union_within(a, list, j + 1);
    }
}

} // verus!
