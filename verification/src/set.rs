//! The ordered set: a map with unit values, and the algebra of sets.
use crate::arena::SgError;
use crate::balance::{larger, log_alpha, record_after_removal};
use crate::bounds::{fault_of, spans, Bound};
use crate::listing::{ascending, has_key, holds_key, map_of, position_of};
use crate::map::SgMap;
use crate::map_types::{Iter as MapIter, Range as MapRange};
use crate::merge::{lemma_merge, lets, merge, MergeIter, Pass};
use crate::order::{key_le, key_lt, total_order};
use crate::set_types::{
    keys_of, rising_keys, spans_keys, Difference, Intersection, IntoIter, Iter, Range, SymmetricDifference,
    Union,
};
use vstd::prelude::*;

verus! {

/// An ordered set of at most `N` elements.
#[derive(Clone)]
pub struct SgSet<K: Ord, const N: usize> {
    pub(crate) bst: SgMap<K, (), N>,
}

impl<K: Ord, const N: usize> View for SgSet<K, N> {
    type V = Set<K>;

    open(crate) spec fn view(&self) -> Set<K> {
        self.bst@.dom()
    }
}

/// Whether `pass` lets through a key that the left sequence holds or not,
/// and the right one holds or not.
pub open spec fn passes(pass: Pass, in_left: bool, in_right: bool) -> bool {
    ||| pass.left && in_left && !in_right
    ||| pass.both && in_left && in_right
    ||| pass.right && !in_left && in_right
}

/// The keys of an ascending sequence ascend, and are the keys of its map.
pub proof fn lemma_keys_of<K: Ord, V>(s: Seq<(K, V)>)
    requires
        total_order::<K>(),
        ascending(s),
    ensures
        rising_keys(keys_of(s)),
        forall|k: K| keys_of(s).contains(k) <==> has_key(s, k),
        forall|k: K| keys_of(s).contains(k) <==> map_of(s).contains_key(k),
{
    assert forall|k: K| keys_of(s).contains(k) <==> has_key(s, k) by {
        if keys_of(s).contains(k) {
            let j = choose|j: int| 0 <= j < keys_of(s).len() && keys_of(s)[j] == k;
            assert(holds_key(s, j, k));
        }
        if has_key(s, k) {
            let j = position_of(s, k);
            assert(keys_of(s)[j] == k);
        }
    }
}

impl<K: Ord, const N: usize> SgSet<K, N> {
    /// The invariant of the map behind the set.
    pub open(crate) spec fn wf(&self) -> bool {
        self.bst.wf()
    }

    /// The elements in ascending order.
    pub open(crate) spec fn listing(&self) -> Seq<K> {
        keys_of(self.bst.listing())
    }

    /// The number of nodes on the longest way from the root down.
    pub open(crate) spec fn levels(&self) -> nat {
        self.bst.levels()
    }

    /// The largest number of elements that the set has held since its tree
    /// was last rebuilt as a whole.
    pub open(crate) spec fn max_size_since_rebuild(&self) -> nat {
        self.bst.max_size_since_rebuild()
    }

    /// The listing ascends, lists the set, and is as long as the set is
    /// large; the elements are totally ordered.
    pub proof fn lemma_listing(&self)
        requires
            self.wf(),
        ensures
            total_order::<K>(),
            rising_keys(self.listing()),
            forall|k: K| self.listing().contains(k) <==> self@.contains(k),
            self@.finite(),
            self@.len() == self.listing().len(),
            self.listing().len() <= N,
            N <= u32::MAX,
    {
        self.bst.lemma_listing();
        lemma_keys_of(self.bst.listing());
    }

    /// The empty set.
    pub fn new() -> (s: Self)
        requires
            total_order::<K>(),
            N <= u32::MAX,
        ensures
            s.wf(),
            s@ == Set::<K>::empty(),
    {
        let s = SgSet { bst: SgMap::new() };
        proof {
            assert(s@ =~= Set::<K>::empty());
        }
        s
    }

    /// The number of elements.
    pub fn len(&self) -> (n: usize)
        requires
            self.wf(),
        ensures
            n == self@.len(),
            n == self.listing().len(),
            n <= N,
    {
        self.bst.len()
    }

    /// Whether the set holds no element.
    pub fn is_empty(&self) -> (b: bool)
        requires
            self.wf(),
        ensures
            b == (self@.len() == 0),
            b == (self@ == Set::<K>::empty()),
    {
        let b = self.bst.is_empty();
        proof {
            if b {
                assert(self@ =~= Set::<K>::empty());
            }
            if self@ == Set::<K>::empty() {
                assert(self.bst@ =~= Map::<K, ()>::empty());
            }
        }
        b
    }

    /// The number of nodes on the longest way from the root of the tree
    /// down; 0 for the empty set.
    pub fn height(&self) -> (h: usize)
        requires
            self.wf(),
        ensures
            h == self.levels(),
            h <= log_alpha(self.max_size_since_rebuild()) + 2,
    {
        self.bst.height()
    }

    /// The largest number of elements that the set has held since its tree
    /// was last rebuilt as a whole.
    pub fn max_size(&self) -> (m: usize)
        requires
            self.wf(),
        ensures
            m == self.max_size_since_rebuild(),
            self@.len() <= m <= N,
    {
        self.bst.max_size()
    }

    /// The largest number of elements that the set can hold, `N`.
    pub fn capacity(&self) -> (n: usize)
        ensures
            n == N,
    {
        N
    }

    /// Removes every element.
    pub fn clear(&mut self)
        requires
            old(self).wf(),
        ensures
            final(self).wf(),
            final(self)@ == Set::<K>::empty(),
            final(self).max_size_since_rebuild() == 0,
    {
        self.bst.clear();
        proof {
            assert(self@ =~= Set::<K>::empty());
        }
    }

    /// Whether the set holds `value`.
    pub fn contains(&self, value: &K) -> (b: bool)
        requires
            self.wf(),
        ensures
            b == self@.contains(*value),
    {
        self.bst.contains_key(value)
    }

    /// The element of the set that equals `value`, if there is one.
    pub fn get(&self, value: &K) -> (r: Option<&K>)
        requires
            self.wf(),
        ensures
            r == (if self@.contains(*value) {
                Some(value)
            } else {
                None
            }),
    {
        match self.bst.get_key_value(value) {
            Some((k, _)) => Some(k),
            None => None,
        }
    }

    /// Adds `value` and returns whether the set lacked it. Fails with
    /// `StackCapacityExceeded`, changing nothing, where the set lacks the
    /// value and holds `N` elements.
    pub fn try_insert(&mut self, value: K) -> (r: Result<bool, SgError>)
        requires
            old(self).wf(),
        ensures
            final(self).wf(),
            r is Err <==> !old(self)@.contains(value) && old(self)@.len() == N,
            match r {
                Ok(fresh) => {
                    &&& final(self)@ == old(self)@.insert(value)
                    &&& fresh == !old(self)@.contains(value)
                    &&& final(self).levels() <= log_alpha(final(self).max_size_since_rebuild()) + 2
                    &&& final(self).max_size_since_rebuild() == larger(
                        old(self).max_size_since_rebuild(),
                        final(self)@.len(),
                    )
                },
                Err(e) => *final(self) == *old(self),
            },
    {
        match self.bst.try_insert(value, ()) {
            Ok(before) => {
                proof {
                    assert(self@ =~= old(self)@.insert(value));
                }
                Ok(before.is_none())
            },
            Err(e) => Err(e),
        }
    }

    /// Adds `value` and returns whether the set lacked it. The set must hold
    /// the value or fewer than `N` elements.
    pub fn insert(&mut self, value: K) -> (fresh: bool)
        requires
            old(self).wf(),
            old(self)@.contains(value) || old(self)@.len() < N,
        ensures
            final(self).wf(),
            final(self)@ == old(self)@.insert(value),
            fresh == !old(self)@.contains(value),
            final(self).levels() <= log_alpha(final(self).max_size_since_rebuild()) + 2,
            final(self).max_size_since_rebuild() == larger(old(self).max_size_since_rebuild(), final(self)@.len()),
    {
        match self.try_insert(value) {
            Ok(fresh) => fresh,
            Err(_) => vstd::pervasive::unreached(),
        }
    }

    /// Removes `value` and returns whether the set held it.
    pub fn remove(&mut self, value: &K) -> (held: bool)
        requires
            old(self).wf(),
        ensures
            final(self).wf(),
            final(self)@ == old(self)@.remove(*value),
            held == old(self)@.contains(*value),
            final(self).max_size_since_rebuild() == (if old(self)@.contains(*value) {
                record_after_removal(old(self).max_size_since_rebuild(), final(self)@.len())
            } else {
                old(self).max_size_since_rebuild()
            }),
    {
        let r = self.bst.remove(value);
        proof {
            assert(self@ =~= old(self)@.remove(*value));
        }
        r.is_some()
    }

    /// Removes and returns the element that equals `value`, if the set holds
    /// one.
    pub fn take(&mut self, value: &K) -> (r: Option<K>)
        requires
            old(self).wf(),
        ensures
            final(self).wf(),
            final(self)@ == old(self)@.remove(*value),
            r == (if old(self)@.contains(*value) {
                Some(*value)
            } else {
                None
            }),
            final(self).max_size_since_rebuild() == (if old(self)@.contains(*value) {
                record_after_removal(old(self).max_size_since_rebuild(), final(self)@.len())
            } else {
                old(self).max_size_since_rebuild()
            }),
    {
        let r = self.bst.remove_entry(value);
        proof {
            assert(self@ =~= old(self)@.remove(*value));
        }
        match r {
            Some((k, _)) => Some(k),
            None => None,
        }
    }

    /// The least element.
    pub fn first(&self) -> (r: Option<&K>)
        requires
            self.wf(),
        ensures
            match r {
                Some(k) => self.listing().len() > 0 && *k == self.listing()[0],
                None => self.listing().len() == 0,
            },
    {
        self.bst.first_key()
    }

    /// The greatest element.
    pub fn last(&self) -> (r: Option<&K>)
        requires
            self.wf(),
        ensures
            match r {
                Some(k) => self.listing().len() > 0 && *k == self.listing().last(),
                None => self.listing().len() == 0,
            },
    {
        self.bst.last_key()
    }

    /// Removes and returns the least element.
    pub fn pop_first(&mut self) -> (r: Option<K>)
        requires
            old(self).wf(),
        ensures
            final(self).wf(),
            match r {
                Some(k) => {
                    &&& old(self).listing().len() > 0
                    &&& k == old(self).listing()[0]
                    &&& final(self).listing() == old(self).listing().remove(0)
                    &&& final(self)@ == old(self)@.remove(k)
                    &&& final(self).max_size_since_rebuild() == record_after_removal(
                        old(self).max_size_since_rebuild(),
                        final(self)@.len(),
                    )
                },
                None => old(self).listing().len() == 0 && *final(self) == *old(self),
            },
    {
        match self.bst.pop_first() {
            Some((k, _)) => {
                proof {
                    assert(self.listing() =~= old(self).listing().remove(0));
                    assert(self@ =~= old(self)@.remove(k));
                }
                Some(k)
            },
            None => None,
        }
    }

    /// Removes and returns the greatest element.
    pub fn pop_last(&mut self) -> (r: Option<K>)
        requires
            old(self).wf(),
        ensures
            final(self).wf(),
            match r {
                Some(k) => {
                    &&& old(self).listing().len() > 0
                    &&& k == old(self).listing().last()
                    &&& final(self).listing() == old(self).listing().drop_last()
                    &&& final(self)@ == old(self)@.remove(k)
                    &&& final(self).max_size_since_rebuild() == record_after_removal(
                        old(self).max_size_since_rebuild(),
                        final(self)@.len(),
                    )
                },
                None => old(self).listing().len() == 0 && *final(self) == *old(self),
            },
    {
        match self.bst.pop_last() {
            Some((k, _)) => {
                proof {
                    assert(self.listing() =~= old(self).listing().drop_last());
                    assert(self@ =~= old(self)@.remove(k));
                }
                Some(k)
            },
            None => None,
        }
    }

    /// An iterator over the elements in ascending order.
    pub fn iter(&self) -> (it: Iter<'_, K, N>)
        requires
            self.wf(),
        ensures
            it.wf(),
            it.remaining() == self.listing(),
    {
        Iter::new(self)
    }

    /// An iterator that takes the elements in ascending order.
    pub fn into_iter(self) -> (it: IntoIter<K, N>)
        requires
            self.wf(),
        ensures
            it.wf(),
            it.remaining() == self.listing(),
    {
        IntoIter::new(self)
    }

    /// An iterator over the elements that lie in the range from `lo` to
    /// `hi`, in ascending order. The bounds must be a range: not start above
    /// their end, nor start and end at one element that both exclude.
    pub fn range(&self, lo: Bound<&K>, hi: Bound<&K>) -> (it: Range<'_, K, N>)
        requires
            self.wf(),
            fault_of(lo, hi) is None,
        ensures
            it.wf(),
            exists|s: int, e: int| #[trigger]
                spans_keys(self.listing(), lo, hi, s, e) && it.remaining() == self.listing().subrange(s, e),
    {
        let inner = MapRange::new(&self.bst, &lo, &hi);
        proof {
            let (s, e) = choose|s: int, e: int| #[trigger]
                spans(self.bst.listing(), lo, hi, s, e) && inner.remaining() == self.bst.listing().subrange(s, e);
            assert(keys_of(inner.remaining()) =~= self.listing().subrange(s, e));
            assert forall|j: int| 0 <= j < self.listing().len() implies (s <= j < e <==> crate::bounds::within(
                lo,
                hi,
                #[trigger] self.listing()[j],
            )) by {
                assert(self.listing()[j] == self.bst.listing()[j].0);
            }
            assert(spans_keys(self.listing(), lo, hi, s, e));
        }
        Range { inner }
    }

    /// Splits the set at `value`: the set keeps the elements below `value`,
    /// and the elements from `value` on are returned as a set of their own.
    pub fn split_off(&mut self, value: &K) -> (other: Self)
        requires
            old(self).wf(),
        ensures
            final(self).wf(),
            other.wf(),
            final(self).listing() + other.listing() == old(self).listing(),
            forall|j: int| 0 <= j < final(self).listing().len() ==> key_lt(#[trigger] final(self).listing()[j], *value),
            forall|j: int| 0 <= j < other.listing().len() ==> key_le(*value, #[trigger] other.listing()[j]),
            final(self).max_size_since_rebuild() == final(self)@.len(),
            other.max_size_since_rebuild() == other@.len(),
    {
        let other = SgSet { bst: self.bst.split_off(value) };
        proof {
            assert(self.listing() + other.listing() =~= old(self).listing()) by {
                let a = self.bst.listing();
                let b = other.bst.listing();
                assert(keys_of(a) + keys_of(b) =~= keys_of(a + b));
            }
            assert forall|j: int| 0 <= j < self.listing().len() implies key_lt(#[trigger] self.listing()[j], *value) by {
                assert(self.listing()[j] == self.bst.listing()[j].0);
            }
            assert forall|j: int| 0 <= j < other.listing().len() implies key_le(*value, #[trigger] other.listing()[j]) by {
                assert(other.listing()[j] == other.bst.listing()[j].0);
            }
        }
        other
    }

    /// Moves the elements of `other` into the set and leaves `other` empty.
    /// Fails with `StackCapacityExceeded`, changing neither, where the two
    /// hold more than `N` elements between them.
    pub fn try_append(&mut self, other: &mut Self) -> (r: Result<(), SgError>)
        requires
            old(self).wf(),
            old(other).wf(),
        ensures
            final(self).wf(),
            final(other).wf(),
            r is Err <==> old(self)@.union(old(other)@).len() > N,
            match r {
                Ok(_) => {
                    &&& final(self)@ == old(self)@.union(old(other)@)
                    &&& final(other)@ == Set::<K>::empty()
                    &&& final(self).max_size_since_rebuild() == larger(
                        old(self).max_size_since_rebuild(),
                        final(self)@.len(),
                    )
                    &&& final(other).max_size_since_rebuild() == 0
                },
                Err(_) => *final(self) == *old(self) && *final(other) == *old(other),
            },
    {
        proof {
            assert(old(self).bst@.union_prefer_right(old(other).bst@).dom() =~= old(self)@.union(old(other)@));
        }
        let r = self.bst.try_append(&mut other.bst);
        proof {
            if r is Ok {
                assert(other@ =~= Set::<K>::empty());
            }
        }
        r
    }

    /// Moves the elements of `other` into the set and leaves `other` empty.
    /// The two must hold at most `N` elements between them.
    pub fn append(&mut self, other: &mut Self)
        requires
            old(self).wf(),
            old(other).wf(),
            old(self)@.union(old(other)@).len() <= N,
        ensures
            final(self).wf(),
            final(other).wf(),
            final(self)@ == old(self)@.union(old(other)@),
            final(other)@ == Set::<K>::empty(),
            final(self).max_size_since_rebuild() == larger(old(self).max_size_since_rebuild(), final(self)@.len()),
            final(other).max_size_since_rebuild() == 0,
    {
        match self.try_append(other) {
            Ok(_) => {},
            Err(_) => vstd::pervasive::unreached(),
        }
    }

    /// Keeps the elements of which `f` returns `true` and removes the
    /// others; `f` sees each element once, in ascending order.
    pub fn retain<F: Fn(&K) -> bool>(&mut self, f: F)
        requires
            old(self).wf(),
            forall|k: K| old(self)@.contains(k) ==> call_requires(f, (&k,)),
        ensures
            final(self).wf(),
            forall|k: K| #[trigger] final(self)@.contains(k) ==> old(self)@.contains(k) && call_ensures(f, (&k,), true),
            forall|k: K|
                old(self)@.contains(k) && !(#[trigger] final(self)@.contains(k)) ==> call_ensures(f, (&k,), false),
            final(self).max_size_since_rebuild() == final(self)@.len(),
    {
        let g = &f;
        let keep = |k: &K, v: &()| -> (b: bool)
            requires
                call_requires(g, (k,)),
            ensures
                call_ensures(g, (k,), b),
            { g(k) };
        assert forall|k: K, v: ()| self.bst@.contains_key(k) && self.bst@[k] == v implies call_requires(
            keep,
            (&k, &v),
        ) by {
            assert(self@.contains(k));
            assert(call_requires(f, (&k,)));
        }
        self.bst.retain(keep);
    }

    /// Adds the elements of `items` in their order. Fails with
    /// `StackCapacityExceeded`, changing nothing, where `items` is longer
    /// than the set has room.
    pub fn try_extend(&mut self, items: Vec<K>) -> (r: Result<(), SgError>)
        requires
            old(self).wf(),
        ensures
            final(self).wf(),
            r is Err <==> items@.len() > N - old(self)@.len(),
            match r {
                Ok(_) => final(self)@ == old(self)@.union(items@.to_set()) && final(self).max_size_since_rebuild()
                    == larger(old(self).max_size_since_rebuild(), final(self)@.len()),
                Err(_) => *final(self) == *old(self),
            },
    {
        let room = N - self.len();
        if items.len() > room {
            return Err(SgError::StackCapacityExceeded);
        }
        proof {
            self.lemma_listing();
            vstd::seq_lib::seq_to_set_is_finite(items@);
            items@.lemma_cardinality_of_set();
            vstd::set_lib::lemma_len_union(self@, items@.to_set());
        }
        self.extend(items);
        Ok(())
    }

    /// Adds the elements of `items` in their order. The set must have room
    /// for those that it lacks.
    pub fn extend(&mut self, items: Vec<K>)
        requires
            old(self).wf(),
            old(self)@.union(items@.to_set()).len() <= N,
        ensures
            final(self).wf(),
            final(self)@ == old(self)@.union(items@.to_set()),
            final(self).max_size_since_rebuild() == larger(old(self).max_size_since_rebuild(), final(self)@.len()),
    {
        let ghost start = self@;
        let ghost all = items@;
        let ghost target = start.union(all.to_set());
        let ghost record = self.max_size_since_rebuild();
        proof {
            self.lemma_listing();
            self.bst.lemma_height();
            vstd::seq_lib::seq_to_set_is_finite(all);
            vstd::set_lib::lemma_set_union_finite_iff(start, all.to_set());
            assert(all.take(0).to_set() =~= Set::<K>::empty());
            assert(start.union(all.take(0).to_set()) =~= start);
        }
        for e in it: items.into_iter()
            invariant
                it.seq() == all,
                self.wf(),
                self@.finite(),
                target.finite(),
                target == start.union(all.to_set()),
                target.len() <= N,
                self@ == start.union(all.take(it.index() as int).to_set()),
                self.max_size_since_rebuild() == larger(record, self@.len()),
        {
            let ghost j = it.index() as int;
            proof {
                let t0 = all.take(j);
                let t1 = all.take(j + 1);
                assert(t1 =~= t0.push(e));
                assert forall|x: K| t1.to_set().contains(x) <==> t0.to_set().insert(e).contains(x) by {
                    if t1.contains(x) {
                        let i = choose|i: int| 0 <= i < t1.len() && t1[i] == x;
                        if i < j {
                            assert(t0[i] == x);
                        }
                    }
                    if t0.contains(x) {
                        let i = choose|i: int| 0 <= i < t0.len() && t0[i] == x;
                        assert(t1[i] == x);
                    }
                    assert(t1[j] == e);
                }
                assert(t1.to_set() =~= t0.to_set().insert(e));
                assert(all[j] == e);
                assert(all.to_set().contains(e));
                assert(self@.insert(e).subset_of(target)) by {
                    assert forall|x: K| t0.to_set().contains(x) implies all.to_set().contains(x) by {
                        let i = choose|i: int| 0 <= i < t0.len() && t0[i] == x;
                        assert(all[i] == x);
                    }
                }
                vstd::set_lib::lemma_len_subset(self@.insert(e), target);
            }
            self.insert(e);
            proof {
                self.lemma_listing();
                assert(self@ =~= start.union(all.take(j + 1).to_set()));
            }
        }
        proof {
            assert(all.take(all.len() as int) =~= all);
        }
    }

    /// The set of the elements of `items`. `items` must be no longer than
    /// `N`.
    pub fn from_iter(items: Vec<K>) -> (s: Self)
        requires
            total_order::<K>(),
            N <= u32::MAX,
            items@.len() <= N,
        ensures
            s.wf(),
            s@ == items@.to_set(),
    {
        let mut s = SgSet::new();
        proof {
            s.lemma_listing();
            vstd::seq_lib::seq_to_set_is_finite(items@);
            items@.lemma_cardinality_of_set();
            assert(s@.union(items@.to_set()) =~= items@.to_set());
        }
        s.extend(items);
        proof {
            assert(s@ =~= items@.to_set());
        }
        s
    }

    /// The merge walk over the set and `other` that `pass` lets through.
    fn walk<'a>(&'a self, other: &'a SgSet<K, N>, pass: Pass) -> (it: MergeIter<'a, K, (), N>)
        requires
            self.wf(),
            other.wf(),
        ensures
            it.wf(),
            rising_keys(keys_of(it.remaining())),
            forall|k: K| #[trigger]
                keys_of(it.remaining()).contains(k) <==> passes(pass, self@.contains(k), other@.contains(k)),
    {
        proof {
            self.bst.lemma_listing();
            other.bst.lemma_listing();
        }
        let it = MergeIter::new(MapIter::new(&self.bst), MapIter::new(&other.bst), pass);
        proof {
            let a = self.bst.listing();
            let b = other.bst.listing();
            lemma_merge(a, b, pass);
            lemma_keys_of(merge(a, b, pass));
            lemma_keys_of(a);
            lemma_keys_of(b);
            assert(it.remaining() == merge(a, b, pass));
            assert forall|k: K| #[trigger]
                keys_of(it.remaining()).contains(k) <==> passes(pass, self@.contains(k), other@.contains(k)) by {
                assert(has_key(merge(a, b, pass), k) <==> lets(a, b, pass, k));
                assert(has_key(a, k) <==> self@.contains(k));
                assert(has_key(b, k) <==> other@.contains(k));
            }
        }
        it
    }

    /// An iterator over the elements of the set or of `other`, in ascending
    /// order: a merge walk of the two.
    pub fn union<'a>(&'a self, other: &'a SgSet<K, N>) -> (it: Union<'a, K, N>)
        requires
            self.wf(),
            other.wf(),
        ensures
            it.wf(),
            rising_keys(it.remaining()),
            forall|k: K| it.remaining().contains(k) <==> self@.union(other@).contains(k),
    {
        Union { inner: self.walk(other, Pass { left: true, both: true, right: true }) }
    }

    /// An iterator over the elements of both the set and `other`, in
    /// ascending order: a merge walk of the two.
    pub fn intersection<'a>(&'a self, other: &'a SgSet<K, N>) -> (it: Intersection<'a, K, N>)
        requires
            self.wf(),
            other.wf(),
        ensures
            it.wf(),
            rising_keys(it.remaining()),
            forall|k: K| it.remaining().contains(k) <==> self@.intersect(other@).contains(k),
    {
        Intersection { inner: self.walk(other, Pass { left: false, both: true, right: false }) }
    }

    /// An iterator over the elements of the set that `other` lacks, in
    /// ascending order: a merge walk of the two.
    pub fn difference<'a>(&'a self, other: &'a SgSet<K, N>) -> (it: Difference<'a, K, N>)
        requires
            self.wf(),
            other.wf(),
        ensures
            it.wf(),
            rising_keys(it.remaining()),
            forall|k: K| it.remaining().contains(k) <==> self@.difference(other@).contains(k),
    {
        Difference { inner: self.walk(other, Pass { left: true, both: false, right: false }) }
    }

    /// An iterator over the elements of exactly one of the set and `other`,
    /// in ascending order: a merge walk of the two.
    pub fn symmetric_difference<'a>(&'a self, other: &'a SgSet<K, N>) -> (it: SymmetricDifference<'a, K, N>)
        requires
            self.wf(),
            other.wf(),
        ensures
            it.wf(),
            rising_keys(it.remaining()),
            forall|k: K|
                it.remaining().contains(k) <==> (self@.contains(k) != other@.contains(k)),
    {
        SymmetricDifference { inner: self.walk(other, Pass { left: true, both: false, right: true }) }
    }

    /// Whether the set and `other` share no element.
    pub fn is_disjoint(&self, other: &SgSet<K, N>) -> (b: bool)
        requires
            self.wf(),
            other.wf(),
        ensures
            b == self@.disjoint(other@),
    {
        let mut it = self.intersection(other);
        let ghost rem = it.remaining();
        let r = it.next();
        proof {
            if r is Some {
                let k = *r->Some_0;
                assert(rem[0] == k);
                assert(rem.contains(k));
                assert(self@.intersect(other@).contains(k));
            } else {
                assert forall|k: K| !(self@.contains(k) && other@.contains(k)) by {
                    if self@.contains(k) && other@.contains(k) {
                        assert(self@.intersect(other@).contains(k));
                        assert(rem.contains(k));
                    }
                }
            }
        }
        r.is_none()
    }

    /// Whether every element of the set is an element of `other`.
    pub fn is_subset(&self, other: &SgSet<K, N>) -> (b: bool)
        requires
            self.wf(),
            other.wf(),
        ensures
            b == self@.subset_of(other@),
    {
        let mut it = self.difference(other);
        let ghost rem = it.remaining();
        let r = it.next();
        proof {
            if r is Some {
                let k = *r->Some_0;
                assert(rem[0] == k);
                assert(rem.contains(k));
                assert(self@.difference(other@).contains(k));
            } else {
                assert forall|k: K| self@.contains(k) implies other@.contains(k) by {
                    if !other@.contains(k) {
                        assert(self@.difference(other@).contains(k));
                        assert(rem.contains(k));
                    }
                }
            }
        }
        r.is_none()
    }

    /// Whether the set and `other` hold the same elements.
    pub fn equals(&self, other: &SgSet<K, N>) -> (b: bool)
        requires
            self.wf(),
            other.wf(),
        ensures
            b == (self@ == other@),
    {
        let mut it = self.symmetric_difference(other);
        let ghost rem = it.remaining();
        let r = it.next();
        proof {
            if r is Some {
                let k = *r->Some_0;
                assert(rem[0] == k);
                assert(rem.contains(k));
                assert(self@.contains(k) != other@.contains(k));
            } else {
                assert forall|k: K| self@.contains(k) == other@.contains(k) by {
                    if self@.contains(k) != other@.contains(k) {
                        assert(rem.contains(k));
                    }
                }
                assert(self@ =~= other@);
            }
        }
        r.is_none()
    }

    /// Whether every element of `other` is an element of the set.
    pub fn is_superset(&self, other: &SgSet<K, N>) -> (b: bool)
        requires
            self.wf(),
            other.wf(),
        ensures
            b == other@.subset_of(self@),
    {
        other.is_subset(self)
    }
}

} // verus!
