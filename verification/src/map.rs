//! The ordered map: the tree engine behind the surface of a map.
use crate::arena::SgError;
use crate::balance::{larger, log_alpha, record_after_removal};
use crate::listing::{ascending, map_of};
use crate::bounds::{fault_of, spans, Bound};
use crate::bulk::insert_all;
use crate::map_types::{
    Entry, IntoIter, IntoKeys, IntoValues, Iter, IterMut, Keys, OccupiedEntry, OccupiedError, Range, RangeMut,
    VacantEntry, Values, ValuesMut,
};
use crate::order::{compare, key_le, key_lt, Rel};
use crate::order::total_order;
use crate::tree::SgTree;
use vstd::prelude::*;

verus! {

/// An ordered map of at most `N` entries.
#[derive(Clone)]
pub struct SgMap<K: Ord, V, const N: usize> {
    pub(crate) bst: SgTree<K, V, N>,
}

impl<K: Ord, V, const N: usize> View for SgMap<K, V, N> {
    type V = Map<K, V>;

    open(crate) spec fn view(&self) -> Map<K, V> {
        self.bst@
    }
}

impl<K: Ord, V, const N: usize> SgMap<K, V, N> {
    /// The invariant of the tree behind the map.
    pub open(crate) spec fn wf(&self) -> bool {
        self.bst.wf()
    }

    /// The entries in ascending key order.
    pub open(crate) spec fn listing(&self) -> Seq<(K, V)> {
        self.bst.listing()
    }

    /// Slot `i` holds a node of the tree.
    pub open(crate) spec fn has_node(&self, i: usize) -> bool {
        self.bst.has_node(i)
    }

    /// The entry of the node in slot `i`.
    pub open(crate) spec fn node_entry(&self, i: usize) -> (K, V) {
        self.bst.node_entry(i)
    }

    /// The number of nodes on the longest way from the root down.
    pub open(crate) spec fn levels(&self) -> nat {
        self.bst.levels()
    }

    /// The largest number of entries that the map has held since its tree
    /// was last rebuilt as a whole.
    pub open(crate) spec fn max_size_since_rebuild(&self) -> nat {
        self.bst.max_size_since_rebuild()
    }

    /// The tree behind the map.
    pub open(crate) spec fn tree(&self) -> SgTree<K, V, N> {
        self.bst
    }

    /// The map is its tree.
    pub proof fn lemma_tree(&self)
        ensures
            self.wf() == self.tree().wf(),
            self@ == self.tree()@,
            self.listing() == self.tree().listing(),
            self.levels() == self.tree().levels(),
            self.max_size_since_rebuild() == self.tree().max_size_since_rebuild(),
            forall|i: usize| self.has_node(i) == self.tree().has_node(i),
            forall|i: usize| self.node_entry(i) == self.tree().node_entry(i),
    {
    }

    /// The listing ascends, lists the map, and is as long as the map is
    /// large; the keys are totally ordered.
    pub proof fn lemma_listing(&self)
        requires
            self.wf(),
        ensures
            total_order::<K>(),
            ascending(self.listing()),
            map_of(self.listing()) == self@,
            self@.dom().finite(),
            self@.len() == self.listing().len(),
            self.listing().len() <= N,
            N <= u32::MAX,
    {
        self.bst.lemma_listing();
    }

    /// The tree is no higher than the logarithm to the base 3/2 of its
    /// largest size since the last whole rebuild, rounded down, plus one.
    pub proof fn lemma_height(&self)
        requires
            self.wf(),
        ensures
            self.levels() <= log_alpha(self.max_size_since_rebuild()) + 2,
            self@.len() <= self.max_size_since_rebuild(),
    {
        self.bst.lemma_height();
    }

    /// A node of the tree holds an entry of the map.
    pub proof fn lemma_node(&self, i: usize)
        requires
            self.wf(),
            self.has_node(i),
        ensures
            self@.contains_key(self.node_entry(i).0),
            self@[self.node_entry(i).0] == self.node_entry(i).1,
    {
        self.bst.lemma_node(i);
    }

    /// The empty map.
    pub fn new() -> (m: Self)
        requires
            total_order::<K>(),
            N <= u32::MAX,
        ensures
            m.wf(),
            m@ == Map::<K, V>::empty(),
            m.listing() == Seq::<(K, V)>::empty(),
    {
        SgMap { bst: SgTree::new() }
    }

    /// The number of entries.
    pub fn len(&self) -> (n: usize)
        requires
            self.wf(),
        ensures
            n == self@.len(),
            n == self.listing().len(),
            n <= N,
    {
        self.bst.len()
    }

    /// Whether the map holds no entry.
    pub fn is_empty(&self) -> (b: bool)
        requires
            self.wf(),
        ensures
            b == (self@.len() == 0),
            b == (self@ == Map::<K, V>::empty()),
    {
        self.bst.is_empty()
    }

    /// The number of nodes on the longest way from the root of the tree
    /// down; 0 for the empty map.
    pub fn height(&self) -> (h: usize)
        requires
            self.wf(),
        ensures
            h == self.levels(),
            h <= log_alpha(self.max_size_since_rebuild()) + 2,
    {
        self.bst.height()
    }

    /// The largest number of entries that the map has held since its tree
    /// was last rebuilt as a whole.
    pub fn max_size(&self) -> (m: usize)
        requires
            self.wf(),
        ensures
            m == self.max_size_since_rebuild(),
            self@.len() <= m <= N,
    {
        self.bst.max_size()
    }

    /// The largest number of entries that the map can hold, `N`.
    pub fn capacity(&self) -> (n: usize)
        ensures
            n == N,
    {
        N
    }

    /// Removes every entry.
    pub fn clear(&mut self)
        requires
            old(self).wf(),
        ensures
            final(self).wf(),
            final(self)@ == Map::<K, V>::empty(),
            final(self).listing() == Seq::<(K, V)>::empty(),
            final(self).max_size_since_rebuild() == 0,
    {
        self.bst.clear();
    }

    /// The value of `key`, if the map holds the key.
    pub fn get(&self, key: &K) -> (r: Option<&V>)
        requires
            self.wf(),
        ensures
            r == (if self@.contains_key(*key) {
                Some(&self@[*key])
            } else {
                None
            }),
    {
        self.bst.get(key)
    }

    /// The entry of `key`, if the map holds the key.
    pub fn get_key_value(&self, key: &K) -> (r: Option<(&K, &V)>)
        requires
            self.wf(),
        ensures
            r == (if self@.contains_key(*key) {
                Some((key, &self@[*key]))
            } else {
                None
            }),
    {
        self.bst.get_key_value(key)
    }

    /// Exclusive access to the value of `key`, if the map holds the key.
    pub fn get_mut(&mut self, key: &K) -> (r: Option<&mut V>)
        requires
            old(self).wf(),
        ensures
            match r {
                Some(v) => {
                    &&& old(self)@.contains_key(*key)
                    &&& *v == old(self)@[*key]
                    &&& final(self).wf()
                    &&& final(self)@ == old(self)@.insert(*key, *final(v))
                },
                None => !old(self)@.contains_key(*key) && *final(self) == *old(self),
            },
    {
        self.bst.get_mut(key)
    }

    /// Whether the map holds `key`.
    pub fn contains_key(&self, key: &K) -> (b: bool)
        requires
            self.wf(),
        ensures
            b == self@.contains_key(*key),
    {
        self.bst.contains_key(key)
    }

    /// Gives `key` the value `val` and returns the value that the key had.
    /// Fails with `StackCapacityExceeded`, changing nothing, where the key is
    /// absent and the map holds `N` entries.
    pub fn try_insert(&mut self, key: K, val: V) -> (r: Result<Option<V>, SgError>)
        requires
            old(self).wf(),
        ensures
            final(self).wf(),
            r is Err <==> !old(self)@.contains_key(key) && old(self)@.len() == N,
            match r {
                Ok(before) => {
                    &&& final(self)@ == old(self)@.insert(key, val)
                    &&& before == (if old(self)@.contains_key(key) {
                        Some(old(self)@[key])
                    } else {
                        None
                    })
                    &&& final(self).levels() <= log_alpha(final(self).max_size_since_rebuild()) + 2
                    &&& final(self).max_size_since_rebuild() == larger(
                        old(self).max_size_since_rebuild(),
                        final(self)@.len(),
                    )
                },
                Err(e) => *final(self) == *old(self),
            },
    {
        self.bst.try_insert(key, val)
    }

    /// Gives `key` the value `val` and returns the value that the key had.
    /// The map must hold the key or fewer than `N` entries.
    pub fn insert(&mut self, key: K, val: V) -> (before: Option<V>)
        requires
            old(self).wf(),
            old(self)@.contains_key(key) || old(self)@.len() < N,
        ensures
            final(self).wf(),
            final(self)@ == old(self)@.insert(key, val),
            before == (if old(self)@.contains_key(key) {
                Some(old(self)@[key])
            } else {
                None
            }),
            final(self).levels() <= log_alpha(final(self).max_size_since_rebuild()) + 2,
            final(self).max_size_since_rebuild() == larger(old(self).max_size_since_rebuild(), final(self)@.len()),
    {
        self.bst.insert(key, val)
    }

    /// Removes `key` and returns its entry, if the map holds the key.
    pub fn remove_entry(&mut self, key: &K) -> (r: Option<(K, V)>)
        requires
            old(self).wf(),
        ensures
            final(self).wf(),
            final(self)@ == old(self)@.remove(*key),
            r == (if old(self)@.contains_key(*key) {
                Some((*key, old(self)@[*key]))
            } else {
                None
            }),
            final(self).max_size_since_rebuild() == (if old(self)@.contains_key(*key) {
                record_after_removal(old(self).max_size_since_rebuild(), final(self)@.len())
            } else {
                old(self).max_size_since_rebuild()
            }),
    {
        self.bst.remove_entry(key)
    }

    /// Removes `key` and returns its value, if the map holds the key.
    pub fn remove(&mut self, key: &K) -> (r: Option<V>)
        requires
            old(self).wf(),
        ensures
            final(self).wf(),
            final(self)@ == old(self)@.remove(*key),
            r == (if old(self)@.contains_key(*key) {
                Some(old(self)@[*key])
            } else {
                None
            }),
            final(self).max_size_since_rebuild() == (if old(self)@.contains_key(*key) {
                record_after_removal(old(self).max_size_since_rebuild(), final(self)@.len())
            } else {
                old(self).max_size_since_rebuild()
            }),
    {
        self.bst.remove(key)
    }

    /// The entry with the least key.
    pub fn first_key_value(&self) -> (r: Option<(&K, &V)>)
        requires
            self.wf(),
        ensures
            match r {
                Some(e) => self.listing().len() > 0 && (*e.0, *e.1) == self.listing()[0],
                None => self.listing().len() == 0,
            },
    {
        self.bst.first_key_value()
    }

    /// The entry with the greatest key.
    pub fn last_key_value(&self) -> (r: Option<(&K, &V)>)
        requires
            self.wf(),
        ensures
            match r {
                Some(e) => self.listing().len() > 0 && (*e.0, *e.1) == self.listing().last(),
                None => self.listing().len() == 0,
            },
    {
        self.bst.last_key_value()
    }

    /// The least key.
    pub fn first_key(&self) -> (r: Option<&K>)
        requires
            self.wf(),
        ensures
            match r {
                Some(k) => self.listing().len() > 0 && *k == self.listing()[0].0,
                None => self.listing().len() == 0,
            },
    {
        self.bst.first_key()
    }

    /// The greatest key.
    pub fn last_key(&self) -> (r: Option<&K>)
        requires
            self.wf(),
        ensures
            match r {
                Some(k) => self.listing().len() > 0 && *k == self.listing().last().0,
                None => self.listing().len() == 0,
            },
    {
        self.bst.last_key()
    }

    /// Removes and returns the entry with the least key.
    pub fn pop_first(&mut self) -> (r: Option<(K, V)>)
        requires
            old(self).wf(),
        ensures
            final(self).wf(),
            match r {
                Some(e) => {
                    &&& old(self).listing().len() > 0
                    &&& e == old(self).listing()[0]
                    &&& final(self).listing() == old(self).listing().remove(0)
                    &&& final(self)@ == old(self)@.remove(e.0)
                    &&& final(self).max_size_since_rebuild() == record_after_removal(
                        old(self).max_size_since_rebuild(),
                        final(self)@.len(),
                    )
                },
                None => old(self).listing().len() == 0 && *final(self) == *old(self),
            },
    {
        self.bst.pop_first()
    }

    /// Removes and returns the entry with the greatest key.
    pub fn pop_last(&mut self) -> (r: Option<(K, V)>)
        requires
            old(self).wf(),
        ensures
            final(self).wf(),
            match r {
                Some(e) => {
                    &&& old(self).listing().len() > 0
                    &&& e == old(self).listing().last()
                    &&& final(self).listing() == old(self).listing().drop_last()
                    &&& final(self)@ == old(self)@.remove(e.0)
                    &&& final(self).max_size_since_rebuild() == record_after_removal(
                        old(self).max_size_since_rebuild(),
                        final(self)@.len(),
                    )
                },
                None => old(self).listing().len() == 0 && *final(self) == *old(self),
            },
    {
        self.bst.pop_last()
    }

    /// An iterator over the entries in ascending key order.
    pub fn iter(&self) -> (it: Iter<'_, K, V, N>)
        requires
            self.wf(),
        ensures
            it.wf(),
            it.remaining() == self.listing(),
    {
        Iter::new(self)
    }

    /// An iterator over the entries in ascending key order that lends
    /// exclusive access to each value.
    pub fn iter_mut(&mut self) -> (it: IterMut<'_, K, V, N>)
        requires
            old(self).wf(),
        ensures
            it.wf(),
            it.remaining() == old(self).listing(),
            it.mut_iter.tree@ == old(self)@,
            final(it.mut_iter.tree)@ == final(self)@,
            final(it.mut_iter.tree).wf() == final(self).wf(),
            final(it.mut_iter.tree).listing() == final(self).listing(),
    {
        IterMut::new(self)
    }

    /// An iterator that takes the entries in ascending key order.
    pub fn into_iter(self) -> (it: IntoIter<K, V, N>)
        requires
            self.wf(),
        ensures
            it.wf(),
            it.remaining() == self.listing(),
    {
        IntoIter::new(self)
    }

    /// An iterator over the keys in ascending order.
    pub fn keys(&self) -> (it: Keys<'_, K, V, N>)
        requires
            self.wf(),
        ensures
            it.wf(),
            it.remaining() == self.listing(),
    {
        Keys { inner: Iter::new(self) }
    }

    /// An iterator that takes the keys in ascending order.
    pub fn into_keys(self) -> (it: IntoKeys<K, V, N>)
        requires
            self.wf(),
        ensures
            it.wf(),
            it.remaining() == self.listing(),
    {
        IntoKeys { inner: IntoIter::new(self) }
    }

    /// An iterator over the values in ascending order of their keys.
    pub fn values(&self) -> (it: Values<'_, K, V, N>)
        requires
            self.wf(),
        ensures
            it.wf(),
            it.remaining() == self.listing(),
    {
        Values { inner: Iter::new(self) }
    }

    /// An iterator that takes the values in ascending order of their keys.
    pub fn into_values(self) -> (it: IntoValues<K, V, N>)
        requires
            self.wf(),
        ensures
            it.wf(),
            it.remaining() == self.listing(),
    {
        IntoValues { inner: IntoIter::new(self) }
    }

    /// An iterator that lends exclusive access to each value, in ascending
    /// order of the keys.
    pub fn values_mut(&mut self) -> (it: ValuesMut<'_, K, V, N>)
        requires
            old(self).wf(),
        ensures
            it.wf(),
            it.remaining() == old(self).listing(),
            it.inner.mut_iter.tree@ == old(self)@,
            final(it.inner.mut_iter.tree)@ == final(self)@,
            final(it.inner.mut_iter.tree).wf() == final(self).wf(),
            final(it.inner.mut_iter.tree).listing() == final(self).listing(),
    {
        ValuesMut { inner: IterMut::new(self) }
    }

    /// The entry of `key` in the map, for reading or changing in place:
    /// occupied where the map holds the key, else vacant.
    pub fn entry(&mut self, key: K) -> (e: Entry<'_, K, V, N>)
        requires
            old(self).wf(),
        ensures
            e.wf(),
            e.key_view() == key,
            e is Occupied <==> old(self)@.contains_key(key),
            match e {
                Entry::Occupied(o) => *o.table == *old(self) && *final(o.table) == *final(self),
                Entry::Vacant(v) => *v.table == *old(self) && *final(v.table) == *final(self),
            },
    {
        match self.bst.find(&key) {
            Some(node_idx) => Entry::Occupied(OccupiedEntry { node_idx, table: self }),
            None => Entry::Vacant(VacantEntry { key, table: self }),
        }
    }

    /// The entry of the least key, if the map holds any.
    pub fn first_entry(&mut self) -> (r: Option<OccupiedEntry<'_, K, V, N>>)
        requires
            old(self).wf(),
        ensures
            match r {
                Some(o) => o.wf() && old(self).listing().len() > 0 && o.entry_view() == old(self).listing()[0]
                    && *o.table == *old(self) && *final(o.table) == *final(self),
                None => old(self).listing().len() == 0 && *final(self) == *old(self),
            },
    {
        match self.bst.first_idx() {
            Some(node_idx) => Some(OccupiedEntry { node_idx, table: self }),
            None => None,
        }
    }

    /// The entry of the greatest key, if the map holds any.
    pub fn last_entry(&mut self) -> (r: Option<OccupiedEntry<'_, K, V, N>>)
        requires
            old(self).wf(),
        ensures
            match r {
                Some(o) => o.wf() && old(self).listing().len() > 0 && o.entry_view() == old(
                    self,
                ).listing().last() && *o.table == *old(self) && *final(o.table) == *final(self),
                None => old(self).listing().len() == 0 && *final(self) == *old(self),
            },
    {
        match self.bst.last_idx() {
            Some(node_idx) => Some(OccupiedEntry { node_idx, table: self }),
            None => None,
        }
    }

    /// Gives `key` the value `value` where the map does not hold the key and
    /// returns exclusive access to the value; where it holds the key, changes
    /// nothing and returns the occupied entry with `value`. The map must
    /// hold the key or fewer than `N` entries.
    pub fn try_insert_std(&mut self, key: K, value: V) -> (r: Result<&mut V, OccupiedError<'_, K, V, N>>)
        requires
            old(self).wf(),
            old(self)@.contains_key(key) || old(self)@.len() < N,
        ensures
            r is Err <==> old(self)@.contains_key(key),
            match r {
                Ok(v) => *v == value && final(self).wf() && final(self)@ == old(self)@.insert(key, *final(v)),
                Err(e) => e.value == value && e.entry.wf() && e.entry.key_view() == key && *e.entry.table == *old(
                    self,
                ) && *final(e.entry.table) == *final(self),
            },
    {
        match self.entry(key) {
            Entry::Vacant(v) => Ok(v.insert(value)),
            Entry::Occupied(entry) => Err(OccupiedError { entry, value }),
        }
    }

    /// An iterator over the entries whose keys lie in the range from `lo` to
    /// `hi`, in ascending key order. The bounds must be a range: not start
    /// above their end, nor start and end at one key that both exclude.
    pub fn range(&self, lo: Bound<&K>, hi: Bound<&K>) -> (it: Range<'_, K, V, N>)
        requires
            self.wf(),
            fault_of(lo, hi) is None,
        ensures
            it.wf(),
            exists|s: int, e: int| #[trigger]
                spans(self.listing(), lo, hi, s, e) && it.remaining() == self.listing().subrange(s, e),
    {
        Range::new(self, &lo, &hi)
    }

    /// An iterator over the entries whose keys lie in the range from `lo` to
    /// `hi` that lends exclusive access to each value. The bounds must be a
    /// range.
    pub fn range_mut(&mut self, lo: Bound<&K>, hi: Bound<&K>) -> (it: RangeMut<'_, K, V, N>)
        requires
            old(self).wf(),
            fault_of(lo, hi) is None,
        ensures
            it.wf(),
            it.inner.tree@ == old(self)@,
            final(it.inner.tree)@ == final(self)@,
            final(it.inner.tree).wf() == final(self).wf(),
            final(it.inner.tree).listing() == final(self).listing(),
            exists|s: int, e: int| #[trigger]
                spans(old(self).listing(), lo, hi, s, e) && it.remaining() == old(self).listing().subrange(s, e),
    {
        RangeMut::new(self, &lo, &hi)
    }

    /// Keeps the entries of which `f` returns `true` and removes the others;
    /// `f` sees each entry once, in ascending key order.
    pub fn retain<F: Fn(&K, &V) -> bool>(&mut self, f: F)
        requires
            old(self).wf(),
            forall|k: K, v: V| old(self)@.contains_key(k) && old(self)@[k] == v ==> call_requires(f, (&k, &v)),
        ensures
            final(self).wf(),
            forall|k: K| #[trigger]
                final(self)@.contains_key(k) ==> old(self)@.contains_key(k) && final(self)@[k] == old(self)@[k]
                    && call_ensures(f, (&k, &old(self)@[k]), true),
            forall|k: K|
                old(self)@.contains_key(k) && !(#[trigger] final(self)@.contains_key(k)) ==> call_ensures(
                    f,
                    (&k, &old(self)@[k]),
                    false,
                ),
            final(self).max_size_since_rebuild() == final(self)@.len(),
    {
        self.bst.retain(f);
    }

    /// Splits the map at `key`: the map keeps the entries whose key is below
    /// `key`, and the entries from `key` on are returned as a map of their
    /// own.
    pub fn split_off(&mut self, key: &K) -> (other: Self)
        requires
            old(self).wf(),
        ensures
            final(self).wf(),
            other.wf(),
            final(self).listing() + other.listing() == old(self).listing(),
            forall|j: int| 0 <= j < final(self).listing().len() ==> key_lt((#[trigger] final(self).listing()[j]).0, *key),
            forall|j: int| 0 <= j < other.listing().len() ==> key_le(*key, (#[trigger] other.listing()[j]).0),
            final(self).max_size_since_rebuild() == final(self)@.len(),
            other.max_size_since_rebuild() == other@.len(),
    {
        SgMap { bst: self.bst.split_off(key) }
    }

    /// Moves the entries of `other` into the map, the value of `other`
    /// taking the place of the map's for a key that both hold, and leaves
    /// `other` empty. Fails with `StackCapacityExceeded`, changing neither,
    /// where the two hold more than `N` keys between them.
    pub fn try_append(&mut self, other: &mut Self) -> (r: Result<(), SgError>)
        requires
            old(self).wf(),
            old(other).wf(),
        ensures
            final(self).wf(),
            final(other).wf(),
            r is Err <==> old(self)@.union_prefer_right(old(other)@).len() > N,
            match r {
                Ok(_) => {
                    &&& final(self)@ == old(self)@.union_prefer_right(old(other)@)
                    &&& final(other)@ == Map::<K, V>::empty()
                    &&& final(self).max_size_since_rebuild() == larger(
                        old(self).max_size_since_rebuild(),
                        final(self)@.len(),
                    )
                    &&& final(other).max_size_since_rebuild() == 0
                },
                Err(_) => *final(self) == *old(self) && *final(other) == *old(other),
            },
    {
        self.bst.try_append(&mut other.bst)
    }

    /// Moves the entries of `other` into the map and leaves `other` empty.
    /// The two must hold at most `N` keys between them.
    pub fn append(&mut self, other: &mut Self)
        requires
            old(self).wf(),
            old(other).wf(),
            old(self)@.union_prefer_right(old(other)@).len() <= N,
        ensures
            final(self).wf(),
            final(other).wf(),
            final(self)@ == old(self)@.union_prefer_right(old(other)@),
            final(other)@ == Map::<K, V>::empty(),
            final(self).max_size_since_rebuild() == larger(old(self).max_size_since_rebuild(), final(self)@.len()),
            final(other).max_size_since_rebuild() == 0,
    {
        self.bst.append(&mut other.bst);
    }

    /// Inserts the entries of `items` in their order, a later value taking
    /// the place of an earlier one for the same key. Fails with
    /// `StackCapacityExceeded`, changing nothing, where `items` is longer
    /// than the map has room.
    pub fn try_extend(&mut self, items: Vec<(K, V)>) -> (r: Result<(), SgError>)
        requires
            old(self).wf(),
        ensures
            final(self).wf(),
            r is Err <==> items@.len() > N - old(self)@.len(),
            match r {
                Ok(_) => final(self)@ == insert_all(old(self)@, items@) && final(self).max_size_since_rebuild()
                    == larger(old(self).max_size_since_rebuild(), final(self)@.len()),
                Err(_) => *final(self) == *old(self),
            },
    {
        self.bst.try_extend(items)
    }

    /// Inserts the entries of `items` in their order, a later value taking
    /// the place of an earlier one for the same key. The map must have room
    /// for the keys that it lacks.
    pub fn extend(&mut self, items: Vec<(K, V)>)
        requires
            old(self).wf(),
            insert_all(old(self)@, items@).len() <= N,
        ensures
            final(self).wf(),
            final(self)@ == insert_all(old(self)@, items@),
            final(self).max_size_since_rebuild() == larger(old(self).max_size_since_rebuild(), final(self)@.len()),
    {
        self.bst.extend(items);
    }

    /// The map of the entries of `items`, inserted in their order. `items`
    /// must be no longer than `N`.
    pub fn from_iter(items: Vec<(K, V)>) -> (m: Self)
        requires
            crate::order::total_order::<K>(),
            N <= u32::MAX,
            items@.len() <= N,
        ensures
            m.wf(),
            m@ == insert_all(Map::<K, V>::empty(), items@),
    {
        SgMap { bst: SgTree::from_iter(items) }
    }
}

impl<K: Ord, V: PartialEq, const N: usize> SgMap<K, V, N> {
    /// Whether the map and `other` hold the same entries. The `==` of the
    /// values must be equality.
    pub fn equals(&self, other: &SgMap<K, V, N>) -> (b: bool)
        requires
            self.wf(),
            other.wf(),
            vstd::laws_eq::obeys_concrete_eq::<V>(),
        ensures
            b == (self@ == other@),
    {
        if self.len() != other.len() {
            return false;
        }
        let ghost mine = self.listing();
        let ghost theirs = other.listing();
        let mut a = self.iter();
        let mut b = other.iter();
        let ghost mut j: int = 0;
        proof {
            self.lemma_listing();
            other.lemma_listing();
            reveal(vstd::laws_eq::obeys_concrete_eq);
            assert(mine.skip(0) =~= mine);
            assert(theirs.skip(0) =~= theirs);
        }
        loop
            invariant
                a.wf(),
                b.wf(),
                0 <= j <= mine.len(),
                mine.len() == theirs.len(),
                a.remaining() == mine.skip(j),
                b.remaining() == theirs.skip(j),
                forall|i: int| 0 <= i < j ==> mine[i] == theirs[i],
                mine == self.listing(),
                theirs == other.listing(),
                self.wf(),
                other.wf(),
                vstd::laws_eq::obeys_concrete_eq::<V>(),
            decreases mine.len() - j,
        {
            proof {
                reveal(vstd::laws_eq::obeys_concrete_eq);
                self.lemma_listing();
            }
            let x = a.next();
            let y = b.next();
            match (x, y) {
                (Some(ea), Some(eb)) => {
                    let same_key = match compare(ea.0, eb.0) {
                        Rel::Equal => true,
                        _ => false,
                    };
                    if !same_key || !(*ea.1 == *eb.1) {
                        proof {
                            self.lemma_listing();
                            other.lemma_listing();
                            crate::order::lemma_lt_irreflexive(*ea.0);
                            if key_lt(*ea.0, *eb.0) {
                                crate::order::lemma_lt_asymmetric(*ea.0, *eb.0);
                            }
                            assert(mine.skip(j)[0] == mine[j]);
                            assert(theirs.skip(j)[0] == theirs[j]);
                            assert(mine[j] != theirs[j]);
                            if self@ == other@ {
                                crate::listing::lemma_lists_unique(mine, theirs);
                            }
                        }
                        return false;
                    }
                    proof {
                        assert(mine.skip(j)[0] == mine[j]);
                        assert(theirs.skip(j)[0] == theirs[j]);
                        assert(mine.skip(j).skip(1) =~= mine.skip(j + 1));
                        assert(theirs.skip(j).skip(1) =~= theirs.skip(j + 1));
                        j = j + 1;
                    }
                },
                _ => {
                    proof {
                        assert(mine =~= theirs);
                        self.lemma_listing();
                        other.lemma_listing();
                    }
                    return true;
                },
            }
        }
    }
}

} // verus!
