//! The iterators over a map and the view of a single entry.
use crate::bounds::{fault_of, spans, Bound};
use crate::map::SgMap;
use crate::tree_iter::{TreeIntoIter, TreeIter, TreeIterMut};
use vstd::prelude::*;

verus! {

/// An iterator over the entries of a map, in ascending key order from the
/// front and in descending order from the back.
pub struct Iter<'a, K: Ord, V, const N: usize> {
    pub(crate) ref_iter: TreeIter<'a, K, V, N>,
}

impl<'a, K: Ord, V, const N: usize> Iter<'a, K, V, N> {
    /// The iterator walks a well-formed map.
    pub open(crate) spec fn wf(&self) -> bool {
        self.ref_iter.wf()
    }

    /// The entries still to come, in ascending key order.
    pub open(crate) spec fn remaining(&self) -> Seq<(K, V)> {
        self.ref_iter.remaining()
    }

    /// An iterator over all entries of `map`.
    pub fn new(map: &'a SgMap<K, V, N>) -> (it: Self)
        requires
            map.wf(),
        ensures
            it.wf(),
            it.remaining() == map.listing(),
    {
        proof {
            map.lemma_tree();
        }
        Iter { ref_iter: TreeIter::new(&map.bst) }
    }

    /// An iterator over the entries of `map` at the places `front..back` of
    /// its listing.
    pub fn window(map: &'a SgMap<K, V, N>, front: usize, back: usize) -> (it: Self)
        requires
            map.wf(),
            front <= back <= map.listing().len(),
        ensures
            it.wf(),
            it.remaining() == map.listing().subrange(front as int, back as int),
    {
        proof {
            map.lemma_tree();
        }
        Iter { ref_iter: TreeIter::window(&map.bst, front, back) }
    }

    /// The next entry from the front.
    pub fn next(&mut self) -> (r: Option<(&'a K, &'a V)>)
        requires
            old(self).wf(),
        ensures
            final(self).wf(),
            match r {
                Some(e) => old(self).remaining().len() > 0 && (*e.0, *e.1) == old(self).remaining()[0]
                    && final(self).remaining() == old(self).remaining().skip(1),
                None => old(self).remaining().len() == 0 && final(self).remaining() == old(self).remaining(),
            },
    {
        self.ref_iter.next()
    }

    /// The next entry from the front, which stays to come.
    pub fn peek(&self) -> (r: Option<(&'a K, &'a V)>)
        requires
            self.wf(),
        ensures
            match r {
                Some(e) => self.remaining().len() > 0 && (*e.0, *e.1) == self.remaining()[0],
                None => self.remaining().len() == 0,
            },
    {
        self.ref_iter.peek()
    }

    /// The next entry from the back.
    pub fn next_back(&mut self) -> (r: Option<(&'a K, &'a V)>)
        requires
            old(self).wf(),
        ensures
            final(self).wf(),
            match r {
                Some(e) => old(self).remaining().len() > 0 && (*e.0, *e.1) == old(self).remaining().last()
                    && final(self).remaining() == old(self).remaining().drop_last(),
                None => old(self).remaining().len() == 0 && final(self).remaining() == old(self).remaining(),
            },
    {
        self.ref_iter.next_back()
    }

    /// The number of entries still to come.
    pub fn len(&self) -> (n: usize)
        requires
            self.wf(),
        ensures
            n == self.remaining().len(),
    {
        self.ref_iter.len()
    }
}

/// An iterator that owns the entries of a map and hands them out.
pub struct IntoIter<K: Ord, V, const N: usize> {
    pub(crate) cons_iter: TreeIntoIter<K, V, N>,
}

impl<K: Ord, V, const N: usize> IntoIter<K, V, N> {
    /// The iterator holds the entries still to come.
    pub open(crate) spec fn wf(&self) -> bool {
        self.cons_iter.wf()
    }

    /// The entries still to come, in ascending key order.
    pub open(crate) spec fn remaining(&self) -> Seq<(K, V)> {
        self.cons_iter.remaining()
    }

    /// An iterator that takes all entries of `map`.
    pub fn new(map: SgMap<K, V, N>) -> (it: Self)
        requires
            map.wf(),
        ensures
            it.wf(),
            it.remaining() == map.listing(),
    {
        proof {
            map.lemma_tree();
        }
        IntoIter { cons_iter: TreeIntoIter::new(map.bst) }
    }

    /// The next entry from the front.
    pub fn next(&mut self) -> (r: Option<(K, V)>)
        requires
            old(self).wf(),
        ensures
            final(self).wf(),
            match r {
                Some(e) => old(self).remaining().len() > 0 && e == old(self).remaining()[0]
                    && final(self).remaining() == old(self).remaining().skip(1),
                None => old(self).remaining().len() == 0 && final(self).remaining() == old(self).remaining(),
            },
    {
        self.cons_iter.next()
    }

    /// The next entry from the back.
    pub fn next_back(&mut self) -> (r: Option<(K, V)>)
        requires
            old(self).wf(),
        ensures
            final(self).wf(),
            match r {
                Some(e) => old(self).remaining().len() > 0 && e == old(self).remaining().last()
                    && final(self).remaining() == old(self).remaining().drop_last(),
                None => old(self).remaining().len() == 0 && final(self).remaining() == old(self).remaining(),
            },
    {
        self.cons_iter.next_back()
    }

    /// The number of entries still to come.
    pub fn len(&self) -> (n: usize)
        requires
            self.wf(),
        ensures
            n == self.remaining().len(),
    {
        self.cons_iter.len()
    }
}

/// An iterator over the entries of a map that lends exclusive access to each
/// value in turn.
pub struct IterMut<'a, K: Ord, V, const N: usize> {
    pub mut_iter: TreeIterMut<'a, K, V, N>,
}

impl<'a, K: Ord, V, const N: usize> IterMut<'a, K, V, N> {
    /// The iterator walks a well-formed map.
    pub open spec fn wf(&self) -> bool {
        self.mut_iter.wf()
    }

    /// The entries still to come, in ascending key order.
    pub open spec fn remaining(&self) -> Seq<(K, V)> {
        self.mut_iter.remaining()
    }

    /// An iterator over all entries of `map`.
    pub fn new(map: &'a mut SgMap<K, V, N>) -> (it: Self)
        requires
            old(map).wf(),
        ensures
            it.wf(),
            it.remaining() == old(map).listing(),
            it.mut_iter.tree@ == old(map)@,
            final(it.mut_iter.tree)@ == final(map)@,
            final(it.mut_iter.tree).wf() == final(map).wf(),
            final(it.mut_iter.tree).listing() == final(map).listing(),
    {
        proof {
            map.lemma_tree();
            assert forall|after: SgMap<K, V, N>| true implies #[trigger] after.wf() == after.tree().wf() by {
                after.lemma_tree();
            }
            assert forall|after: SgMap<K, V, N>| true implies #[trigger] after@ == after.tree()@ by {
                after.lemma_tree();
            }
            assert forall|after: SgMap<K, V, N>| true implies #[trigger] after.listing() == after.tree().listing() by {
                after.lemma_tree();
            }
        }
        IterMut { mut_iter: TreeIterMut::new(&mut map.bst) }
    }

    /// The next entry from the front, with exclusive access to its value.
    pub fn next(&mut self) -> (r: Option<(&K, &mut V)>)
        requires
            old(self).wf(),
        ensures
            match r {
                Some(e) => {
                    &&& old(self).remaining().len() > 0
                    &&& (*e.0, *e.1) == old(self).remaining()[0]
                    &&& final(self).wf()
                    &&& final(self).remaining() == old(self).remaining().skip(1)
                    &&& final(self).mut_iter.tree@ == old(self).mut_iter.tree@.insert(*e.0, *final(e.1))
                    &&& *final(final(self).mut_iter.tree) == *final(old(self).mut_iter.tree)
                },
                None => old(self).remaining().len() == 0 && *final(self) == *old(self),
            },
    {
        self.mut_iter.next()
    }

    /// The next entry from the back, with exclusive access to its value.
    pub fn next_back(&mut self) -> (r: Option<(&K, &mut V)>)
        requires
            old(self).wf(),
        ensures
            match r {
                Some(e) => {
                    &&& old(self).remaining().len() > 0
                    &&& (*e.0, *e.1) == old(self).remaining().last()
                    &&& final(self).wf()
                    &&& final(self).remaining() == old(self).remaining().drop_last()
                    &&& final(self).mut_iter.tree@ == old(self).mut_iter.tree@.insert(*e.0, *final(e.1))
                    &&& *final(final(self).mut_iter.tree) == *final(old(self).mut_iter.tree)
                },
                None => old(self).remaining().len() == 0 && *final(self) == *old(self),
            },
    {
        self.mut_iter.next_back()
    }

    /// The number of entries still to come.
    pub fn len(&self) -> (n: usize)
        requires
            self.wf(),
        ensures
            n == self.remaining().len(),
    {
        self.mut_iter.len()
    }
}

/// An iterator over the keys of a map in ascending order.
pub struct Keys<'a, K: Ord, V, const N: usize> {
    pub(crate) inner: Iter<'a, K, V, N>,
}

impl<'a, K: Ord, V, const N: usize> Keys<'a, K, V, N> {
    /// The iterator walks a well-formed map.
    pub open(crate) spec fn wf(&self) -> bool {
        self.inner.wf()
    }

    /// The entries whose keys are still to come.
    pub open(crate) spec fn remaining(&self) -> Seq<(K, V)> {
        self.inner.remaining()
    }

    /// The next key.
    pub fn next(&mut self) -> (r: Option<&'a K>)
        requires
            old(self).wf(),
        ensures
            final(self).wf(),
            match r {
                Some(k) => old(self).remaining().len() > 0 && *k == old(self).remaining()[0].0
                    && final(self).remaining() == old(self).remaining().skip(1),
                None => old(self).remaining().len() == 0 && final(self).remaining() == old(self).remaining(),
            },
    {
        match self.inner.next() {
            Some((k, _)) => Some(k),
            None => None,
        }
    }

    /// The number of keys still to come.
    pub fn len(&self) -> (n: usize)
        requires
            self.wf(),
        ensures
            n == self.remaining().len(),
    {
        self.inner.len()
    }
}

/// An iterator that owns the entries of a map and hands out the keys.
pub struct IntoKeys<K: Ord, V, const N: usize> {
    pub(crate) inner: IntoIter<K, V, N>,
}

impl<K: Ord, V, const N: usize> IntoKeys<K, V, N> {
    /// The iterator holds the entries still to come.
    pub open(crate) spec fn wf(&self) -> bool {
        self.inner.wf()
    }

    /// The entries whose keys are still to come.
    pub open(crate) spec fn remaining(&self) -> Seq<(K, V)> {
        self.inner.remaining()
    }

    /// The next key.
    pub fn next(&mut self) -> (r: Option<K>)
        requires
            old(self).wf(),
        ensures
            final(self).wf(),
            match r {
                Some(k) => old(self).remaining().len() > 0 && k == old(self).remaining()[0].0
                    && final(self).remaining() == old(self).remaining().skip(1),
                None => old(self).remaining().len() == 0 && final(self).remaining() == old(self).remaining(),
            },
    {
        match self.inner.next() {
            Some((k, _)) => Some(k),
            None => None,
        }
    }

    /// The number of keys still to come.
    pub fn len(&self) -> (n: usize)
        requires
            self.wf(),
        ensures
            n == self.remaining().len(),
    {
        self.inner.len()
    }
}

/// An iterator over the values of a map in ascending order of their keys.
pub struct Values<'a, K: Ord, V, const N: usize> {
    pub(crate) inner: Iter<'a, K, V, N>,
}

impl<'a, K: Ord, V, const N: usize> Values<'a, K, V, N> {
    /// The iterator walks a well-formed map.
    pub open(crate) spec fn wf(&self) -> bool {
        self.inner.wf()
    }

    /// The entries whose values are still to come.
    pub open(crate) spec fn remaining(&self) -> Seq<(K, V)> {
        self.inner.remaining()
    }

    /// The next value.
    pub fn next(&mut self) -> (r: Option<&'a V>)
        requires
            old(self).wf(),
        ensures
            final(self).wf(),
            match r {
                Some(v) => old(self).remaining().len() > 0 && *v == old(self).remaining()[0].1
                    && final(self).remaining() == old(self).remaining().skip(1),
                None => old(self).remaining().len() == 0 && final(self).remaining() == old(self).remaining(),
            },
    {
        match self.inner.next() {
            Some((_, v)) => Some(v),
            None => None,
        }
    }

    /// The number of values still to come.
    pub fn len(&self) -> (n: usize)
        requires
            self.wf(),
        ensures
            n == self.remaining().len(),
    {
        self.inner.len()
    }
}

/// An iterator that owns the entries of a map and hands out the values.
pub struct IntoValues<K: Ord, V, const N: usize> {
    pub(crate) inner: IntoIter<K, V, N>,
}

impl<K: Ord, V, const N: usize> IntoValues<K, V, N> {
    /// The iterator holds the entries still to come.
    pub open(crate) spec fn wf(&self) -> bool {
        self.inner.wf()
    }

    /// The entries whose values are still to come.
    pub open(crate) spec fn remaining(&self) -> Seq<(K, V)> {
        self.inner.remaining()
    }

    /// The next value.
    pub fn next(&mut self) -> (r: Option<V>)
        requires
            old(self).wf(),
        ensures
            final(self).wf(),
            match r {
                Some(v) => old(self).remaining().len() > 0 && v == old(self).remaining()[0].1
                    && final(self).remaining() == old(self).remaining().skip(1),
                None => old(self).remaining().len() == 0 && final(self).remaining() == old(self).remaining(),
            },
    {
        match self.inner.next() {
            Some((_, v)) => Some(v),
            None => None,
        }
    }

    /// The number of values still to come.
    pub fn len(&self) -> (n: usize)
        requires
            self.wf(),
        ensures
            n == self.remaining().len(),
    {
        self.inner.len()
    }
}

/// An iterator over the values of a map that lends exclusive access to each
/// in turn.
pub struct ValuesMut<'a, K: Ord, V, const N: usize> {
    pub inner: IterMut<'a, K, V, N>,
}

impl<'a, K: Ord, V, const N: usize> ValuesMut<'a, K, V, N> {
    /// The iterator walks a well-formed map.
    pub open spec fn wf(&self) -> bool {
        self.inner.wf()
    }

    /// The entries whose values are still to come.
    pub open spec fn remaining(&self) -> Seq<(K, V)> {
        self.inner.remaining()
    }

    /// Exclusive access to the next value.
    pub fn next(&mut self) -> (r: Option<&mut V>)
        requires
            old(self).wf(),
        ensures
            match r {
                Some(v) => {
                    &&& old(self).remaining().len() > 0
                    &&& *v == old(self).remaining()[0].1
                    &&& final(self).wf()
                    &&& final(self).remaining() == old(self).remaining().skip(1)
                    &&& final(self).inner.mut_iter.tree@ == old(self).inner.mut_iter.tree@.insert(
                        old(self).remaining()[0].0,
                        *final(v),
                    )
                    &&& *final(final(self).inner.mut_iter.tree) == *final(old(self).inner.mut_iter.tree)
                },
                None => old(self).remaining().len() == 0 && *final(self) == *old(self),
            },
    {
        match self.inner.next() {
            Some((_, v)) => Some(v),
            None => None,
        }
    }

    /// The number of values still to come.
    pub fn len(&self) -> (n: usize)
        requires
            self.wf(),
        ensures
            n == self.remaining().len(),
    {
        self.inner.len()
    }
}

/// An iterator over the entries of a map whose keys lie in a range, in
/// ascending key order from the front and in descending order from the
/// back.
pub struct Range<'a, K: Ord, V, const N: usize> {
    pub(crate) inner: Iter<'a, K, V, N>,
}

impl<'a, K: Ord, V, const N: usize> Range<'a, K, V, N> {
    /// The iterator walks a well-formed map.
    pub open(crate) spec fn wf(&self) -> bool {
        self.inner.wf()
    }

    /// The entries still to come, in ascending key order.
    pub open(crate) spec fn remaining(&self) -> Seq<(K, V)> {
        self.inner.remaining()
    }

    /// An iterator over the entries of `map` whose keys lie in the range
    /// from `lo` to `hi`. The bounds must be a range.
    pub fn new(map: &'a SgMap<K, V, N>, lo: &Bound<&K>, hi: &Bound<&K>) -> (it: Self)
        requires
            map.wf(),
            fault_of(*lo, *hi) is None,
        ensures
            it.wf(),
            exists|s: int, e: int| #[trigger]
                spans(map.listing(), *lo, *hi, s, e) && it.remaining() == map.listing().subrange(s, e),
    {
        let idxs = map.bst.sorted_idxs();
        let (start, end) = map.bst.window(&idxs, lo, hi);
        assert(spans(map.listing(), *lo, *hi, start as int, end as int));
        Range { inner: Iter::window(map, start, end) }
    }

    /// The next entry from the front.
    pub fn next(&mut self) -> (r: Option<(&'a K, &'a V)>)
        requires
            old(self).wf(),
        ensures
            final(self).wf(),
            match r {
                Some(e) => old(self).remaining().len() > 0 && (*e.0, *e.1) == old(self).remaining()[0]
                    && final(self).remaining() == old(self).remaining().skip(1),
                None => old(self).remaining().len() == 0 && final(self).remaining() == old(self).remaining(),
            },
    {
        self.inner.next()
    }

    /// The next entry from the back.
    pub fn next_back(&mut self) -> (r: Option<(&'a K, &'a V)>)
        requires
            old(self).wf(),
        ensures
            final(self).wf(),
            match r {
                Some(e) => old(self).remaining().len() > 0 && (*e.0, *e.1) == old(self).remaining().last()
                    && final(self).remaining() == old(self).remaining().drop_last(),
                None => old(self).remaining().len() == 0 && final(self).remaining() == old(self).remaining(),
            },
    {
        self.inner.next_back()
    }
}

/// An iterator over the entries of a map whose keys lie in a range that
/// lends exclusive access to each value in turn.
pub struct RangeMut<'a, K: Ord, V, const N: usize> {
    pub inner: TreeIterMut<'a, K, V, N>,
    pub total_cnt: usize,
    pub spent_cnt: usize,
}

impl<'a, K: Ord, V, const N: usize> RangeMut<'a, K, V, N> {
    /// The iterator walks a well-formed map and has counted what it gave.
    pub open spec fn wf(&self) -> bool {
        &&& self.inner.wf()
        &&& self.spent_cnt <= self.total_cnt
        &&& self.inner.remaining().len() == self.total_cnt - self.spent_cnt
    }

    /// The entries still to come, in ascending key order.
    pub open spec fn remaining(&self) -> Seq<(K, V)> {
        self.inner.remaining()
    }

    /// The number of entries of `map` whose keys lie in the range from `lo`
    /// to `hi`. The bounds must be a range.
    pub fn compute_len(map: &SgMap<K, V, N>, lo: &Bound<&K>, hi: &Bound<&K>) -> (n: usize)
        requires
            map.wf(),
            fault_of(*lo, *hi) is None,
        ensures
            exists|s: int, e: int| #[trigger] spans(map.listing(), *lo, *hi, s, e) && n == e - s,
    {
        let idxs = map.bst.sorted_idxs();
        let (start, end) = map.bst.window(&idxs, lo, hi);
        assert(spans(map.listing(), *lo, *hi, start as int, end as int));
        end - start
    }

    /// The iterator over the entries of `map` in the range from `lo` to
    /// `hi`, set at the first of them. The bounds must be a range.
    pub fn init_iter_mut(map: &'a mut SgMap<K, V, N>, lo: &Bound<&K>, hi: &Bound<&K>) -> (it: TreeIterMut<
        'a,
        K,
        V,
        N,
    >)
        requires
            old(map).wf(),
            fault_of(*lo, *hi) is None,
        ensures
            it.wf(),
            it.tree@ == old(map)@,
            final(it.tree)@ == final(map)@,
            final(it.tree).wf() == final(map).wf(),
            final(it.tree).listing() == final(map).listing(),
            exists|s: int, e: int| #[trigger]
                spans(old(map).listing(), *lo, *hi, s, e) && it.remaining() == old(map).listing().subrange(s, e),
    {
        let idxs = map.bst.sorted_idxs();
        let (start, end) = map.bst.window(&idxs, lo, hi);
        assert(spans(map.listing(), *lo, *hi, start as int, end as int));
        TreeIterMut::window(&mut map.bst, start, end)
    }

    /// An iterator over the entries of `map` whose keys lie in the range
    /// from `lo` to `hi`. The bounds must be a range.
    pub fn new(map: &'a mut SgMap<K, V, N>, lo: &Bound<&K>, hi: &Bound<&K>) -> (it: Self)
        requires
            old(map).wf(),
            fault_of(*lo, *hi) is None,
        ensures
            it.wf(),
            it.inner.tree@ == old(map)@,
            final(it.inner.tree)@ == final(map)@,
            final(it.inner.tree).wf() == final(map).wf(),
            final(it.inner.tree).listing() == final(map).listing(),
            exists|s: int, e: int| #[trigger]
                spans(old(map).listing(), *lo, *hi, s, e) && it.remaining() == old(map).listing().subrange(s, e),
    {
        let inner = RangeMut::init_iter_mut(map, lo, hi);
        let total_cnt = inner.len();
        RangeMut { inner, total_cnt, spent_cnt: 0 }
    }

    /// The next entry from the front, with exclusive access to its value.
    pub fn next(&mut self) -> (r: Option<(&K, &mut V)>)
        requires
            old(self).wf(),
        ensures
            match r {
                Some(e) => {
                    &&& old(self).remaining().len() > 0
                    &&& (*e.0, *e.1) == old(self).remaining()[0]
                    &&& final(self).wf()
                    &&& final(self).remaining() == old(self).remaining().skip(1)
                    &&& final(self).inner.tree@ == old(self).inner.tree@.insert(*e.0, *final(e.1))
                    &&& *final(final(self).inner.tree) == *final(old(self).inner.tree)
                },
                None => old(self).remaining().len() == 0 && *final(self) == *old(self),
            },
    {
        if self.spent_cnt < self.total_cnt {
            self.spent_cnt = self.spent_cnt + 1;
            self.inner.next()
        } else {
            None
        }
    }

    /// The next entry from the back, with exclusive access to its value.
    pub fn next_back(&mut self) -> (r: Option<(&K, &mut V)>)
        requires
            old(self).wf(),
        ensures
            match r {
                Some(e) => {
                    &&& old(self).remaining().len() > 0
                    &&& (*e.0, *e.1) == old(self).remaining().last()
                    &&& final(self).wf()
                    &&& final(self).remaining() == old(self).remaining().drop_last()
                    &&& final(self).inner.tree@ == old(self).inner.tree@.insert(*e.0, *final(e.1))
                    &&& *final(final(self).inner.tree) == *final(old(self).inner.tree)
                },
                None => old(self).remaining().len() == 0 && *final(self) == *old(self),
            },
    {
        if self.spent_cnt < self.total_cnt {
            self.spent_cnt = self.spent_cnt + 1;
            self.inner.next_back()
        } else {
            None
        }
    }
}

/// A view into a single entry of a map, which is either vacant or occupied.
pub enum Entry<'a, K: Ord, V, const N: usize> {
    /// A vacant entry.
    Vacant(VacantEntry<'a, K, V, N>),
    /// An occupied entry.
    Occupied(OccupiedEntry<'a, K, V, N>),
}

/// A view into a vacant entry of a map: the key to insert, and the map.
pub struct VacantEntry<'a, K: Ord, V, const N: usize> {
    pub key: K,
    pub table: &'a mut SgMap<K, V, N>,
}

/// A view into an occupied entry of a map: the slot of its node, and the map.
pub struct OccupiedEntry<'a, K: Ord, V, const N: usize> {
    pub node_idx: usize,
    pub table: &'a mut SgMap<K, V, N>,
}

/// The error of `try_insert_std` for a key that the map holds already: the
/// occupied entry, and the value that was not inserted.
pub struct OccupiedError<'a, K: Ord, V, const N: usize> {
    /// The entry in the map that was already occupied.
    pub entry: OccupiedEntry<'a, K, V, N>,
    /// The value which was not inserted, because the entry was already occupied.
    pub value: V,
}

/// `format!` with the `Debug` renderings of a value that was not inserted,
/// of the key that it was meant for and of the value that the key has.
/// Nothing is claimed of the text.
#[verifier::external_body]
fn render_occupied<K: core::fmt::Debug, V: core::fmt::Debug>(value: &V, key: &K, held: &V) -> String {
    format!("failed to insert {:?}, key {:?} already exists with value {:?}", value, key, held)
}

/// `format!` with the `Debug` renderings of a key, of the value that it has
/// and of a value that was not inserted, laid out as the fields of a struct.
/// Nothing is claimed of the text.
#[verifier::external_body]
fn render_occupied_fields<K: core::fmt::Debug, V: core::fmt::Debug>(key: &K, held: &V, value: &V) -> String {
    format!("OccupiedError {{ key: {:?}, old_value: {:?}, new_value: {:?} }}", key, held, value)
}

impl<'a, K: Ord + core::fmt::Debug, V: core::fmt::Debug, const N: usize> OccupiedError<'a, K, V, N> {
    /// The error in words: the value that was not inserted, the key, and the
    /// value that the key has.
    pub fn to_string(&self) -> String
        requires
            self.entry.wf(),
    {
        render_occupied(&self.value, self.entry.key(), self.entry.get())
    }

    /// The error as a struct of three fields: the key, the value that it
    /// has, and the value that was not inserted.
    pub fn to_debug_string(&self) -> String
        requires
            self.entry.wf(),
    {
        render_occupied_fields(self.entry.key(), self.entry.get(), &self.value)
    }
}

impl<'a, K: Ord, V, const N: usize> VacantEntry<'a, K, V, N> {
    /// The map is well-formed and does not hold the key.
    pub open spec fn wf(&self) -> bool {
        self.table.wf() && !self.table@.contains_key(self.key)
    }

    /// The key that would be used when inserting a value through the entry.
    pub fn key(&self) -> (k: &K)
        ensures
            *k == self.key,
    {
        &self.key
    }

    /// Takes ownership of the key.
    pub fn into_key(self) -> (k: K)
        ensures
            k == self.key,
            *final(self.table) == *old(self.table),
    {
        self.key
    }

    /// Sets the value of the entry with the entry's key and returns
    /// exclusive access to it. The map must hold fewer than `N` entries.
    pub fn insert(self, value: V) -> (r: &'a mut V)
        requires
            self.wf(),
            old(self.table)@.len() < N,
        ensures
            *r == value,
            final(self.table).wf(),
            final(self.table)@ == old(self.table)@.insert(self.key, *final(r)),
    {
        let table: &'a mut SgMap<K, V, N> = self.table;
        proof {
            table.lemma_tree();
            assert forall|after: SgMap<K, V, N>| true implies #[trigger] after.wf() == after.tree().wf() by {
                after.lemma_tree();
            }
            assert forall|after: SgMap<K, V, N>| true implies #[trigger] after@ == after.tree()@ by {
                after.lemma_tree();
            }
        }
        let new_node_idx = match table.bst.internal_balancing_insert(self.key, value) {
            Ok((_, idx)) => idx,
            Err(_) => vstd::pervasive::unreached(),
        };
        table.bst.val_at_mut(new_node_idx)
    }
}

impl<'a, K: Ord, V, const N: usize> OccupiedEntry<'a, K, V, N> {
    /// The map is well-formed and the slot holds one of its nodes.
    pub open spec fn wf(&self) -> bool {
        self.table.wf() && self.table.has_node(self.node_idx)
    }

    /// The entry that this view stands for.
    pub open spec fn entry_view(&self) -> (K, V) {
        self.table.node_entry(self.node_idx)
    }

    /// The key of the entry.
    pub open spec fn key_view(&self) -> K {
        self.table.node_entry(self.node_idx).0
    }

    /// The map of the entry, as a mathematical map.
    pub open spec fn map_view(&self) -> Map<K, V> {
        self.table@
    }

    /// The key in the entry.
    pub fn key(&self) -> (k: &K)
        requires
            self.wf(),
        ensures
            *k == self.key_view(),
            self.map_view().contains_key(*k),
    {
        proof {
            self.table.lemma_tree();
            self.table.lemma_node(self.node_idx);
        }
        self.table.bst.key_at(self.node_idx)
    }

    /// The value in the entry.
    pub fn get(&self) -> (v: &V)
        requires
            self.wf(),
        ensures
            *v == self.entry_view().1,
            *v == self.map_view()[self.key_view()],
    {
        proof {
            self.table.lemma_tree();
            self.table.lemma_node(self.node_idx);
        }
        self.table.bst.val_at(self.node_idx)
    }

    /// Exclusive access to the value in the entry.
    pub fn get_mut(&mut self) -> (v: &mut V)
        requires
            old(self).wf(),
        ensures
            *v == old(self).entry_view().1,
            old(self).map_view().contains_key(old(self).key_view()),
            *v == old(self).map_view()[old(self).key_view()],
            final(self).wf(),
            final(self).node_idx == old(self).node_idx,
            final(self).entry_view() == (old(self).key_view(), *final(v)),
            final(self).table@ == old(self).table@.insert(old(self).key_view(), *final(v)),
            *final(final(self).table) == *final(old(self).table),
    {
        proof {
            self.table.lemma_tree();
            self.table.lemma_node(self.node_idx);
            assert forall|after: SgMap<K, V, N>| true implies #[trigger] after.wf() == after.tree().wf() by {
                after.lemma_tree();
            }
            assert forall|after: SgMap<K, V, N>| true implies #[trigger] after@ == after.tree()@ by {
                after.lemma_tree();
            }
            assert forall|after: SgMap<K, V, N>, i: usize| true implies #[trigger] after.has_node(i)
                == after.tree().has_node(i) by {
                after.lemma_tree();
            }
            assert forall|after: SgMap<K, V, N>, i: usize| true implies #[trigger] after.node_entry(i)
                == after.tree().node_entry(i) by {
                after.lemma_tree();
            }
        }
        self.table.bst.val_at_mut(self.node_idx)
    }

    /// Converts the entry into exclusive access to its value.
    pub fn into_mut(self) -> (v: &'a mut V)
        requires
            self.wf(),
        ensures
            *v == self.entry_view().1,
            self.map_view().contains_key(self.key_view()),
            *v == self.map_view()[self.key_view()],
            final(self.table).wf(),
            final(self.table)@ == old(self.table)@.insert(self.key_view(), *final(v)),
    {
        let table: &'a mut SgMap<K, V, N> = self.table;
        proof {
            table.lemma_node(self.node_idx);
        }
        proof {
            table.lemma_tree();
            assert forall|after: SgMap<K, V, N>| true implies #[trigger] after.wf() == after.tree().wf() by {
                after.lemma_tree();
            }
            assert forall|after: SgMap<K, V, N>| true implies #[trigger] after@ == after.tree()@ by {
                after.lemma_tree();
            }
        }
        table.bst.val_at_mut(self.node_idx)
    }

    /// Sets the value of the entry and returns the entry's old value.
    pub fn insert(&mut self, value: V) -> (before: V)
        requires
            old(self).wf(),
        ensures
            before == old(self).entry_view().1,
            old(self).map_view().contains_key(old(self).key_view()),
            before == old(self).map_view()[old(self).key_view()],
            final(self).wf(),
            final(self).node_idx == old(self).node_idx,
            final(self).entry_view() == (old(self).key_view(), value),
            final(self).table@ == old(self).table@.insert(old(self).key_view(), value),
            *final(final(self).table) == *final(old(self).table),
    {
        let mut value = value;
        let slot = self.get_mut();
        core::mem::swap(slot, &mut value);
        value
    }

    /// Takes the entry out of the map and returns it.
    pub fn remove_entry(self) -> (r: (K, V))
        requires
            self.wf(),
        ensures
            r == self.entry_view(),
            self.map_view().contains_key(r.0),
            r.1 == self.map_view()[r.0],
            final(self.table).wf(),
            final(self.table)@ == old(self.table)@.remove(r.0),
    {
        proof {
            self.table.lemma_tree();
            self.table.lemma_node(self.node_idx);
        }
        self.table.bst.priv_remove_by_idx(self.node_idx)
    }

    /// Takes the value of the entry out of the map and returns it.
    pub fn remove(self) -> (v: V)
        requires
            self.wf(),
        ensures
            v == self.entry_view().1,
            self.map_view().contains_key(self.key_view()),
            v == self.map_view()[self.key_view()],
            final(self.table).wf(),
            final(self.table)@ == old(self.table)@.remove(self.key_view()),
    {
        self.remove_entry().1
    }
}

impl<'a, K: Ord, V, const N: usize> Entry<'a, K, V, N> {
    /// The view is sound: an occupied entry names a node of its map, a
    /// vacant one a key that its map does not hold.
    pub open spec fn wf(&self) -> bool {
        match self {
            Entry::Occupied(o) => o.wf(),
            Entry::Vacant(v) => v.wf(),
        }
    }

    /// The key of the entry.
    pub open spec fn key_view(&self) -> K {
        match self {
            Entry::Occupied(o) => o.key_view(),
            Entry::Vacant(v) => v.key,
        }
    }

    /// The map has room for the entry: it is occupied, or the map holds fewer
    /// than `N` entries.
    pub open spec fn has_room(&self) -> bool {
        match self {
            Entry::Occupied(o) => true,
            Entry::Vacant(v) => v.table@.len() < N,
        }
    }

    /// Ensures a value is in the entry by inserting `default` if it is
    /// vacant, and returns exclusive access to the value in the entry.
    pub fn or_insert(self, default: V) -> (r: &'a mut V)
        requires
            self.wf(),
            self.has_room(),
        ensures
            match self {
                Entry::Occupied(o) => {
                    &&& *r == o.entry_view().1
                    &&& o.table@.contains_key(o.key_view())
                    &&& *r == o.table@[o.key_view()]
                    &&& final(o.table).wf()
                    &&& final(o.table)@ == o.table@.insert(o.key_view(), *final(r))
                },
                Entry::Vacant(v) => {
                    &&& *r == default
                    &&& final(v.table).wf()
                    &&& final(v.table)@ == v.table@.insert(v.key, *final(r))
                },
            },
    {
        match self {
            Entry::Occupied(entry) => entry.into_mut(),
            Entry::Vacant(entry) => entry.insert(default),
        }
    }

    /// Ensures a value is in the entry by inserting the result of `default`
    /// if it is vacant, and returns exclusive access to the value in the
    /// entry.
    pub fn or_insert_with<F: FnOnce() -> V>(self, default: F) -> (r: &'a mut V)
        requires
            self.wf(),
            self.has_room(),
            self is Vacant ==> default.requires(()),
        ensures
            match self {
                Entry::Occupied(o) => {
                    &&& *r == o.entry_view().1
                    &&& o.table@.contains_key(o.key_view())
                    &&& *r == o.table@[o.key_view()]
                    &&& final(o.table).wf()
                    &&& final(o.table)@ == o.table@.insert(o.key_view(), *final(r))
                },
                Entry::Vacant(v) => {
                    &&& default.ensures((), *r)
                    &&& final(v.table).wf()
                    &&& final(v.table)@ == v.table@.insert(v.key, *final(r))
                },
            },
    {
        match self {
            Entry::Occupied(entry) => entry.into_mut(),
            Entry::Vacant(entry) => entry.insert(default()),
        }
    }

    /// Ensures a value is in the entry by inserting, if it is vacant, the
    /// result of `default` for the entry's key, and returns exclusive access
    /// to the value in the entry.
    pub fn or_insert_with_key<F: FnOnce(&K) -> V>(self, default: F) -> (r: &'a mut V)
        requires
            self.wf(),
            self.has_room(),
            self is Vacant ==> default.requires((&self.key_view(),)),
        ensures
            match self {
                Entry::Occupied(o) => {
                    &&& *r == o.entry_view().1
                    &&& o.table@.contains_key(o.key_view())
                    &&& *r == o.table@[o.key_view()]
                    &&& final(o.table).wf()
                    &&& final(o.table)@ == o.table@.insert(o.key_view(), *final(r))
                },
                Entry::Vacant(v) => {
                    &&& default.ensures((&v.key,), *r)
                    &&& final(v.table).wf()
                    &&& final(v.table)@ == v.table@.insert(v.key, *final(r))
                },
            },
    {
        match self {
            Entry::Occupied(entry) => entry.into_mut(),
            Entry::Vacant(entry) => {
                let value = default(entry.key());
                entry.insert(value)
            },
        }
    }

    /// The key of the entry.
    pub fn key(&self) -> (k: &K)
        requires
            self.wf(),
        ensures
            *k == self.key_view(),
    {
        match self {
            Entry::Occupied(entry) => entry.key(),
            Entry::Vacant(entry) => entry.key(),
        }
    }

    /// Provides in-place mutable access to an occupied entry before any
    /// potential inserts into the map.
    pub fn and_modify<F: FnOnce(&mut V)>(self, f: F) -> (e: Entry<'a, K, V, N>)
        requires
            self.wf(),
            self is Occupied ==> forall|r: &mut V| *r == self->Occupied_0.entry_view().1 ==> call_requires(f, (r,)),
        ensures
            e.wf(),
            e.key_view() == self.key_view(),
            match self {
                Entry::Occupied(o) => {
                    &&& e is Occupied
                    &&& e->Occupied_0.node_idx == o.node_idx
                    &&& *final(e->Occupied_0.table) == *final(o.table)
                    &&& exists|r: &mut V|
                        {
                            &&& *r == o.entry_view().1
                            &&& #[trigger] call_ensures(f, (r,), ())
                            &&& e->Occupied_0.entry_view() == (o.key_view(), *final(r))
                            &&& e->Occupied_0.table@ == o.table@.insert(o.key_view(), *final(r))
                        }
                },
                Entry::Vacant(v) => {
                    &&& e is Vacant
                    &&& e->Vacant_0.key == v.key
                    &&& *e->Vacant_0.table == *v.table
                    &&& *final(e->Vacant_0.table) == *final(v.table)
                },
            },
    {
        match self {
            Entry::Occupied(mut entry) => {
                f(entry.get_mut());
                Entry::Occupied(entry)
            },
            Entry::Vacant(entry) => Entry::Vacant(entry),
        }
    }
}

impl<'a, K: Ord, V: Default, const N: usize> Entry<'a, K, V, N> {
    /// Ensures a value is in the entry by inserting the default value if it
    /// is vacant, and returns exclusive access to the value in the entry.
    pub fn or_default(self) -> (r: &'a mut V)
        requires
            self.wf(),
            self.has_room(),
            self is Vacant ==> call_requires(V::default, ()),
        ensures
            match self {
                Entry::Occupied(o) => {
                    &&& *r == o.entry_view().1
                    &&& o.table@.contains_key(o.key_view())
                    &&& *r == o.table@[o.key_view()]
                    &&& final(o.table).wf()
                    &&& final(o.table)@ == o.table@.insert(o.key_view(), *final(r))
                },
                Entry::Vacant(v) => {
                    &&& call_ensures(V::default, (), *r)
                    &&& final(v.table).wf()
                    &&& final(v.table)@ == v.table@.insert(v.key, *final(r))
                },
            },
    {
        match self {
            Entry::Occupied(entry) => entry.into_mut(),
            Entry::Vacant(entry) => entry.insert(V::default()),
        }
    }
}

} // verus!
