//! The iterators over a set and over the combinations of two sets.
use crate::bounds::{within, Bound};
use crate::map_types::{IntoIter as MapIntoIter, Iter as MapIter, Range as MapRange};
use crate::merge::MergeIter;
use crate::order::key_lt;
use crate::set::SgSet;
use vstd::prelude::*;

verus! {

/// The keys of a sequence of entries, in its order.
pub open spec fn keys_of<K, V>(s: Seq<(K, V)>) -> Seq<K> {
    Seq::new(s.len(), |j: int| s[j].0)
}

/// The keys of `s` ascend strictly.
pub open spec fn rising_keys<K: Ord>(s: Seq<K>) -> bool {
    forall|a: int, b: int| 0 <= a < b < s.len() ==> key_lt(#[trigger] s[a], #[trigger] s[b])
}

/// The places `s..e` of `list` are exactly those whose key lies in the range
/// from `lo` to `hi`.
pub open spec fn spans_keys<K: Ord>(list: Seq<K>, lo: Bound<&K>, hi: Bound<&K>, s: int, e: int) -> bool {
    &&& 0 <= s <= e <= list.len()
    &&& forall|j: int| 0 <= j < list.len() ==> (s <= j < e <==> within(lo, hi, #[trigger] list[j]))
}

/// An iterator over the elements of a set, in ascending order from the front
/// and in descending order from the back.
pub struct Iter<'a, K: Ord, const N: usize> {
    pub(crate) ref_iter: MapIter<'a, K, (), N>,
}

impl<'a, K: Ord, const N: usize> Iter<'a, K, N> {
    /// The iterator walks a well-formed set.
    pub open(crate) spec fn wf(&self) -> bool {
        self.ref_iter.wf()
    }

    /// The elements still to come, in ascending order.
    pub open(crate) spec fn remaining(&self) -> Seq<K> {
        keys_of(self.ref_iter.remaining())
    }

    /// An iterator over all elements of `set`.
    pub fn new(set: &'a SgSet<K, N>) -> (it: Self)
        requires
            set.wf(),
        ensures
            it.wf(),
            it.remaining() == set.listing(),
    {
        Iter { ref_iter: MapIter::new(&set.bst) }
    }

    /// The next element from the front.
    pub fn next(&mut self) -> (r: Option<&'a K>)
        requires
            old(self).wf(),
        ensures
            final(self).wf(),
            match r {
                Some(k) => old(self).remaining().len() > 0 && *k == old(self).remaining()[0]
                    && final(self).remaining() == old(self).remaining().skip(1),
                None => old(self).remaining().len() == 0 && final(self).remaining() == old(self).remaining(),
            },
    {
        match self.ref_iter.next() {
            Some((k, _)) => {
                proof {
                    assert(self.remaining() =~= old(self).remaining().skip(1));
                }
                Some(k)
            },
            None => None,
        }
    }

    /// The next element from the back.
    pub fn next_back(&mut self) -> (r: Option<&'a K>)
        requires
            old(self).wf(),
        ensures
            final(self).wf(),
            match r {
                Some(k) => old(self).remaining().len() > 0 && *k == old(self).remaining().last()
                    && final(self).remaining() == old(self).remaining().drop_last(),
                None => old(self).remaining().len() == 0 && final(self).remaining() == old(self).remaining(),
            },
    {
        match self.ref_iter.next_back() {
            Some((k, _)) => {
                proof {
                    assert(self.remaining() =~= old(self).remaining().drop_last());
                }
                Some(k)
            },
            None => None,
        }
    }

    /// The number of elements still to come.
    pub fn len(&self) -> (n: usize)
        requires
            self.wf(),
        ensures
            n == self.remaining().len(),
    {
        self.ref_iter.len()
    }
}

/// An iterator that owns the elements of a set and hands them out.
pub struct IntoIter<K: Ord, const N: usize> {
    pub(crate) cons_iter: MapIntoIter<K, (), N>,
}

impl<K: Ord, const N: usize> IntoIter<K, N> {
    /// The iterator holds the elements still to come.
    pub open(crate) spec fn wf(&self) -> bool {
        self.cons_iter.wf()
    }

    /// The elements still to come, in ascending order.
    pub open(crate) spec fn remaining(&self) -> Seq<K> {
        keys_of(self.cons_iter.remaining())
    }

    /// An iterator that takes all elements of `set`.
    pub fn new(set: SgSet<K, N>) -> (it: Self)
        requires
            set.wf(),
        ensures
            it.wf(),
            it.remaining() == set.listing(),
    {
        IntoIter { cons_iter: MapIntoIter::new(set.bst) }
    }

    /// The next element from the front.
    pub fn next(&mut self) -> (r: Option<K>)
        requires
            old(self).wf(),
        ensures
            final(self).wf(),
            match r {
                Some(k) => old(self).remaining().len() > 0 && k == old(self).remaining()[0]
                    && final(self).remaining() == old(self).remaining().skip(1),
                None => old(self).remaining().len() == 0 && final(self).remaining() == old(self).remaining(),
            },
    {
        match self.cons_iter.next() {
            Some((k, _)) => {
                proof {
                    assert(self.remaining() =~= old(self).remaining().skip(1));
                }
                Some(k)
            },
            None => None,
        }
    }

    /// The next element from the back.
    pub fn next_back(&mut self) -> (r: Option<K>)
        requires
            old(self).wf(),
        ensures
            final(self).wf(),
            match r {
                Some(k) => old(self).remaining().len() > 0 && k == old(self).remaining().last()
                    && final(self).remaining() == old(self).remaining().drop_last(),
                None => old(self).remaining().len() == 0 && final(self).remaining() == old(self).remaining(),
            },
    {
        match self.cons_iter.next_back() {
            Some((k, _)) => {
                proof {
                    assert(self.remaining() =~= old(self).remaining().drop_last());
                }
                Some(k)
            },
            None => None,
        }
    }

    /// The number of elements still to come.
    pub fn len(&self) -> (n: usize)
        requires
            self.wf(),
        ensures
            n == self.remaining().len(),
    {
        self.cons_iter.len()
    }
}

/// An iterator over the elements of a set that lie in a range.
pub struct Range<'a, K: Ord, const N: usize> {
    pub(crate) inner: MapRange<'a, K, (), N>,
}

impl<'a, K: Ord, const N: usize> Range<'a, K, N> {
    /// The iterator walks a well-formed set.
    pub open(crate) spec fn wf(&self) -> bool {
        self.inner.wf()
    }

    /// The elements still to come, in ascending order.
    pub open(crate) spec fn remaining(&self) -> Seq<K> {
        keys_of(self.inner.remaining())
    }

    /// The next element from the front.
    pub fn next(&mut self) -> (r: Option<&'a K>)
        requires
            old(self).wf(),
        ensures
            final(self).wf(),
            match r {
                Some(k) => old(self).remaining().len() > 0 && *k == old(self).remaining()[0]
                    && final(self).remaining() == old(self).remaining().skip(1),
                None => old(self).remaining().len() == 0 && final(self).remaining() == old(self).remaining(),
            },
    {
        match self.inner.next() {
            Some((k, _)) => {
                proof {
                    assert(self.remaining() =~= old(self).remaining().skip(1));
                }
                Some(k)
            },
            None => None,
        }
    }

    /// The next element from the back.
    pub fn next_back(&mut self) -> (r: Option<&'a K>)
        requires
            old(self).wf(),
        ensures
            final(self).wf(),
            match r {
                Some(k) => old(self).remaining().len() > 0 && *k == old(self).remaining().last()
                    && final(self).remaining() == old(self).remaining().drop_last(),
                None => old(self).remaining().len() == 0 && final(self).remaining() == old(self).remaining(),
            },
    {
        match self.inner.next_back() {
            Some((k, _)) => {
                proof {
                    assert(self.remaining() =~= old(self).remaining().drop_last());
                }
                Some(k)
            },
            None => None,
        }
    }
}

/// An iterator over the elements of either of two sets, in ascending order.
pub struct Union<'a, K: Ord, const N: usize> {
    pub(crate) inner: MergeIter<'a, K, (), N>,
}

/// An iterator over the elements of both of two sets, in ascending order.
pub struct Intersection<'a, K: Ord, const N: usize> {
    pub(crate) inner: MergeIter<'a, K, (), N>,
}

/// An iterator over the elements of a set that another set lacks, in
/// ascending order.
pub struct Difference<'a, K: Ord, const N: usize> {
    pub(crate) inner: MergeIter<'a, K, (), N>,
}

/// An iterator over the elements of exactly one of two sets, in ascending
/// order.
pub struct SymmetricDifference<'a, K: Ord, const N: usize> {
    pub(crate) inner: MergeIter<'a, K, (), N>,
}

/// The next key of a merge walk.
pub(crate) fn next_key<'a, K: Ord, const N: usize>(inner: &mut MergeIter<'a, K, (), N>) -> (r: Option<&'a K>)
    requires
        old(inner).wf(),
    ensures
        final(inner).wf(),
        match r {
            Some(k) => keys_of(old(inner).remaining()).len() > 0 && *k == keys_of(old(inner).remaining())[0]
                && keys_of(final(inner).remaining()) == keys_of(old(inner).remaining()).skip(1),
            None => keys_of(old(inner).remaining()).len() == 0 && final(inner).remaining() == old(
                inner,
            ).remaining(),
        },
{
    match inner.next() {
        Some((k, _)) => {
            proof {
                assert(keys_of(inner.remaining()) =~= keys_of(old(inner).remaining()).skip(1));
            }
            Some(k)
        },
        None => None,
    }
}

impl<'a, K: Ord, const N: usize> Union<'a, K, N> {
    /// The iterator walks two well-formed sets.
    pub open(crate) spec fn wf(&self) -> bool {
        self.inner.wf()
    }

    /// The elements still to come, in ascending order.
    pub open(crate) spec fn remaining(&self) -> Seq<K> {
        keys_of(self.inner.remaining())
    }

    /// The next element.
    pub fn next(&mut self) -> (r: Option<&'a K>)
        requires
            old(self).wf(),
        ensures
            final(self).wf(),
            match r {
                Some(k) => old(self).remaining().len() > 0 && *k == old(self).remaining()[0]
                    && final(self).remaining() == old(self).remaining().skip(1),
                None => old(self).remaining().len() == 0 && final(self).remaining() == old(self).remaining(),
            },
    {
        next_key(&mut self.inner)
    }
}

impl<'a, K: Ord, const N: usize> Intersection<'a, K, N> {
    /// The iterator walks two well-formed sets.
    pub open(crate) spec fn wf(&self) -> bool {
        self.inner.wf()
    }

    /// The elements still to come, in ascending order.
    pub open(crate) spec fn remaining(&self) -> Seq<K> {
        keys_of(self.inner.remaining())
    }

    /// The next element.
    pub fn next(&mut self) -> (r: Option<&'a K>)
        requires
            old(self).wf(),
        ensures
            final(self).wf(),
            match r {
                Some(k) => old(self).remaining().len() > 0 && *k == old(self).remaining()[0]
                    && final(self).remaining() == old(self).remaining().skip(1),
                None => old(self).remaining().len() == 0 && final(self).remaining() == old(self).remaining(),
            },
    {
        next_key(&mut self.inner)
    }
}

impl<'a, K: Ord, const N: usize> Difference<'a, K, N> {
    /// The iterator walks two well-formed sets.
    pub open(crate) spec fn wf(&self) -> bool {
        self.inner.wf()
    }

    /// The elements still to come, in ascending order.
    pub open(crate) spec fn remaining(&self) -> Seq<K> {
        keys_of(self.inner.remaining())
    }

    /// The next element.
    pub fn next(&mut self) -> (r: Option<&'a K>)
        requires
            old(self).wf(),
        ensures
            final(self).wf(),
            match r {
                Some(k) => old(self).remaining().len() > 0 && *k == old(self).remaining()[0]
                    && final(self).remaining() == old(self).remaining().skip(1),
                None => old(self).remaining().len() == 0 && final(self).remaining() == old(self).remaining(),
            },
    {
        next_key(&mut self.inner)
    }
}

impl<'a, K: Ord, const N: usize> SymmetricDifference<'a, K, N> {
    /// The iterator walks two well-formed sets.
    pub open(crate) spec fn wf(&self) -> bool {
        self.inner.wf()
    }

    /// The elements still to come, in ascending order.
    pub open(crate) spec fn remaining(&self) -> Seq<K> {
        keys_of(self.inner.remaining())
    }

    /// The next element.
    pub fn next(&mut self) -> (r: Option<&'a K>)
        requires
            old(self).wf(),
        ensures
            final(self).wf(),
            match r {
                Some(k) => old(self).remaining().len() > 0 && *k == old(self).remaining()[0]
                    && final(self).remaining() == old(self).remaining().skip(1),
                None => old(self).remaining().len() == 0 && final(self).remaining() == old(self).remaining(),
            },
    {
        next_key(&mut self.inner)
    }
}

} // verus!
