//! The ends of a range of keys.
use crate::order::{compare, key_le, key_lt, lemma_lt_asymmetric, lemma_lt_irreflexive, total_order, Rel};
use vstd::prelude::*;

verus! {

/// One end of a range of keys.
pub enum Bound<T> {
    /// The range reaches to the key and holds it.
    Included(T),
    /// The range reaches to the key and does not hold it.
    Excluded(T),
    /// The range has no end on this side.
    Unbounded,
}

/// Why a pair of bounds is no range.
#[derive(Debug, Clone, Copy, PartialEq, Eq, Structural)]
pub enum RangeFault {
    /// The start lies above the end.
    StartAfterEnd,
    /// Start and end are the same key and both exclude it.
    EqualAndExcluded,
}

impl RangeFault {
    /// The fault in words.
    pub fn message(&self) -> (s: &'static str)
        ensures
            s == (match self {
                RangeFault::StartAfterEnd => "range start is greater than range end",
                RangeFault::EqualAndExcluded => "range start and end are equal and excluded",
            }),
    {
        match self {
            RangeFault::StartAfterEnd => "range start is greater than range end",
            RangeFault::EqualAndExcluded => "range start and end are equal and excluded",
        }
    }
}

/// `k` lies at or after the lower bound `lo`.
pub open spec fn after_start<K: Ord>(lo: Bound<&K>, k: K) -> bool {
    match lo {
        Bound::Included(a) => key_le(*a, k),
        Bound::Excluded(a) => key_lt(*a, k),
        Bound::Unbounded => true,
    }
}

/// `k` lies at or before the upper bound `hi`.
pub open spec fn before_end<K: Ord>(hi: Bound<&K>, k: K) -> bool {
    match hi {
        Bound::Included(b) => key_le(k, *b),
        Bound::Excluded(b) => key_lt(k, *b),
        Bound::Unbounded => true,
    }
}

/// `k` lies in the range from `lo` to `hi`.
pub open spec fn within<K: Ord>(lo: Bound<&K>, hi: Bound<&K>, k: K) -> bool {
    after_start(lo, k) && before_end(hi, k)
}

/// The key of a bound, if it has one.
pub open spec fn bound_key<K>(b: Bound<&K>) -> Option<K> {
    match b {
        Bound::Included(a) => Some(*a),
        Bound::Excluded(a) => Some(*a),
        Bound::Unbounded => None,
    }
}

/// What is wrong with the bounds `lo` and `hi`, if anything.
pub open spec fn fault_of<K: Ord>(lo: Bound<&K>, hi: Bound<&K>) -> Option<RangeFault> {
    match (bound_key(lo), bound_key(hi)) {
        (Some(a), Some(b)) => if key_lt(b, a) {
            Some(RangeFault::StartAfterEnd)
        } else if a == b && lo is Excluded && hi is Excluded {
            Some(RangeFault::EqualAndExcluded)
        } else {
            None
        },
        _ => None,
    }
}

/// Checks a pair of bounds: a range must not start above its end, nor start
/// and end at one key that both bounds exclude.
pub fn range_fault<K: Ord>(lo: &Bound<&K>, hi: &Bound<&K>) -> (r: Option<RangeFault>)
    requires
        total_order::<K>(),
    ensures
        r == fault_of(*lo, *hi),
{
    let (a, lo_open) = match lo {
        Bound::Included(a) => (*a, false),
        Bound::Excluded(a) => (*a, true),
        Bound::Unbounded => {
            return None;
        },
    };
    let (b, hi_open) = match hi {
        Bound::Included(b) => (*b, false),
        Bound::Excluded(b) => (*b, true),
        Bound::Unbounded => {
            return None;
        },
    };
    proof {
        lemma_lt_irreflexive(*a);
        if key_lt(*a, *b) {
            lemma_lt_asymmetric(*a, *b);
        }
    }
    match compare(a, b) {
        Rel::Greater => Some(RangeFault::StartAfterEnd),
        Rel::Equal => if lo_open && hi_open {
            Some(RangeFault::EqualAndExcluded)
        } else {
            None
        },
        Rel::Less => None,
    }
}

/// The places `s..e` of `list` are exactly those whose key lies in the range
/// from `lo` to `hi`.
pub open spec fn spans<K: Ord, V>(list: Seq<(K, V)>, lo: Bound<&K>, hi: Bound<&K>, s: int, e: int) -> bool {
    &&& 0 <= s <= e <= list.len()
    &&& forall|j: int| 0 <= j < list.len() ==> (s <= j < e <==> within(lo, hi, (#[trigger] list[j]).0))
}

} // verus!
