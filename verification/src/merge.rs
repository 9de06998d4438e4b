//! The merge walk over two ascending sequences, which lets through the
//! entries of chosen kinds: those of the left only, of both, of the right
//! only.
use crate::listing::{ascending, has_key, holds_key, position_of};
use crate::map_types::Iter;
use crate::order::{
    compare, key_lt, lemma_lt_asymmetric, lemma_lt_irreflexive, lemma_lt_total, lemma_lt_transitive, total_order,
    Rel,
};
use vstd::prelude::*;

verus! {

/// Which entries a merge walk lets through.
#[derive(Clone, Copy)]
pub struct Pass {
    /// Those whose key only the left sequence holds.
    pub left: bool,
    /// Those whose key both sequences hold.
    pub both: bool,
    /// Those whose key only the right sequence holds.
    pub right: bool,
}

/// `e` in front of `rest`, where it is let through.
pub open spec fn front<T>(through: bool, e: T, rest: Seq<T>) -> Seq<T> {
    if through {
        seq![e] + rest
    } else {
        rest
    }
}

/// The entries of `a` and `b` that `pass` lets through, in ascending key
/// order; for a key that both hold, the entry of `b`.
pub open spec fn merge<K: Ord, V>(a: Seq<(K, V)>, b: Seq<(K, V)>, pass: Pass) -> Seq<(K, V)>
    decreases a.len() + b.len(),
{
    if a.len() == 0 && b.len() == 0 {
        Seq::empty()
    } else if b.len() == 0 {
        front(pass.left, a[0], merge(a.skip(1), b, pass))
    } else if a.len() == 0 {
        front(pass.right, b[0], merge(a, b.skip(1), pass))
    } else if key_lt(a[0].0, b[0].0) {
        front(pass.left, a[0], merge(a.skip(1), b, pass))
    } else if key_lt(b[0].0, a[0].0) {
        front(pass.right, b[0], merge(a, b.skip(1), pass))
    } else {
        front(pass.both, b[0], merge(a.skip(1), b.skip(1), pass))
    }
}

/// Whether `pass` lets the key `k` through, given which sequences hold it.
pub open spec fn lets<K, V>(a: Seq<(K, V)>, b: Seq<(K, V)>, pass: Pass, k: K) -> bool {
    ||| pass.left && has_key(a, k) && !has_key(b, k)
    ||| pass.both && has_key(a, k) && has_key(b, k)
    ||| pass.right && !has_key(a, k) && has_key(b, k)
}

/// The rest of an ascending sequence ascends, lies above its first key and
/// holds every key of the sequence but the first.
pub proof fn lemma_skip_first<K: Ord, V>(a: Seq<(K, V)>)
    requires
        total_order::<K>(),
        ascending(a),
        a.len() > 0,
    ensures
        ascending(a.skip(1)),
        !has_key(a.skip(1), a[0].0),
        has_key(a, a[0].0),
        forall|k: K| has_key(a, k) <==> (k == a[0].0 || has_key(a.skip(1), k)),
        forall|k: K| has_key(a.skip(1), k) ==> key_lt(a[0].0, k),
{
    let t = a.skip(1);
    assert forall|x: int, y: int| 0 <= x < y < t.len() implies key_lt(#[trigger] t[x].0, #[trigger] t[y].0) by {
        assert(t[x] == a[x + 1] && t[y] == a[y + 1]);
    }
    assert(holds_key(a, 0, a[0].0));
    assert forall|k: K| has_key(t, k) implies key_lt(a[0].0, k) && has_key(a, k) by {
        let j = position_of(t, k);
        assert(t[j] == a[j + 1]);
        assert(holds_key(a, j + 1, k));
    }
    if has_key(t, a[0].0) {
        lemma_lt_irreflexive(a[0].0);
    }
    assert forall|k: K| has_key(a, k) implies (k == a[0].0 || has_key(t, k)) by {
        let j = position_of(a, k);
        if j > 0 {
            assert(holds_key(t, j - 1, k));
        }
    }
}

/// The merge of two ascending sequences ascends and holds exactly the keys
/// that `pass` lets through, each with an entry of `b` where `b` holds the
/// key and of `a` where it does not.
#[verifier::rlimit(30)]
pub proof fn lemma_merge<K: Ord, V>(a: Seq<(K, V)>, b: Seq<(K, V)>, pass: Pass)
    requires
        total_order::<K>(),
        ascending(a),
        ascending(b),
    ensures
        ascending(merge(a, b, pass)),
        forall|k: K| has_key(merge(a, b, pass), k) <==> lets(a, b, pass, k),
        forall|j: int|
            0 <= j < merge(a, b, pass).len() ==> (exists|i: int|
                0 <= i < b.len() && b[i] == #[trigger] merge(a, b, pass)[j]) || (!has_key(
                b,
                merge(a, b, pass)[j].0,
            ) && exists|i: int| 0 <= i < a.len() && a[i] == merge(a, b, pass)[j]),
        merge(a, b, pass).len() <= a.len() + b.len(),
    decreases a.len() + b.len(),
{
    let m = merge(a, b, pass);
    if a.len() == 0 && b.len() == 0 {
        assert forall|k: K| has_key(m, k) <==> lets(a, b, pass, k) by {
            if has_key(m, k) {
                let j = position_of(m, k);
            }
            if has_key(a, k) {
                let j = position_of(a, k);
            }
            if has_key(b, k) {
                let j = position_of(b, k);
            }
        }
    } else {
        // which heads leave, and whether the entry that leaves is let through
        let take_a = b.len() == 0 || (a.len() > 0 && !key_lt(b[0].0, a[0].0));
        let take_b = a.len() == 0 || (b.len() > 0 && !key_lt(a[0].0, b[0].0));
        let a1 = if take_a { a.skip(1) } else { a };
        let b1 = if take_b { b.skip(1) } else { b };
        let h = if take_b { b[0] } else { a[0] };
        let through = if take_a && take_b { pass.both } else if take_a { pass.left } else { pass.right };
        if a.len() > 0 && b.len() > 0 {
            lemma_lt_total(a[0].0, b[0].0);
            if key_lt(a[0].0, b[0].0) {
                lemma_lt_asymmetric(a[0].0, b[0].0);
            }
        }
        if a.len() > 0 {
            lemma_skip_first(a);
        }
        if b.len() > 0 {
            lemma_skip_first(b);
        }
        lemma_merge(a1, b1, pass);
        let rest = merge(a1, b1, pass);
        assert(m == front(through, h, rest));
        // the head lies below every key of what remains
        assert forall|k: K| has_key(a1, k) || has_key(b1, k) implies key_lt(h.0, k) by {
            if has_key(a1, k) {
                if take_a {
                    if !take_b {
                    } else if a.len() > 0 && b.len() > 0 {
                        assert(a[0].0 == b[0].0);
                    }
                } else {
                    // the head is b[0], below a[0]
                    let j = position_of(a, k);
                    if j > 0 {
                        assert(key_lt(a[0].0, a[j].0));
                        lemma_lt_transitive(b[0].0, a[0].0, k);
                    }
                }
            } else {
                if take_b {
                } else {
                    let j = position_of(b, k);
                    if j > 0 {
                        assert(key_lt(b[0].0, b[j].0));
                        lemma_lt_transitive(a[0].0, b[0].0, k);
                    }
                }
            }
        }
        lemma_lt_irreflexive(h.0);
        assert(!has_key(a1, h.0) && !has_key(b1, h.0)) by {
            if has_key(a1, h.0) || has_key(b1, h.0) {
                assert(key_lt(h.0, h.0));
            }
        }
        assert forall|x: int, y: int| 0 <= x < y < m.len() implies key_lt(#[trigger] m[x].0, #[trigger] m[y].0) by {
            if through {
                if x == 0 {
                    assert(m[y] == rest[y - 1]);
                    assert(holds_key(rest, y - 1, rest[y - 1].0));
                    assert(has_key(rest, m[y].0));
                    assert(lets(a1, b1, pass, m[y].0));
                } else {
                    assert(m[x] == rest[x - 1] && m[y] == rest[y - 1]);
                }
            }
        }
        assert forall|k: K| has_key(m, k) <==> lets(a, b, pass, k) by {
            if has_key(m, k) {
                let j = position_of(m, k);
                if through && j > 0 {
                    assert(holds_key(rest, j - 1, k));
                } else if !through {
                    assert(holds_key(rest, j, k));
                }
            }
            if has_key(rest, k) {
                let j = position_of(rest, k);
                if through {
                    assert(holds_key(m, j + 1, k));
                } else {
                    assert(holds_key(m, j, k));
                }
            }
            if through {
                assert(holds_key(m, 0, h.0));
            }
            if a.len() > 0 && b.len() > 0 && !take_a {
                // a[0] is above b[0], so b[0] is not a key of a
                if has_key(a, h.0) {
                    let j = position_of(a, h.0);
                    if j > 0 {
                        assert(key_lt(a[0].0, a[j].0));
                    }
                    lemma_lt_asymmetric(b[0].0, a[0].0);
                    if j > 0 {
                        lemma_lt_transitive(b[0].0, a[0].0, a[j].0);
                    }
                }
            }
            if a.len() > 0 && b.len() > 0 && !take_b {
                if has_key(b, h.0) {
                    let j = position_of(b, h.0);
                    if j > 0 {
                        assert(key_lt(b[0].0, b[j].0));
                        lemma_lt_transitive(a[0].0, b[0].0, b[j].0);
                    }
                    lemma_lt_asymmetric(a[0].0, b[0].0);
                }
            }
            if a.len() == 0 && has_key(a, k) {
                let j = position_of(a, k);
            }
            if b.len() == 0 && has_key(b, k) {
                let j = position_of(b, k);
            }
        }
        assert forall|j: int| 0 <= j < m.len() implies (exists|i: int| 0 <= i < b.len() && b[i] == #[trigger] m[j])
            || (!has_key(b, m[j].0) && exists|i: int| 0 <= i < a.len() && a[i] == m[j]) by {
            let r = if through { j - 1 } else { j };
            if through && j == 0 {
                if take_b {
                    assert(b[0] == m[j]);
                } else {
                    assert(a[0] == m[j]);
                    if has_key(b, h.0) {
                        let q = position_of(b, h.0);
                        if q > 0 {
                            assert(key_lt(b[0].0, b[q].0));
                            lemma_lt_transitive(a[0].0, b[0].0, b[q].0);
                        }
                        lemma_lt_asymmetric(a[0].0, b[0].0);
                    }
                }
            } else {
                assert(m[j] == rest[r]);
                if exists|i: int| 0 <= i < b1.len() && b1[i] == rest[r] {
                    let i = choose|i: int| 0 <= i < b1.len() && b1[i] == rest[r];
                    if take_b {
                        assert(b[i + 1] == m[j]);
                    } else {
                        assert(b[i] == m[j]);
                    }
                } else {
                    let i = choose|i: int| 0 <= i < a1.len() && a1[i] == rest[r];
                    if take_a {
                        assert(a[i + 1] == m[j]);
                    } else {
                        assert(a[i] == m[j]);
                    }
                    assert(holds_key(rest, r, m[j].0));
                    assert(has_key(rest, m[j].0));
                    if has_key(b, m[j].0) && !has_key(b1, m[j].0) {
                        assert(m[j].0 == b[0].0);
                        assert(key_lt(h.0, m[j].0));
                    }
                }
            }
        }
    }
}

/// A walk over the entries of two maps that `pass` lets through, in
/// ascending key order.
pub struct MergeIter<'a, K: Ord, V, const N: usize> {
    pub(crate) a: Iter<'a, K, V, N>,
    pub(crate) b: Iter<'a, K, V, N>,
    pub(crate) pass: Pass,
}

impl<'a, K: Ord, V, const N: usize> MergeIter<'a, K, V, N> {
    /// Both iterators walk well-formed maps.
    pub open(crate) spec fn wf(&self) -> bool {
        &&& self.a.wf()
        &&& self.b.wf()
        &&& total_order::<K>()
        &&& ascending(self.a.remaining())
        &&& ascending(self.b.remaining())
    }

    /// The entries still to come.
    pub open(crate) spec fn remaining(&self) -> Seq<(K, V)> {
        merge(self.a.remaining(), self.b.remaining(), self.pass)
    }

    /// The walk over what is still to come of `a` and `b`.
    pub fn new(a: Iter<'a, K, V, N>, b: Iter<'a, K, V, N>, pass: Pass) -> (it: Self)
        requires
            a.wf(),
            b.wf(),
            total_order::<K>(),
            ascending(a.remaining()),
            ascending(b.remaining()),
        ensures
            it.wf(),
            it.remaining() == merge(a.remaining(), b.remaining(), pass),
    {
        MergeIter { a, b, pass }
    }

    /// The next entry that is let through.
    pub fn next(&mut self) -> (r: Option<(&'a K, &'a V)>)
        requires
            old(self).wf(),
        ensures
            final(self).wf(),
            match r {
                Some(e) => old(self).remaining().len() > 0 && (*e.0, *e.1) == old(self).remaining()[0]
                    && final(self).remaining() == old(self).remaining().skip(1),
                None => old(self).remaining().len() == 0 && final(self).remaining() == old(self).remaining(),
            },
    {
        loop
            invariant
                self.wf(),
                self.pass == old(self).pass,
                self.remaining() == old(self).remaining(),
            decreases self.a.remaining().len() + self.b.remaining().len(),
        {
            let ghost a0 = self.a.remaining();
            let ghost b0 = self.b.remaining();
            let x = self.a.peek();
            let y = self.b.peek();
            let (take_a, take_b) = match (x, y) {
                (None, None) => {
                    return None;
                },
                (Some(_), None) => (true, false),
                (None, Some(_)) => (false, true),
                (Some(ea), Some(eb)) => {
                    proof {
                        lemma_lt_total(*ea.0, *eb.0);
                        if key_lt(*ea.0, *eb.0) {
                            lemma_lt_asymmetric(*ea.0, *eb.0);
                        }
                    }
                    match compare(ea.0, eb.0) {
                        Rel::Less => (true, false),
                        Rel::Greater => (false, true),
                        Rel::Equal => (true, true),
                    }
                },
            };
            proof {
                if a0.len() > 0 {
                    lemma_skip_first(a0);
                }
                if b0.len() > 0 {
                    lemma_skip_first(b0);
                }
            }
            let mut out: Option<(&'a K, &'a V)> = None;
            if take_a {
                let e = self.a.next();
                if !take_b && self.pass.left {
                    out = e;
                }
            }
            if take_b {
                let e = self.b.next();
                if (take_a && self.pass.both) || (!take_a && self.pass.right) {
                    out = e;
                }
            }
            if out.is_some() {
                proof {
                    let m = merge(a0, b0, self.pass);
                    assert(m.skip(1) =~= self.remaining());
                }
                return out;
            }
        }
    }
}

} // verus!
