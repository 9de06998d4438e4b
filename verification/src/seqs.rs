//! Sequences cut in three: a left part, a middle element and a right part;
//! and sequences without a repeated element.
use vstd::prelude::*;

verus! {

/// Putting `x` into the left part of `l, m, r`.
pub proof fn lemma_insert_left<T>(l: Seq<T>, m: T, r: Seq<T>, p: int, x: T)
    requires
        0 <= p <= l.len(),
    ensures
        l.insert(p, x).push(m) + r == (l.push(m) + r).insert(p, x),
{
    assert(l.insert(p, x).push(m) + r =~= (l.push(m) + r).insert(p, x));
}

/// Putting `x` into the right part of `l, m, r`.
pub proof fn lemma_insert_right<T>(l: Seq<T>, m: T, r: Seq<T>, p: int, x: T)
    requires
        0 <= p <= r.len(),
    ensures
        l.push(m) + r.insert(p, x) == (l.push(m) + r).insert(l.len() + 1 + p, x),
{
    assert(l.push(m) + r.insert(p, x) =~= (l.push(m) + r).insert(l.len() + 1 + p, x));
}

/// Replacing position `p` of the left part of `l, m, r`.
pub proof fn lemma_update_left<T>(l: Seq<T>, m: T, r: Seq<T>, p: int, x: T)
    requires
        0 <= p < l.len(),
    ensures
        l.update(p, x).push(m) + r == (l.push(m) + r).update(p, x),
{
    assert(l.update(p, x).push(m) + r =~= (l.push(m) + r).update(p, x));
}

/// Replacing position `p` of the right part of `l, m, r`.
pub proof fn lemma_update_right<T>(l: Seq<T>, m: T, r: Seq<T>, p: int, x: T)
    requires
        0 <= p < r.len(),
    ensures
        l.push(m) + r.update(p, x) == (l.push(m) + r).update(l.len() + 1 + p, x),
{
    assert(l.push(m) + r.update(p, x) =~= (l.push(m) + r).update(l.len() + 1 + p, x));
}

/// Taking position `p` out of the left part of `l, m, r`.
pub proof fn lemma_remove_left<T>(l: Seq<T>, m: T, r: Seq<T>, p: int)
    requires
        0 <= p < l.len(),
    ensures
        l.remove(p).push(m) + r == (l.push(m) + r).remove(p),
{
    assert(l.remove(p).push(m) + r =~= (l.push(m) + r).remove(p));
}

/// Taking position `p` out of the right part of `l, m, r`.
pub proof fn lemma_remove_right<T>(l: Seq<T>, m: T, r: Seq<T>, p: int)
    requires
        0 <= p < r.len(),
    ensures
        l.push(m) + r.remove(p) == (l.push(m) + r).remove(l.len() + 1 + p),
{
    assert(l.push(m) + r.remove(p) =~= (l.push(m) + r).remove(l.len() + 1 + p));
}

/// A sequence without a repeated element stays so when an element that it
/// lacks is put in.
pub proof fn lemma_insert_fresh<T>(s: Seq<T>, p: int, x: T)
    requires
        s.no_duplicates(),
        !s.contains(x),
        0 <= p <= s.len(),
    ensures
        s.insert(p, x).no_duplicates(),
        forall|y: T| s.insert(p, x).contains(y) <==> (y == x || s.contains(y)),
{
    let t = s.insert(p, x);
    assert forall|i: int, j: int| 0 <= i < t.len() && 0 <= j < t.len() && i != j implies t[i] != t[j] by {
        let i0 = if i < p { i } else { i - 1 };
        let j0 = if j < p { j } else { j - 1 };
        if i != p {
            assert(t[i] == s[i0]);
            assert(s.contains(s[i0]));
        }
        if j != p {
            assert(t[j] == s[j0]);
            assert(s.contains(s[j0]));
        }
    }
    assert forall|y: T| t.contains(y) <==> (y == x || s.contains(y)) by {
        if t.contains(y) {
            let i = choose|i: int| 0 <= i < t.len() && t[i] == y;
            if i < p {
                assert(s[i] == y);
            } else if i > p {
                assert(s[i - 1] == y);
            }
        }
        if y == x {
            assert(t[p] == x);
        }
        if s.contains(y) {
            let i = choose|i: int| 0 <= i < s.len() && s[i] == y;
            if i < p {
                assert(t[i] == y);
            } else {
                assert(t[i + 1] == y);
            }
        }
    }
}

/// A sequence without a repeated element stays so when a position is taken
/// out, and no longer holds what stood there.
pub proof fn lemma_remove_distinct<T>(s: Seq<T>, p: int)
    requires
        s.no_duplicates(),
        0 <= p < s.len(),
    ensures
        s.remove(p).no_duplicates(),
        forall|y: T| s.remove(p).contains(y) <==> (y != s[p] && s.contains(y)),
{
    let t = s.remove(p);
    assert forall|i: int, j: int| 0 <= i < t.len() && 0 <= j < t.len() && i != j implies t[i] != t[j] by {
        let i0 = if i < p { i } else { i + 1 };
        let j0 = if j < p { j } else { j + 1 };
        assert(t[i] == s[i0] && t[j] == s[j0]);
    }
    assert forall|y: T| t.contains(y) <==> (y != s[p] && s.contains(y)) by {
        if t.contains(y) {
            let i = choose|i: int| 0 <= i < t.len() && t[i] == y;
            let i0 = if i < p { i } else { i + 1 };
            assert(s[i0] == y);
        }
        if y != s[p] && s.contains(y) {
            let i = choose|i: int| 0 <= i < s.len() && s[i] == y;
            if i < p {
                assert(t[i] == y);
            } else {
                assert(t[i - 1] == y);
            }
        }
    }
}

} // verus!
