//! The total order on keys that the tree relies on, stated over `Ord`.
use core::cmp::Ordering;
use vstd::prelude::*;
use vstd::std_specs::cmp::OrdSpec;

verus! {

/// `a` is strictly below `b` in the key order.
pub open spec fn key_lt<K: Ord>(a: K, b: K) -> bool {
    a.cmp_spec(&b) == Ordering::Less
}

/// `a` is below or equal to `b` in the key order.
pub open spec fn key_le<K: Ord>(a: K, b: K) -> bool {
    key_lt(a, b) || a == b
}

/// `K::cmp` is a strict total order whose `Equal` is equality of values.
#[verifier::opaque]
pub open spec fn total_order<K: Ord>() -> bool {
    &&& K::obeys_cmp_spec()
    &&& forall|a: K, b: K| #[trigger] a.cmp_spec(&b) == Ordering::Equal <==> a == b
    &&& forall|a: K, b: K| #[trigger]
        a.cmp_spec(&b) == Ordering::Greater <==> b.cmp_spec(&a) == Ordering::Less
    &&& forall|a: K, b: K, c: K|
        a.cmp_spec(&b) == Ordering::Less && #[trigger] b.cmp_spec(&c) == Ordering::Less
            ==> #[trigger] a.cmp_spec(&c) == Ordering::Less
}

/// The outcome of comparing two keys.
pub enum Rel {
    Less,
    Equal,
    Greater,
}

/// The relation in which `a` stands to `b`.
pub open spec fn rel_of<K: Ord>(a: K, b: K) -> Rel {
    if key_lt(a, b) {
        Rel::Less
    } else if a == b {
        Rel::Equal
    } else {
        Rel::Greater
    }
}

/// Compares two keys.
pub fn compare<K: Ord>(a: &K, b: &K) -> (r: Rel)
    requires
        total_order::<K>(),
    ensures
        r == rel_of(*a, *b),
        r is Greater ==> key_lt(*b, *a),
{
    reveal(total_order);
    match a.cmp(b) {
        Ordering::Less => Rel::Less,
        Ordering::Equal => Rel::Equal,
        Ordering::Greater => Rel::Greater,
    }
}

/// No key is below itself.
pub proof fn lemma_lt_irreflexive<K: Ord>(a: K)
    requires
        total_order::<K>(),
    ensures
        !key_lt(a, a),
{
    reveal(total_order);
    assert(a.cmp_spec(&a) == Ordering::Equal);
}

/// The order is transitive.
pub proof fn lemma_lt_transitive<K: Ord>(a: K, b: K, c: K)
    requires
        total_order::<K>(),
        key_lt(a, b),
        key_lt(b, c),
    ensures
        key_lt(a, c),
{
    reveal(total_order);
}

/// Two keys cannot be below one another.
pub proof fn lemma_lt_asymmetric<K: Ord>(a: K, b: K)
    requires
        total_order::<K>(),
        key_lt(a, b),
    ensures
        !key_lt(b, a),
        a != b,
{
    reveal(total_order);
    if key_lt(b, a) {
        assert(a.cmp_spec(&b) == Ordering::Greater);
    }
    if a == b {
        assert(a.cmp_spec(&b) == Ordering::Equal);
    }
}

/// Of two keys, exactly one is below the other unless they are equal.
pub proof fn lemma_lt_total<K: Ord>(a: K, b: K)
    requires
        total_order::<K>(),
    ensures
        key_lt(a, b) || a == b || key_lt(b, a),
{
    reveal(total_order);
    match a.cmp_spec(&b) {
        Ordering::Less => {},
        Ordering::Equal => {},
        Ordering::Greater => {},
    }
}

/// `lt` followed by `le` gives `lt`.
pub proof fn lemma_lt_le<K: Ord>(a: K, b: K, c: K)
    requires
        total_order::<K>(),
        key_lt(a, b),
        key_le(b, c),
    ensures
        key_lt(a, c),
{
    if b != c {
        lemma_lt_transitive(a, b, c);
    }
}

/// The unsigned and signed machine integers are totally ordered.
pub proof fn lemma_integers_total_order()
    ensures
        total_order::<u8>(),
        total_order::<u16>(),
        total_order::<u32>(),
        total_order::<u64>(),
        total_order::<u128>(),
        total_order::<usize>(),
        total_order::<i8>(),
        total_order::<i16>(),
        total_order::<i32>(),
        total_order::<i64>(),
        total_order::<i128>(),
        total_order::<isize>(),
{
    reveal(total_order);
}

} // verus!
