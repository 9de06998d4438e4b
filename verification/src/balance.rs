//! The arithmetic of balance: the rebalance factor 2/3, the depth that it
//! allows a tree of a given size, and how many nodes fit on so many levels.
use crate::shape::Shape;
use vstd::prelude::*;

verus! {

/// 2 to the power `n`.
pub open spec fn pow2(n: nat) -> nat
    decreases n,
{
    if n == 0 {
        1
    } else {
        2 * pow2((n - 1) as nat)
    }
}

/// 3 to the power `n`.
pub open spec fn pow3(n: nat) -> nat
    decreases n,
{
    if n == 0 {
        1
    } else {
        3 * pow3((n - 1) as nat)
    }
}

/// (3/2) to the power `k` is at most `n`.
pub open spec fn fits(k: nat, n: nat) -> bool {
    pow3(k) <= n * pow2(k)
}

/// The largest `j <= k` with `fits(j, n)`, or 0.
pub open spec fn largest_fit(n: nat, k: nat) -> nat
    decreases k,
{
    if k == 0 {
        0
    } else if fits(k, n) {
        k
    } else {
        largest_fit(n, (k - 1) as nat)
    }
}

/// The logarithm of `n` to the base 3/2, rounded down; 0 for `n == 0`.
pub open spec fn log_alpha(n: nat) -> nat {
    largest_fit(n, n)
}

/// The larger of two numbers.
pub open spec fn larger(a: nat, b: nat) -> nat {
    if a >= b {
        a
    } else {
        b
    }
}

/// The largest size on record after a removal left `n` entries in a tree
/// whose record stood at `max`: `n` itself where the tree is then rebuilt as
/// a whole, which is where `n` is at most 2/3 of `max`; else `max`.
pub open spec fn record_after_removal(max: nat, n: nat) -> nat {
    if 3 * n <= 2 * max {
        n
    } else {
        max
    }
}

/// The most levels that a tree may have whose size never passed `m` since
/// it was last rebuilt as a whole: a height of `log_alpha(m) + 1`.
pub open spec fn level_limit(m: nat) -> nat {
    log_alpha(m) + 2
}

pub proof fn lemma_pow2_positive(n: nat)
    ensures
        pow2(n) >= 1,
    decreases n,
{
    if n > 0 {
        lemma_pow2_positive((n - 1) as nat);
    }
}

pub proof fn lemma_pow3_positive(n: nat)
    ensures
        pow3(n) >= 1,
    decreases n,
{
    if n > 0 {
        lemma_pow3_positive((n - 1) as nat);
    }
}

pub proof fn lemma_pow2_add(a: nat, b: nat)
    ensures
        pow2(a + b) == pow2(a) * pow2(b),
    decreases a,
{
    if a == 0 {
        assert(pow2(0 + b) == 1 * pow2(b));
    } else {
        lemma_pow2_add((a - 1) as nat, b);
        assert(pow2(a + b) == 2 * pow2((a + b - 1) as nat));
        assert(pow2(a) == 2 * pow2((a - 1) as nat));
        assert(2 * (pow2((a - 1) as nat) * pow2(b)) == (2 * pow2((a - 1) as nat)) * pow2(b))
            by (nonlinear_arith);
    }
}

pub proof fn lemma_pow2_monotone(a: nat, b: nat)
    requires
        a <= b,
    ensures
        pow2(a) <= pow2(b),
    decreases b,
{
    if a < b {
        lemma_pow2_monotone(a, (b - 1) as nat);
    }
}

/// (3/2)^k exceeds k.
pub proof fn lemma_pow3_outgrows(k: nat)
    ensures
        pow3(k) > k * pow2(k),
    decreases k,
{
    reveal_with_fuel(pow2, 3);
    reveal_with_fuel(pow3, 3);
    let c = pow2(k);
    if k == 0 {
        assert(pow3(0) == 1);
        assert(k * c == 0) by (nonlinear_arith)
            requires
                k == 0,
        ;
    } else if k == 1 {
        assert(pow3(1) == 3 && pow2(1) == 2);
        assert(k * c == 2) by (nonlinear_arith)
            requires
                k == 1,
                c == 2,
        ;
    } else if k == 2 {
        assert(pow3(2) == 9 && pow2(2) == 4);
        assert(k * c == 8) by (nonlinear_arith)
            requires
                k == 2,
                c == 4,
        ;
    } else {
        let j = (k - 1) as nat;
        lemma_pow3_outgrows(j);
        lemma_pow2_positive(j);
        let a = pow3(j);
        let b = pow2(j);
        assert(pow3(k) == 3 * a);
        assert(pow2(k) == 2 * b);
        assert(3 * a > k * (2 * b)) by (nonlinear_arith)
            requires
                a > j * b,
                b >= 1,
                k == j + 1,
                j >= 2,
        ;
    }
}

/// What fits `k` levels up fits below.
pub proof fn lemma_fits_down(k: nat, j: nat, n: nat)
    requires
        fits(k, n),
        j <= k,
    ensures
        fits(j, n),
    decreases k - j,
{
    if j < k {
        let i = (k - 1) as nat;
        let a = pow3(i);
        let b = pow2(i);
        assert(pow3(k) == 3 * a);
        assert(pow2(k) == 2 * b);
        assert(a <= n * b) by (nonlinear_arith)
            requires
                3 * a <= n * (2 * b),
        ;
        lemma_fits_down(i, j, n);
    }
}

/// What fits a smaller size fits a larger one.
pub proof fn lemma_fits_wider(k: nat, n: nat, m: nat)
    requires
        fits(k, n),
        n <= m,
    ensures
        fits(k, m),
{
    let b = pow2(k);
    assert(n * b <= m * b) by (nonlinear_arith)
        requires
            n <= m,
    ;
}

/// (3/2)^0 is 1.
pub proof fn lemma_fits_zero(n: nat)
    requires
        n >= 1,
    ensures
        fits(0, n),
{
    assert(pow3(0) == 1);
    assert(pow2(0) == 1);
    assert(n * 1 == n);
}

proof fn lemma_largest_fit(n: nat, k: nat)
    requires
        n >= 1,
    ensures
        largest_fit(n, k) <= k,
        fits(largest_fit(n, k), n),
        forall|j: nat| largest_fit(n, k) < j <= k ==> !fits(j, n),
    decreases k,
{
    if k == 0 {
        lemma_fits_zero(n);
    } else if fits(k, n) {
    } else {
        lemma_largest_fit(n, (k - 1) as nat);
    }
}

/// `log_alpha(n)` is the largest `k` with (3/2)^k at most `n`.
pub proof fn lemma_log_alpha(n: nat)
    requires
        n >= 1,
    ensures
        fits(log_alpha(n), n),
        forall|j: nat| fits(j, n) ==> j <= log_alpha(n),
{
    lemma_largest_fit(n, n);
    assert forall|j: nat| fits(j, n) implies j <= log_alpha(n) by {
        lemma_pow3_outgrows(j);
        let b = pow2(j);
        lemma_pow2_positive(j);
        assert(j <= n) by (nonlinear_arith)
            requires
                j * b < n * b,
                b >= 1,
        ;
    }
}

/// A larger size allows at least the depth of a smaller one.
pub proof fn lemma_log_alpha_monotone(a: nat, b: nat)
    requires
        a <= b,
    ensures
        log_alpha(a) <= log_alpha(b),
        level_limit(a) <= level_limit(b),
{
    if a >= 1 {
        lemma_log_alpha(a);
        lemma_log_alpha(b);
        lemma_fits_wider(log_alpha(a), a, b);
    }
}

/// A tree has fewer nodes than 2 to the power of its levels.
pub proof fn lemma_size_below_pow2(sh: Shape)
    ensures
        sh.size() < pow2(sh.levels()),
    decreases sh,
{
    match sh {
        Shape::Leaf => {},
        Shape::Bin { left, idx, right } => {
            lemma_size_below_pow2(*left);
            lemma_size_below_pow2(*right);
            let h = (sh.levels() - 1) as nat;
            lemma_pow2_monotone(left.levels(), h);
            lemma_pow2_monotone(right.levels(), h);
        },
    }
}

/// The fewest levels that hold `n` nodes: the number of binary digits of `n`.
pub open spec fn digits(n: nat) -> nat
    decreases n,
{
    if n == 0 {
        0
    } else {
        1 + digits(n / 2)
    }
}

/// A smaller number has no more binary digits.
pub proof fn lemma_digits_monotone(a: nat, b: nat)
    requires
        a <= b,
    ensures
        digits(a) <= digits(b),
    decreases b,
{
    if a > 0 {
        lemma_digits_monotone(a / 2, b / 2);
    }
}

/// A number below 2 to the power `l` has at most `l` binary digits.
pub proof fn lemma_digits_below(n: nat, l: nat)
    requires
        n < pow2(l),
    ensures
        digits(n) <= l,
    decreases n,
{
    if n > 0 {
        assert(l > 0);
        assert(pow2(l) == 2 * pow2((l - 1) as nat));
        lemma_digits_below(n / 2, (l - 1) as nat);
    }
}

/// `n` is below 2 to the power of its number of digits, and a tree on so many
/// levels stays within the limit of its own size.
pub proof fn lemma_digits(n: nat)
    ensures
        n < pow2(digits(n)),
        n >= 1 ==> pow2((digits(n) - 1) as nat) <= n,
        digits(n) <= level_limit(n),
    decreases n,
{
    if n >= 1 {
        lemma_digits(n / 2);
        let d = (digits(n) - 1) as nat;
        assert(pow2(d) <= n) by {
            if n / 2 >= 1 {
                assert(pow2(d) == 2 * pow2((d - 1) as nat));
            }
        }
        // 3^d <= 4^d <= n * 2^d
        lemma_pow3_below_square(d);
        let b = pow2(d);
        assert(b * b <= n * b) by (nonlinear_arith)
            requires
                b <= n,
        ;
        assert(fits(d, n));
        lemma_log_alpha(n);
    }
}

proof fn lemma_pow3_below_square(d: nat)
    ensures
        pow3(d) <= pow2(d) * pow2(d),
    decreases d,
{
    if d == 0 {
        assert(pow3(0) == 1 && pow2(0) == 1);
    } else {
        let j = (d - 1) as nat;
        lemma_pow3_below_square(j);
        let a = pow3(j);
        let b = pow2(j);
        assert(pow3(d) == 3 * a);
        assert(pow2(d) == 2 * b);
        assert(3 * a <= (2 * b) * (2 * b)) by (nonlinear_arith)
            requires
                a <= b * b,
        ;
    }
}

proof fn lemma_nine_above_eight(m: nat)
    ensures
        pow3(2 * m) >= pow2(3 * m),
    decreases m,
{
    if m > 0 {
        let j = (m - 1) as nat;
        lemma_nine_above_eight(j);
        assert(pow3(2 * m) == 3 * pow3((2 * m - 1) as nat));
        assert(pow3((2 * m - 1) as nat) == 3 * pow3(2 * j));
        assert(pow2(3 * m) == 2 * pow2((3 * m - 1) as nat));
        assert(pow2((3 * m - 1) as nat) == 2 * pow2((3 * m - 2) as nat));
        assert(pow2((3 * m - 2) as nat) == 2 * pow2(3 * j));
    }
}

proof fn lemma_pow2_values()
    ensures
        pow2(32) == 0x1_0000_0000,
        pow2(64) == 0x1_0000_0000_0000_0000,
        pow2(96) == 0x1_0000_0000_0000_0000_0000_0000,
{
    assert(pow2(8) == 256) by {
        reveal_with_fuel(pow2, 9);
    }
    lemma_pow2_add(8, 8);
    assert(pow2(16) == 0x1_0000);
    lemma_pow2_add(16, 16);
    assert(pow2(32) == 0x1_0000_0000);
    lemma_pow2_add(32, 32);
    assert(pow2(64) == 0x1_0000_0000_0000_0000);
    lemma_pow2_add(64, 32);
}

/// No size that an index of 32 bits can count allows a depth of 64.
proof fn lemma_fits_small(k: nat, n: nat)
    requires
        fits(k, n),
        n <= u32::MAX,
    ensures
        k < 64,
        pow2(k) <= 0x8000_0000_0000_0000,
{
    lemma_pow2_values();
    if k >= 64 {
        lemma_fits_down(k, 64, n);
        lemma_nine_above_eight(32);
        assert(n * 0x1_0000_0000_0000_0000 < 0x1_0000_0000_0000_0000_0000_0000) by (nonlinear_arith)
            requires
                n <= 0xffff_ffff,
        ;
    }
    lemma_pow2_monotone(k, 63);
    assert(pow2(64) == 2 * pow2(63));
}

/// Whether a node at depth `depth` is too deep for a tree of `n` nodes: deeper
/// than the logarithm of `n` to the base 3/2, rounded down, plus one.
pub fn too_deep(depth: usize, n: usize) -> (r: bool)
    requires
        1 <= n <= u32::MAX,
    ensures
        r == (depth > log_alpha(n as nat) + 1),
{
    proof {
        lemma_log_alpha(n as nat);
    }
    if depth <= 1 {
        return false;
    }
    let k: usize = depth - 1;
    let mut i: usize = 0;
    let mut p: u128 = 1;
    let mut q: u128 = n as u128;
    proof {
        lemma_fits_zero(n as nat);
        assert(pow2(0) == 1 && pow3(0) == 1);
        assert(n * pow2(0) == n) by (nonlinear_arith)
            requires
                pow2(0) == 1,
        ;
    }
    while i < k
        invariant
            i <= k,
            1 <= n <= u32::MAX,
            p == pow3(i as nat),
            q == n * pow2(i as nat),
            fits(i as nat, n as nat),
            fits(log_alpha(n as nat), n as nat),
            forall|j: nat| fits(j, n as nat) ==> j <= log_alpha(n as nat),
            k == depth - 1,
        decreases k - i,
    {
        proof {
            lemma_fits_small(i as nat, n as nat);
            let b = pow2(i as nat);
            assert(n * b <= 0xffff_ffff * 0x8000_0000_0000_0000) by (nonlinear_arith)
                requires
                    n <= 0xffff_ffff,
                    b <= 0x8000_0000_0000_0000,
            ;
            assert(n * (2 * b) == 2 * (n * b)) by (nonlinear_arith);
            assert(pow2((i + 1) as nat) == 2 * b);
            assert(pow3((i + 1) as nat) == 3 * pow3(i as nat));
        }
        let tripled: u128 = 3 * p;
        let doubled: u128 = 2 * q;
        if tripled > doubled {
            proof {
                assert(!fits((i + 1) as nat, n as nat));
                if fits(k as nat, n as nat) {
                    lemma_fits_down(k as nat, (i + 1) as nat, n as nat);
                }
                assert(k > log_alpha(n as nat)) by {
                    if k <= log_alpha(n as nat) {
                        lemma_fits_down(log_alpha(n as nat), k as nat, n as nat);
                    }
                }
            }
            return true;
        }
        p = tripled;
        q = doubled;
        i = i + 1;
    }
    false
}

} // verus!
