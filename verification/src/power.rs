//! Powers of two, and comparisons between multiples of them.

use vstd::arithmetic::power2::*;
use vstd::prelude::*;

verus! {

/// Powers of two grow with the exponent.
pub proof fn lemma_pow2_monotonic(e1: nat, e2: nat)
    requires
        e1 <= e2,
    ensures
        0 < pow2(e1) <= pow2(e2),
{
    lemma_pow2_pos(e1);
    if e1 < e2 {
        lemma_pow2_strictly_increases(e1, e2);
    }
}

/// `2^(e1 + e2) == 2^e1 * 2^e2`, with both factors positive.
pub proof fn lemma_pow2_sum(e1: nat, e2: nat)
    ensures
        pow2(e1 + e2) == pow2(e1) * pow2(e2),
        pow2(e1) > 0,
        pow2(e2) > 0,
{
    lemma_pow2_adds(e1, e2);
    lemma_pow2_pos(e1);
    lemma_pow2_pos(e2);
}

/// Every natural number lies below the power of two of its own size.
pub proof fn lemma_below_own_power(n: nat)
    ensures
        n < pow2(n),
    decreases n,
{
    lemma2_to64();
    if n > 0 {
        lemma_below_own_power((n - 1) as nat);
        lemma_pow2_unfold(n);
    }
}

/// The value of `2^127`, the greatest power of two that a `u128` holds.
pub proof fn lemma_pow2_127()
    ensures
        pow2(127) == 0x8000_0000_0000_0000_0000_0000_0000_0000,
{
    lemma2_to64();
    lemma2_to64_rest();
    lemma_pow2_sum(64, 63);
    assert(pow2(64) * pow2(63) == 0x8000_0000_0000_0000_0000_0000_0000_0000) by (nonlinear_arith)
        requires
            pow2(64) == 0x1_0000_0000_0000_0000,
            pow2(63) == 0x8000_0000_0000_0000,
    ;
}

/// Powers of two with an exponent below 128 fit in a `u128`.
pub proof fn lemma_pow2_bound(e: nat)
    requires
        e < 128,
    ensures
        pow2(e) <= 0x8000_0000_0000_0000_0000_0000_0000_0000,
{
    lemma_pow2_127();
    lemma_pow2_monotonic(e, 127);
}

/// `a * 2^p < b * 2^q`, stated over naturals.
pub open spec fn scaled_lt(a: nat, p: int, b: nat, q: int) -> bool {
    if p >= q {
        a * pow2((p - q) as nat) < b
    } else {
        a < b * pow2((q - p) as nat)
    }
}

/// A magnitude below `2^q` is below every larger power of two.
pub proof fn lemma_scaled_lt_monotonic(a: nat, p: int, b: nat, q: int, q2: int)
    requires
        scaled_lt(a, p, b, q),
        q <= q2,
    ensures
        scaled_lt(a, p, b, q2),
{
    if p >= q2 {
        lemma_pow2_monotonic((p - q2) as nat, (p - q) as nat);
        let x = pow2((p - q2) as nat);
        let y = pow2((p - q) as nat);
        assert(a * x <= a * y) by (nonlinear_arith)
            requires
                x <= y,
        ;
    } else if p >= q {
        lemma_pow2_pos((p - q) as nat);
        lemma_pow2_pos((q2 - p) as nat);
        let x = pow2((p - q) as nat);
        let y = pow2((q2 - p) as nat);
        assert(a <= a * x) by (nonlinear_arith)
            requires
                x >= 1,
        ;
        assert(b <= b * y) by (nonlinear_arith)
            requires
                y >= 1,
        ;
    } else {
        lemma_pow2_monotonic((q - p) as nat, (q2 - p) as nat);
        let x = pow2((q - p) as nat);
        let y = pow2((q2 - p) as nat);
        assert(b * x <= b * y) by (nonlinear_arith)
            requires
                x <= y,
        ;
    }
}

/// Only the difference of the two exponents matters to the comparison.
pub proof fn lemma_scaled_lt_offset(a: nat, p: int, b: nat, q: int, offset: int)
    ensures
        scaled_lt(a, p + offset, b, q + offset) == scaled_lt(a, p, b, q),
{
}

/// Multiplying the left side by `2^j` and raising the right exponent by `j`
/// leaves the comparison as it was.
pub proof fn lemma_scaled_lt_shift(a: nat, p: int, b: nat, q: int, j: nat)
    ensures
        scaled_lt(a * pow2(j), p, b, q + j) == scaled_lt(a, p, b, q),
{
    lemma_pow2_pos(j);
    let t = pow2(j);
    if p >= q + j {
        // a*t*2^(p-q-j) < b  <==>  a*2^(p-q) < b
        lemma_pow2_sum(j, (p - q - j) as nat);
        let u = pow2((p - q - j) as nat);
        assert(pow2((p - q) as nat) == t * u);
        assert((a * t) * u == a * (t * u)) by (nonlinear_arith);
    } else if p >= q {
        // a*t < b*2^(q+j-p)  <==>  a*2^(p-q) < b ; with t = 2^(p-q) * 2^(q+j-p)
        lemma_pow2_sum((p - q) as nat, (q + j - p) as nat);
        let u = pow2((p - q) as nat);
        let w = pow2((q + j - p) as nat);
        assert(t == u * w);
        assert(a * t == (a * u) * w) by (nonlinear_arith)
            requires
                t == u * w,
        ;
        assert(((a * u) * w < b * w) == (a * u < b)) by (nonlinear_arith)
            requires
                w > 0,
        ;
    } else {
        // a*t < b*2^(q+j-p)  <==>  a < b*2^(q-p)
        lemma_pow2_sum((q - p) as nat, j);
        let u = pow2((q - p) as nat);
        assert(pow2((q + j - p) as nat) == u * t);
        assert(b * (u * t) == (b * u) * t) by (nonlinear_arith);
        assert((a * t < (b * u) * t) == (a < b * u)) by (nonlinear_arith)
            requires
                t > 0,
        ;
    }
}

} // verus!
