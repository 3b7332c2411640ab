//! The values of binary32, and rounding to nearest of exact rational
//! magnitudes: the definition that the arithmetic is verified against.

use crate::power::{
    lemma_below_own_power, lemma_pow2_monotonic, lemma_pow2_sum, lemma_scaled_lt_monotonic,
    lemma_scaled_lt_offset, lemma_scaled_lt_shift, scaled_lt,
};
use vstd::arithmetic::div_mod::{lemma_fundamental_div_mod, lemma_fundamental_div_mod_converse};
use vstd::arithmetic::power2::*;
use vstd::prelude::*;

verus! {

/// What a binary32 datum stands for. A finite value is
/// `significand * 2^exponent`, negated where `negative` is set.
pub enum Value {
    Nan,
    Infinite { negative: bool },
    Finite { negative: bool, significand: nat, exponent: int },
}

/// The least exponent of a binary32 significand's unit: that of the subnormals.
pub const MIN_EXPONENT: i32 = -149;

/// The greatest exponent of a finite binary32 significand's unit.
pub const MAX_EXPONENT: i32 = 104;

/// The least significand of a normal number: `2^23`.
pub const HIDDEN_BIT: u32 = 0x80_0000;

/// True for the one way each finite binary32 number is written: a
/// significand of at most 24 bits that has its top bit set unless the
/// exponent is the least one.
pub open spec fn canonical(significand: nat, exponent: int) -> bool {
    &&& MIN_EXPONENT <= exponent <= MAX_EXPONENT
    &&& significand < 2 * HIDDEN_BIT
    &&& exponent > MIN_EXPONENT ==> significand >= HIDDEN_BIT
}

impl Value {
    /// True for NaN, the infinities and the canonical finite values.
    pub open spec fn well_formed(self) -> bool {
        match self {
            Value::Finite { significand, exponent, .. } => canonical(significand, exponent),
            _ => true,
        }
    }

    /// True for a finite value of magnitude zero.
    pub open spec fn is_zero(self) -> bool {
        self matches Value::Finite { significand, .. } && significand == 0
    }
}

/// True when `exponent` is the exponent that a binary32 significand takes for
/// the positive magnitude `num / den * 2^exp`: the magnitude lies below
/// `2^(exponent + 24)`, and not below `2^(exponent + 23)` unless `exponent`
/// is the least one.
pub open spec fn is_ulp_exponent(num: nat, den: nat, exp: int, exponent: int) -> bool {
    &&& exponent >= MIN_EXPONENT
    &&& scaled_lt(num, exp, den, exponent + 24)
    &&& exponent > MIN_EXPONENT ==> !scaled_lt(num, exp, den, exponent + 23)
}

/// The exponent that a binary32 significand takes for `num / den * 2^exp`.
pub open spec fn ulp_exponent(num: nat, den: nat, exp: int) -> int {
    choose|exponent: int| is_ulp_exponent(num, den, exp, exponent)
}

/// The numerator of `num / den * 2^exp / 2^exponent` as a fraction of naturals.
pub open spec fn scaled_num(num: nat, exp: int, exponent: int) -> nat {
    if exp >= exponent {
        num * pow2((exp - exponent) as nat)
    } else {
        num
    }
}

/// The denominator that goes with `scaled_num`.
pub open spec fn scaled_den(den: nat, exp: int, exponent: int) -> nat {
    if exp >= exponent {
        den
    } else {
        den * pow2((exponent - exp) as nat)
    }
}

/// The integer nearest to `a / b`; of two equally near, the even one.
pub open spec fn nearest_even(a: nat, b: nat) -> nat
    recommends
        b > 0,
{
    let q = a / b;
    let r = a % b;
    if 2 * r < b {
        q
    } else if 2 * r > b {
        q + 1
    } else if q % 2 == 0 {
        q
    } else {
        q + 1
    }
}

/// The value with the given sign, significand and exponent, or the infinity
/// of that sign where the exponent is beyond the finite range.
pub open spec fn finite_or_infinite(negative: bool, significand: nat, exponent: int) -> Value {
    if exponent > MAX_EXPONENT {
        Value::Infinite { negative }
    } else {
        Value::Finite { negative, significand, exponent }
    }
}

/// Round to nearest, ties to even: the binary32 value nearest to
/// `num / den * 2^exp`, with the given sign. The magnitude is divided by the
/// unit of its significand and rounded to an integer; a significand that
/// rounds up to `2^24` moves to the next exponent; an exponent beyond the
/// finite range gives infinity.
pub open spec fn round(negative: bool, num: nat, den: nat, exp: int) -> Value
    recommends
        den > 0,
{
    if num == 0 {
        Value::Finite { negative, significand: 0, exponent: MIN_EXPONENT as int }
    } else {
        let exponent = ulp_exponent(num, den, exp);
        let n = nearest_even(scaled_num(num, exp, exponent), scaled_den(den, exp, exponent));
        if n == 2 * HIDDEN_BIT {
            finite_or_infinite(negative, HIDDEN_BIT as nat, exponent + 1)
        } else {
            finite_or_infinite(negative, n, exponent)
        }
    }
}

/// At most one exponent is the unit exponent of a magnitude.
pub proof fn lemma_ulp_exponent_unique(num: nat, den: nat, exp: int, e1: int, e2: int)
    requires
        is_ulp_exponent(num, den, exp, e1),
        is_ulp_exponent(num, den, exp, e2),
    ensures
        e1 == e2,
{
    if e1 < e2 {
        lemma_scaled_lt_monotonic(num, exp, den, e1 + 24, e2 + 23);
    } else if e2 < e1 {
        lemma_scaled_lt_monotonic(num, exp, den, e2 + 24, e1 + 23);
    }
}

/// An exponent that meets the definition is the one `ulp_exponent` names.
pub proof fn lemma_ulp_exponent_is(num: nat, den: nat, exp: int, exponent: int)
    requires
        is_ulp_exponent(num, den, exp, exponent),
    ensures
        ulp_exponent(num, den, exp) == exponent,
{
    lemma_ulp_exponent_unique(num, den, exp, ulp_exponent(num, den, exp), exponent);
}

/// From an exponent whose range lies above the magnitude, a search downwards
/// finds the unit exponent.
proof fn lemma_ulp_exponent_search(num: nat, den: nat, exp: int, start: int)
    requires
        start >= MIN_EXPONENT,
        scaled_lt(num, exp, den, start + 24),
    ensures
        exists|e: int| is_ulp_exponent(num, den, exp, e),
    decreases start - MIN_EXPONENT,
{
    if start == MIN_EXPONENT || !scaled_lt(num, exp, den, start + 23) {
        assert(is_ulp_exponent(num, den, exp, start));
    } else {
        lemma_ulp_exponent_search(num, den, exp, start - 1);
    }
}

/// Every positive magnitude has a unit exponent, and `ulp_exponent` names it.
pub proof fn lemma_ulp_exponent_exists(num: nat, den: nat, exp: int)
    requires
        den > 0,
    ensures
        is_ulp_exponent(num, den, exp, ulp_exponent(num, den, exp)),
{
    lemma_below_own_power(num);
    let top = exp + num + 1;
    assert(num < den * pow2((num + 1) as nat)) by {
        lemma_pow2_monotonic(num, num + 1);
        let t = pow2((num + 1) as nat);
        assert(t <= den * t) by (nonlinear_arith)
            requires
                den >= 1,
                t >= 0,
        ;
    }
    assert(scaled_lt(num, exp, den, top));
    let start = if top - 24 >= MIN_EXPONENT {
        top - 24
    } else {
        MIN_EXPONENT as int
    };
    lemma_scaled_lt_monotonic(num, exp, den, top, start + 24);
    lemma_ulp_exponent_search(num, den, exp, start);
}

/// Comparing a magnitude with `2^(exponent + j)` is comparing its quotient by
/// `2^exponent`, as a fraction, with `2^j`.
pub proof fn lemma_scaled_quotient(num: nat, exp: int, den: nat, exponent: int, j: nat)
    ensures
        scaled_lt(num, exp, den, exponent + j) == (scaled_num(num, exp, exponent) < scaled_den(
            den,
            exp,
            exponent,
        ) * pow2(j)),
{
    let t = pow2(j);
    lemma_pow2_pos(j);
    if exp >= exponent + j {
        let u = pow2((exp - exponent - j) as nat);
        lemma_pow2_sum((exp - exponent - j) as nat, j);
        assert(pow2((exp - exponent) as nat) == u * t);
        assert((num * (u * t) < den * t) == (num * u < den)) by (nonlinear_arith)
            requires
                t > 0,
        ;
    } else if exp >= exponent {
        let u = pow2((exp - exponent) as nat);
        let w = pow2((exponent + j - exp) as nat);
        lemma_pow2_sum((exp - exponent) as nat, (exponent + j - exp) as nat);
        assert(t == u * w);
        assert((num * u < den * (u * w)) == (num < den * w)) by (nonlinear_arith)
            requires
                u > 0,
        ;
    } else {
        let u = pow2((exponent - exp) as nat);
        lemma_pow2_sum((exponent - exp) as nat, j);
        assert(pow2((exponent + j - exp) as nat) == u * t);
        assert(den * (u * t) == (den * u) * t) by (nonlinear_arith);
    }
}

/// What rounding gives is well formed, whatever the magnitude.
pub proof fn lemma_round_well_formed(negative: bool, num: nat, den: nat, exp: int)
    requires
        den > 0,
    ensures
        round(negative, num, den, exp).well_formed(),
{
    if num != 0 {
        let e = ulp_exponent(num, den, exp);
        lemma_ulp_exponent_exists(num, den, exp);
        let a = scaled_num(num, exp, e);
        let b = scaled_den(den, exp, e);
        lemma_scaled_quotient(num, exp, den, e, 24);
        lemma_scaled_quotient(num, exp, den, e, 23);
        lemma2_to64();
        if exp < e {
            lemma_pow2_pos((e - exp) as nat);
            assert(b > 0) by (nonlinear_arith)
                requires
                    b == den * pow2((e - exp) as nat),
                    den > 0,
                    pow2((e - exp) as nat) > 0,
            ;
        }
        lemma_fundamental_div_mod(a as int, b as int);
        let q = a / b;
        let r = a % b;
        assert(q < 0x100_0000) by (nonlinear_arith)
            requires
                a == b * q + r,
                a < b * 0x100_0000,
                b > 0,
                r >= 0,
        ;
        if e > MIN_EXPONENT {
            assert(q >= 0x80_0000) by (nonlinear_arith)
                requires
                    a == b * q + r,
                    a >= b * 0x80_0000,
                    b > 0,
                    r < b,
            ;
        }
    }
}

/// The distance between two integers.
pub open spec fn distance(x: int, y: int) -> int {
    if x >= y {
        x - y
    } else {
        y - x
    }
}

/// `nearest_even(a, b)` is an integer nearest to `a / b`: no multiple of `b`
/// lies nearer to `a` than its own, and where another lies as near, it is the
/// even one of the two.
pub proof fn lemma_nearest_even_is_nearest(a: nat, b: nat, k: int)
    requires
        b > 0,
    ensures
        ({
            let n = nearest_even(a, b) as int;
            &&& distance(a as int, n * b) <= distance(a as int, k * b)
            &&& 2 * distance(a as int, n * b) <= b
            &&& k != n && distance(a as int, n * b) == distance(a as int, k * b) ==> n % 2 == 0
        }),
{
    let q = (a / b) as int;
    let r = (a % b) as int;
    let n = nearest_even(a, b) as int;
    let bb = b as int;
    lemma_fundamental_div_mod(a as int, bb);
    let at_q = q * bb;
    let at_n = n * bb;
    let at_k = k * bb;
    assert(a == at_q + r) by (nonlinear_arith)
        requires
            a == bb * q + r,
            at_q == q * bb,
    ;
    assert(at_n == at_q + (n - q) * bb && (n == q ==> at_n == at_q) && (n == q + 1 ==> at_n
        == at_q + bb)) by (nonlinear_arith)
        requires
            at_n == n * bb,
            at_q == q * bb,
    ;
    assert((k <= q ==> at_k <= at_q) && (k < q ==> at_k <= at_q - bb) && (k > q ==> at_k >= at_q
        + bb) && (k > q + 1 ==> at_k >= at_q + 2 * bb) && (k == q ==> at_k == at_q) && (k == q
        + 1 ==> at_k == at_q + bb)) by (nonlinear_arith)
        requires
            at_k == k * bb,
            at_q == q * bb,
            bb > 0,
    ;
}

/// A common factor of the two terms of a fraction does not change the
/// integer nearest to it.
pub proof fn lemma_nearest_even_common_factor(a: nat, b: nat, c: nat)
    requires
        b > 0,
        c > 0,
    ensures
        nearest_even(a * c, b * c) == nearest_even(a, b),
{
    let q = a / b;
    let r = a % b;
    lemma_fundamental_div_mod(a as int, b as int);
    assert(a * c == q * (b * c) + r * c) by (nonlinear_arith)
        requires
            a == b * q + r,
    ;
    assert(0 <= r * c < b * c) by (nonlinear_arith)
        requires
            0 <= r < b,
            c > 0,
    ;
    assert(b * c > 0) by (nonlinear_arith)
        requires
            b > 0,
            c > 0,
    ;
    lemma_fundamental_div_mod_converse((a * c) as int, (b * c) as int, q as int, (r * c) as int);
    assert((2 * (r * c) < b * c) == (2 * r < b)) by (nonlinear_arith)
        requires
            c > 0,
    ;
    assert((2 * (r * c) > b * c) == (2 * r > b)) by (nonlinear_arith)
        requires
            c > 0,
    ;
}

/// A power of two may move between the numerator and the exponent.
pub proof fn lemma_round_scaled(negative: bool, num: nat, den: nat, exp: int, j: nat)
    requires
        den > 0,
    ensures
        round(negative, num * pow2(j), den, exp) == round(negative, num, den, exp + j),
{
    let t = pow2(j);
    lemma_pow2_pos(j);
    let wide = num * t;
    assert(wide == 0 <==> num == 0) by (nonlinear_arith)
        requires
            wide == num * t,
            t > 0,
    ;
    if num != 0 {
        let e = ulp_exponent(num, den, exp + j);
        lemma_ulp_exponent_exists(num, den, exp + j);
        assert forall|k: int|
            scaled_lt(wide, exp, den, k) == scaled_lt(num, exp + j, den, k) by {
            lemma_scaled_lt_shift(num, exp, den, k - j, j);
            lemma_scaled_lt_offset(num, exp, den, k - j, j as int);
        }
        assert forall|k: int|
            is_ulp_exponent(wide, den, exp, k) == is_ulp_exponent(num, den, exp + j, k) by {
            assert(scaled_lt(wide, exp, den, k + 24) == scaled_lt(num, exp + j, den, k + 24));
            assert(scaled_lt(wide, exp, den, k + 23) == scaled_lt(num, exp + j, den, k + 23));
        }
        assert(is_ulp_exponent(wide, den, exp, e));
        lemma_ulp_exponent_is(wide, den, exp, e);
        let a1 = scaled_num(wide, exp, e);
        let b1 = scaled_den(den, exp, e);
        let a2 = scaled_num(num, exp + j, e);
        let b2 = scaled_den(den, exp + j, e);
        if exp >= e {
            lemma_pow2_sum((exp - e) as nat, j);
            assert(a1 == a2) by (nonlinear_arith)
                requires
                    a1 == (num * t) * pow2((exp - e) as nat),
                    a2 == num * (pow2((exp - e) as nat) * t),
            ;
        } else if exp + j >= e {
            let u = pow2((e - exp) as nat);
            let w = pow2((exp + j - e) as nat);
            lemma_pow2_sum((e - exp) as nat, (exp + j - e) as nat);
            assert(t == u * w);
            assert(a1 == a2 * u) by (nonlinear_arith)
                requires
                    a1 == num * t,
                    a2 == num * w,
                    t == u * w,
            ;
            lemma_nearest_even_common_factor(a2, b2, u);
        } else {
            let u = pow2((e - exp - j) as nat);
            lemma_pow2_sum((e - exp - j) as nat, j);
            assert(b1 == b2 * t) by (nonlinear_arith)
                requires
                    b1 == den * (u * t),
                    b2 == den * u,
            ;
            assert(b2 > 0) by (nonlinear_arith)
                requires
                    b2 == den * u,
                    den > 0,
                    u > 0,
            ;
            lemma_nearest_even_common_factor(a2, b2, t);
        }
    }
}

/// Rounding leaves a binary32 value as it is.
pub proof fn lemma_round_exact(negative: bool, significand: nat, exponent: int)
    requires
        canonical(significand, exponent),
    ensures
        round(negative, significand, 1, exponent) == (Value::Finite {
            negative,
            significand,
            exponent,
        }),
{
    if significand != 0 {
        lemma2_to64();
        assert(is_ulp_exponent(significand, 1, exponent, exponent));
        lemma_ulp_exponent_is(significand, 1, exponent, exponent);
        assert(scaled_num(significand, exponent, exponent) == significand) by (nonlinear_arith)
            requires
                scaled_num(significand, exponent, exponent) == significand * pow2(0),
                pow2(0) == 1,
        ;
        assert(nearest_even(significand, 1) == significand);
    }
}

/// A normal number swallows a term more than 25 binary places below its
/// unit: the sum rounds back to the number itself.
pub proof fn lemma_round_absorbs(negative: bool, m: nat, d: nat, delta: int, exp: int)
    requires
        HIDDEN_BIT <= m < 2 * HIDDEN_BIT,
        d >= 26,
        -0x100_0000 < delta < 0x100_0000,
        MIN_EXPONENT <= exp,
        exp + d <= MAX_EXPONENT,
    ensures
        m * pow2(d) + delta > 0,
        round(negative, (m * pow2(d) + delta) as nat, 1, exp) == (Value::Finite {
            negative,
            significand: m,
            exponent: exp + d,
        }),
{
    let p = pow2(d);
    lemma_pow2_monotonic(26, d);
    lemma2_to64();
    assert(m * p >= 0x80_0000 * p) by (nonlinear_arith)
        requires
            m >= 0x80_0000,
            p > 0,
    ;
    let x = (m * p + delta) as nat;
    if delta >= 0 || m > HIDDEN_BIT {
        let e = exp + d;
        lemma_pow2_sum(d, 24);
        lemma_pow2_sum(d, 23);
        assert(m * p + delta < p * 0x100_0000) by (nonlinear_arith)
            requires
                m <= 0xff_ffff,
                delta < 0x100_0000,
                p >= 0x400_0000,
        ;
        assert(m * p + delta >= p * 0x80_0000) by (nonlinear_arith)
            requires
                delta >= 0 && m >= 0x80_0000 || m >= 0x80_0001 && delta > -0x100_0000,
                p >= 0x400_0000,
        ;
        assert(1 * pow2(24 + d) == p * 0x100_0000);
        assert(1 * pow2(23 + d) == p * 0x80_0000);
        assert(is_ulp_exponent(x, 1, exp, e));
        lemma_ulp_exponent_is(x, 1, exp, e);
        assert(scaled_num(x, exp, e) == x);
        assert(scaled_den(1, exp, e) == p);
        if delta >= 0 {
            lemma_fundamental_div_mod_converse(x as int, p as int, m as int, delta);
        } else {
            assert(x == (m - 1) * p + (p + delta)) by (nonlinear_arith)
                requires
                    x == m * p + delta,
            ;
            lemma_fundamental_div_mod_converse(x as int, p as int, m - 1, p + delta);
        }
        assert(nearest_even(x, p) == m);
    } else {
        let e = exp + d - 1;
        let h = pow2((d - 1) as nat);
        lemma_pow2_sum((d - 1) as nat, 1);
        lemma_pow2_monotonic(25, (d - 1) as nat);
        lemma_pow2_sum((d - 1) as nat, 24);
        lemma_pow2_sum((d - 1) as nat, 23);
        assert(p == h * 2);
        assert(m * p == 0x100_0000 * h) by (nonlinear_arith)
            requires
                m == 0x80_0000,
                p == h * 2,
        ;
        assert(0x100_0000 * h + delta >= h * 0x80_0000) by (nonlinear_arith)
            requires
                delta > -0x100_0000,
                h >= 0x200_0000,
        ;
        assert(1 * pow2(24 + (d - 1) as nat) == h * 0x100_0000);
        assert(1 * pow2(23 + (d - 1) as nat) == h * 0x80_0000);
        assert(is_ulp_exponent(x, 1, exp, e));
        lemma_ulp_exponent_is(x, 1, exp, e);
        assert(scaled_num(x, exp, e) == x);
        assert(scaled_den(1, exp, e) == h);
        assert(x == 0xff_ffff * h + (h + delta)) by (nonlinear_arith)
            requires
                x == 0x100_0000 * h + delta,
        ;
        lemma_fundamental_div_mod_converse(x as int, h as int, 0xff_ffff, h + delta);
        assert(nearest_even(x, h) == 0x100_0000);
    }
}

} // verus!
