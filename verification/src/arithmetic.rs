//! What the operations of binary32 give, stated over values: the exact
//! result of each, rounded to nearest.

use crate::rounding::{
    is_ulp_exponent, lemma_round_exact, lemma_round_scaled, lemma_round_well_formed,
    lemma_ulp_exponent_is, nearest_even, round, Value, HIDDEN_BIT, MIN_EXPONENT,
};
use vstd::arithmetic::div_mod::lemma_fundamental_div_mod_converse;
use vstd::arithmetic::power2::*;
use vstd::prelude::*;

verus! {

/// A magnitude with its sign, as an integer.
pub open spec fn signed(negative: bool, magnitude: nat) -> int {
    if negative {
        -magnitude
    } else {
        magnitude as int
    }
}

/// The sum of two values: NaN where either is NaN and for infinities of
/// opposite signs; an infinity where one stands; else the exact sum of the
/// two finite values, rounded. An exact sum of zero is negative only where
/// both terms are.
pub open spec fn sum(a: Value, b: Value) -> Value {
    match (a, b) {
        (Value::Nan, _) => Value::Nan,
        (_, Value::Nan) => Value::Nan,
        (Value::Infinite { negative: na }, Value::Infinite { negative: nb }) => {
            if na == nb {
                Value::Infinite { negative: na }
            } else {
                Value::Nan
            }
        },
        (Value::Infinite { negative: na }, Value::Finite { .. }) => Value::Infinite {
            negative: na,
        },
        (Value::Finite { .. }, Value::Infinite { negative: nb }) => Value::Infinite {
            negative: nb,
        },
        (
            Value::Finite { negative: na, significand: ma, exponent: ea },
            Value::Finite { negative: nb, significand: mb, exponent: eb },
        ) => {
            let e = if ea <= eb {
                ea
            } else {
                eb
            };
            let total = signed(na, ma * pow2((ea - e) as nat)) + signed(
                nb,
                mb * pow2((eb - e) as nat),
            );
            if total == 0 {
                Value::Finite { negative: na && nb, significand: 0, exponent: MIN_EXPONENT as int }
            } else if total < 0 {
                round(true, (-total) as nat, 1, e)
            } else {
                round(false, total as nat, 1, e)
            }
        },
    }
}

/// The value with the opposite sign; NaN stays NaN.
pub open spec fn negated(a: Value) -> Value {
    match a {
        Value::Nan => Value::Nan,
        Value::Infinite { negative } => Value::Infinite { negative: !negative },
        Value::Finite { negative, significand, exponent } => Value::Finite {
            negative: !negative,
            significand,
            exponent,
        },
    }
}

/// The difference of two values: the sum of the first and the negated second.
pub open spec fn difference(a: Value, b: Value) -> Value {
    sum(a, negated(b))
}

/// The product of two values: NaN where either is NaN or where zero meets
/// infinity; else the sign is the exclusive or of the signs, and the exact
/// product of two finite magnitudes is rounded.
pub open spec fn product(a: Value, b: Value) -> Value {
    match (a, b) {
        (Value::Nan, _) => Value::Nan,
        (_, Value::Nan) => Value::Nan,
        (Value::Infinite { negative: na }, Value::Infinite { negative: nb }) => Value::Infinite {
            negative: na != nb,
        },
        (Value::Infinite { negative: na }, Value::Finite { negative: nb, significand, .. }) => {
            if significand == 0 {
                Value::Nan
            } else {
                Value::Infinite { negative: na != nb }
            }
        },
        (Value::Finite { negative: na, significand, .. }, Value::Infinite { negative: nb }) => {
            if significand == 0 {
                Value::Nan
            } else {
                Value::Infinite { negative: na != nb }
            }
        },
        (
            Value::Finite { negative: na, significand: ma, exponent: ea },
            Value::Finite { negative: nb, significand: mb, exponent: eb },
        ) => round(na != nb, ma * mb, 1, ea + eb),
    }
}

/// The quotient of two values: NaN where either is NaN, for zero by zero and
/// for infinity by infinity; an infinity for a nonzero value by zero; else
/// the sign is the exclusive or of the signs, and the exact quotient of two
/// finite magnitudes is rounded.
pub open spec fn quotient(a: Value, b: Value) -> Value {
    match (a, b) {
        (Value::Nan, _) => Value::Nan,
        (_, Value::Nan) => Value::Nan,
        (Value::Infinite { .. }, Value::Infinite { .. }) => Value::Nan,
        (Value::Infinite { negative: na }, Value::Finite { negative: nb, .. }) => Value::Infinite {
            negative: na != nb,
        },
        (Value::Finite { negative: na, .. }, Value::Infinite { negative: nb }) => Value::Finite {
            negative: na != nb,
            significand: 0,
            exponent: MIN_EXPONENT as int,
        },
        (
            Value::Finite { negative: na, significand: ma, exponent: ea },
            Value::Finite { negative: nb, significand: mb, exponent: eb },
        ) => {
            if mb == 0 {
                if ma == 0 {
                    Value::Nan
                } else {
                    Value::Infinite { negative: na != nb }
                }
            } else {
                round(na != nb, ma, mb, ea - eb)
            }
        },
    }
}

/// The first value is less than the second, as numbers: never where either
/// is NaN, and zero is not less than zero whatever the signs.
pub open spec fn less(a: Value, b: Value) -> bool {
    match (a, b) {
        (Value::Nan, _) => false,
        (_, Value::Nan) => false,
        (Value::Infinite { negative: na }, Value::Infinite { negative: nb }) => na && !nb,
        (Value::Infinite { negative: na }, Value::Finite { .. }) => na,
        (Value::Finite { .. }, Value::Infinite { negative: nb }) => !nb,
        (
            Value::Finite { negative: na, significand: ma, exponent: ea },
            Value::Finite { negative: nb, significand: mb, exponent: eb },
        ) => {
            let e = if ea <= eb {
                ea
            } else {
                eb
            };
            signed(na, ma * pow2((ea - e) as nat)) < signed(nb, mb * pow2((eb - e) as nat))
        },
    }
}

/// The two values are equal as numbers: neither is NaN, and they are the same
/// value or both zero.
pub open spec fn equal(a: Value, b: Value) -> bool {
    &&& a != Value::Nan
    &&& b != Value::Nan
    &&& a == b || (a.is_zero() && b.is_zero())
}

/// The integer part of a finite value: the value with its fraction dropped.
pub open spec fn truncated(negative: bool, significand: nat, exponent: int) -> int {
    if exponent >= 0 {
        signed(negative, significand * pow2(exponent as nat))
    } else {
        signed(negative, significand / pow2((-exponent) as nat))
    }
}

/// The 32-bit integer that a value converts to: its integer part where that
/// fits; the nearest bound where it does not, as for the infinities; zero for
/// NaN.
pub open spec fn integer_part(a: Value) -> int {
    match a {
        Value::Nan => 0,
        Value::Infinite { negative } => if negative {
            i32::MIN as int
        } else {
            i32::MAX as int
        },
        Value::Finite { negative, significand, exponent } => {
            let whole = truncated(negative, significand, exponent);
            if whole < i32::MIN {
                i32::MIN as int
            } else if whole > i32::MAX {
                i32::MAX as int
            } else {
                whole
            }
        },
    }
}

/// The sum of well-formed values is well formed.
pub proof fn lemma_sum_well_formed(a: Value, b: Value)
    requires
        a.well_formed(),
        b.well_formed(),
    ensures
        sum(a, b).well_formed(),
{
    if let Value::Finite { negative: na, significand: ma, exponent: ea } = a {
        if let Value::Finite { negative: nb, significand: mb, exponent: eb } = b {
            let e = if ea <= eb {
                ea
            } else {
                eb
            };
            let total = signed(na, ma * pow2((ea - e) as nat)) + signed(
                nb,
                mb * pow2((eb - e) as nat),
            );
            if total < 0 {
                lemma_round_well_formed(true, (-total) as nat, 1, e);
            } else if total > 0 {
                lemma_round_well_formed(false, total as nat, 1, e);
            }
        }
    }
}

/// The product of well-formed values is well formed.
pub proof fn lemma_product_well_formed(a: Value, b: Value)
    requires
        a.well_formed(),
        b.well_formed(),
    ensures
        product(a, b).well_formed(),
{
    if let Value::Finite { negative: na, significand: ma, exponent: ea } = a {
        if let Value::Finite { negative: nb, significand: mb, exponent: eb } = b {
            lemma_round_well_formed(na != nb, ma * mb, 1, ea + eb);
        }
    }
}

/// The quotient of well-formed values is well formed.
pub proof fn lemma_quotient_well_formed(a: Value, b: Value)
    requires
        a.well_formed(),
        b.well_formed(),
    ensures
        quotient(a, b).well_formed(),
{
    if let Value::Finite { negative: na, significand: ma, exponent: ea } = a {
        if let Value::Finite { negative: nb, significand: mb, exponent: eb } = b {
            if mb != 0 {
                lemma_round_well_formed(na != nb, ma, mb, ea - eb);
            }
        }
    }
}

/// Addition does not depend on the order of its terms.
pub proof fn lemma_sum_commutes(a: Value, b: Value)
    ensures
        sum(a, b) == sum(b, a),
{
}

/// Adding a zero to a well-formed value gives a value equal to it; a value
/// that is not zero comes back as it is.
pub proof fn lemma_sum_with_zero(zero: Value, b: Value)
    requires
        zero.is_zero(),
        zero.well_formed(),
        b.well_formed(),
    ensures
        b != Value::Nan ==> equal(sum(zero, b), b),
        !b.is_zero() ==> sum(zero, b) == b,
{
    if let Value::Finite { negative: nb, significand: mb, exponent: eb } = b {
        let shift = (eb - MIN_EXPONENT) as nat;
        let t = pow2(shift);
        lemma_pow2_pos(shift);
        lemma2_to64();
        assert((mb * t == 0) == (mb == 0)) by (nonlinear_arith)
            requires
                t > 0,
        ;
        assert(0 * pow2(0) == 0) by (nonlinear_arith);
        if mb != 0 {
            lemma_round_scaled(nb, mb, 1, MIN_EXPONENT as int, shift);
            lemma_round_exact(nb, mb, eb);
        }
    }
}

/// A finite nonzero value divided by itself gives one.
pub proof fn lemma_quotient_of_itself(a: Value)
    requires
        a is Finite,
        !a.is_zero(),
    ensures
        quotient(a, a) == (Value::Finite {
            negative: false,
            significand: HIDDEN_BIT as nat,
            exponent: -23,
        }),
{
    let m = a->significand;
    lemma2_to64();
    assert(m * pow2(0) == m) by (nonlinear_arith)
        requires
            pow2(0) == 1,
    ;
    assert(m * pow2(1) == 2 * m) by (nonlinear_arith)
        requires
            pow2(1) == 2,
    ;
    assert(is_ulp_exponent(m, m, 0, -23));
    lemma_ulp_exponent_is(m, m, 0, -23);
    lemma_fundamental_div_mod_converse((m * pow2(23)) as int, m as int, pow2(23) as int, 0);
    assert(nearest_even(m * pow2(23), m) == pow2(23));
}

/// Multiplying one by a finite well-formed value gives the value.
pub proof fn lemma_product_with_one(b: Value)
    requires
        b is Finite,
        b.well_formed(),
    ensures
        product(
            Value::Finite { negative: false, significand: HIDDEN_BIT as nat, exponent: -23 },
            b,
        ) == b,
{
    let nb = b->Finite_negative;
    let mb = b->significand;
    let eb = b->exponent;
    lemma2_to64();
    assert(HIDDEN_BIT * mb == mb * pow2(23)) by (nonlinear_arith)
        requires
            HIDDEN_BIT == pow2(23),
    ;
    lemma_round_scaled(nb, mb, 1, eb - 23, 23);
    lemma_round_exact(nb, mb, eb);
}

} // verus!
