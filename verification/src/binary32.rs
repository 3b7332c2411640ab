//! IEEE 754 binary32 arithmetic carried out on integers, so that every
//! rounding step is verified against its definition.

use crate::arithmetic::{
    difference, integer_part, lemma_product_well_formed, lemma_quotient_well_formed,
    lemma_sum_well_formed, less, negated, product, quotient, signed, sum,
};
use crate::power::{
    lemma_pow2_127, lemma_pow2_bound, lemma_pow2_monotonic, lemma_pow2_sum, lemma_scaled_lt_monotonic,
    lemma_scaled_lt_offset, scaled_lt,
};
use crate::rounding::{
    canonical, is_ulp_exponent, lemma_round_absorbs, lemma_scaled_quotient,
    lemma_ulp_exponent_is, nearest_even, round, scaled_den, scaled_num, Value, HIDDEN_BIT,
    MAX_EXPONENT, MIN_EXPONENT,
};
use vstd::arithmetic::power2::*;
use vstd::prelude::*;

verus! {

/// A binary32 datum, held as its 32 bits: sign, eight exponent bits, 23
/// fraction bits.
#[derive(Clone, Copy, Debug, PartialEq, Eq, Structural)]
pub struct Binary32 {
    pub bits: u32,
}

/// The bit of the sign.
pub const SIGN_BIT: u32 = 0x8000_0000;

/// The bits of positive infinity: all exponent bits set, no fraction bit.
pub const INFINITY_BITS: u32 = 0x7f80_0000;

/// The bits of the NaN that the operations give.
pub const NAN_BITS: u32 = 0x7fc0_0000;

impl View for Binary32 {
    type V = Value;

    /// The value that the bits stand for.
    open spec fn view(&self) -> Value {
        let negative = self.bits >= SIGN_BIT;
        let biased = (self.bits / HIDDEN_BIT) % 0x100;
        let fraction = (self.bits % HIDDEN_BIT) as nat;
        if biased == 0xff {
            if fraction == 0 {
                Value::Infinite { negative }
            } else {
                Value::Nan
            }
        } else if biased == 0 {
            Value::Finite { negative, significand: fraction, exponent: MIN_EXPONENT as int }
        } else {
            Value::Finite { negative, significand: (HIDDEN_BIT + fraction) as nat, exponent: biased - 150 }
        }
    }
}

/// The bits of a value: the canonical NaN for NaN, and for every other
/// well-formed value the one datum that stands for it.
pub open spec fn encode(value: Value) -> Binary32 {
    match value {
        Value::Nan => Binary32 { bits: NAN_BITS },
        Value::Infinite { negative } => Binary32 {
            bits: if negative {
                (SIGN_BIT + INFINITY_BITS) as u32
            } else {
                INFINITY_BITS
            },
        },
        Value::Finite { negative, significand, exponent } => Binary32 {
            bits: ((if negative {
                SIGN_BIT as int
            } else {
                0
            }) + (exponent - MIN_EXPONENT) * HIDDEN_BIT + significand) as u32,
        },
    }
}

/// Encoding a well-formed value and reading the bits back gives the value.
pub proof fn lemma_view_of_encode(value: Value)
    requires
        value.well_formed(),
    ensures
        encode(value)@ == value,
{
}

/// Two data that stand for the same value, neither of them NaN, are the same bits.
pub proof fn lemma_view_injective(a: Binary32, b: Binary32)
    requires
        a@ == b@,
        a@ != Value::Nan,
    ensures
        a == b,
{
}

/// The value of every datum is well formed.
pub proof fn lemma_view_well_formed(a: Binary32)
    ensures
        a@.well_formed(),
{
}

/// `2^exponent`, for an exponent that a `u128` can hold.
fn power_of_two(exponent: u32) -> (power: u128)
    requires
        exponent < 128,
    ensures
        power == pow2(exponent as nat),
{
    let mut power: u128 = 1;
    let mut done: u32 = 0;
    proof {
        lemma2_to64();
    }
    while done < exponent
        invariant
            done <= exponent < 128,
            power == pow2(done as nat),
        decreases exponent - done,
    {
        proof {
            lemma_pow2_unfold((done + 1) as nat);
            lemma_pow2_bound((done + 1) as nat);
        }
        power = power * 2;
        done = done + 1;
    }
    power
}

/// The number of bits of `number`: zero for zero, else the `length` with
/// `2^(length - 1) <= number < 2^length`.
fn bit_length(number: u128) -> (length: u32)
    ensures
        length <= 128,
        number == 0 <==> length == 0,
        number < pow2(length as nat),
        length > 0 ==> pow2((length - 1) as nat) <= number,
{
    let mut length: u32 = 0;
    let mut rest: u128 = number;
    proof {
        lemma2_to64();
    }
    while rest > 0
        invariant
            length <= 128,
            rest * pow2(length as nat) <= number < (rest + 1) * pow2(length as nat),
            number == 0 <==> (length == 0 && rest == 0),
            length > 0 ==> pow2((length - 1) as nat) <= number,
            length == 128 ==> rest == 0,
        decreases rest,
    {
        proof {
            let p = pow2(length as nat);
            lemma_pow2_unfold((length + 1) as nat);
            lemma_pow2_pos(length as nat);
            assert(p <= number) by (nonlinear_arith)
                requires
                    rest >= 1,
                    rest * p <= number,
                    p > 0,
            ;
            assert((rest / 2) * (2 * p) <= rest * p) by (nonlinear_arith)
                requires
                    p > 0,
            ;
            assert((rest + 1) * p <= (rest / 2 + 1) * (2 * p)) by (nonlinear_arith)
                requires
                    p > 0,
            ;
            if length == 127 {
                lemma_pow2_127();
                assert(rest < 2) by (nonlinear_arith)
                    requires
                        rest * p <= number,
                        number < 0x1_0000_0000_0000_0000_0000_0000_0000_0000,
                        p == 0x8000_0000_0000_0000_0000_0000_0000_0000,
                ;
            }
        }
        rest = rest / 2;
        length = length + 1;
    }
    assert((rest + 1) * pow2(length as nat) == pow2(length as nat)) by (nonlinear_arith)
        requires
            rest == 0,
    ;
    length
}

/// The datum of a canonical finite value.
fn pack(negative: bool, significand: u32, exponent: i32) -> (packed: Binary32)
    requires
        canonical(significand as nat, exponent as int),
    ensures
        packed == encode(
            Value::Finite { negative, significand: significand as nat, exponent: exponent as int },
        ),
        packed@ == (Value::Finite {
            negative,
            significand: significand as nat,
            exponent: exponent as int,
        }),
{
    let sign: u32 = if negative {
        SIGN_BIT
    } else {
        0
    };
    let field: u32 = (exponent - MIN_EXPONENT) as u32;
    Binary32 { bits: sign + field * HIDDEN_BIT + significand }
}

/// The datum of an infinity.
fn pack_infinity(negative: bool) -> (packed: Binary32)
    ensures
        packed == encode(Value::Infinite { negative }),
        packed@ == (Value::Infinite { negative }),
{
    if negative {
        Binary32 { bits: SIGN_BIT + INFINITY_BITS }
    } else {
        Binary32 { bits: INFINITY_BITS }
    }
}

/// The whole part of the binary logarithm of `num / den`.
fn magnitude_exponent(num: u128, den: u128) -> (magnitude: i32)
    requires
        0 < num < pow2(100),
        0 < den < pow2(100),
    ensures
        -100 <= magnitude <= 100,
        !scaled_lt(num as nat, 0, den as nat, magnitude as int),
        scaled_lt(num as nat, 0, den as nat, magnitude + 1),
{
    let num_length = bit_length(num);
    let den_length = bit_length(den);
    proof {
        if num_length > 100 {
            lemma_pow2_monotonic(100, (num_length - 1) as nat);
        }
        if den_length > 100 {
            lemma_pow2_monotonic(100, (den_length - 1) as nat);
        }
    }
    let ghost num_low = pow2((num_length - 1) as nat);
    let ghost den_low = pow2((den_length - 1) as nat);
    proof {
        lemma_pow2_sum((num_length - 1) as nat, 1);
        lemma_pow2_sum((den_length - 1) as nat, 1);
        lemma2_to64();
    }
    if num_length >= den_length {
        let gap = num_length - den_length;
        let scale = power_of_two(gap);
        proof {
            lemma_pow2_sum((den_length - 1) as nat, gap as nat);
            lemma_pow2_sum(gap as nat, 1);
            lemma_pow2_bound(num_length as nat);
            assert(den * scale < 2 * num_low) by (nonlinear_arith)
                requires
                    den < 2 * den_low,
                    num_low == den_low * scale,
                    scale > 0,
            ;
            assert(den * (scale * 2) >= 2 * num_low) by (nonlinear_arith)
                requires
                    den >= den_low,
                    num_low == den_low * scale,
                    scale > 0,
            ;
        }
        let shifted = den * scale;
        if num >= shifted {
            proof {
                assert(pow2((gap + 1) as nat) == scale * 2);
                assert(num * pow2(0) == num) by (nonlinear_arith)
                    requires
                        pow2(0) == 1,
                ;
                assert(!scaled_lt(num as nat, 0, den as nat, gap as int));
                assert(scaled_lt(num as nat, 0, den as nat, gap + 1));
            }
            gap as i32
        } else {
            proof {
                // den * 2^(gap - 1) < 2^(num_length - 1) <= num
                if gap >= 2 {
                    lemma_pow2_sum((gap - 1) as nat, 1);
                    let half = pow2((gap - 1) as nat);
                    assert(den * half < num_low) by (nonlinear_arith)
                        requires
                            den * scale < 2 * num_low,
                            scale == half * 2,
                    ;
                }
                assert(num * pow2(0) == num) by (nonlinear_arith)
                    requires
                        pow2(0) == 1,
                ;
                assert(num * pow2(1) == 2 * num) by (nonlinear_arith)
                    requires
                        pow2(1) == 2,
                ;
                assert(den * pow2(0) == den) by (nonlinear_arith)
                    requires
                        pow2(0) == 1,
                ;
                assert(scaled_lt(num as nat, 0, den as nat, gap as int));
                assert(!scaled_lt(num as nat, 0, den as nat, gap - 1));
            }
            gap as i32 - 1
        }
    } else {
        let gap = den_length - num_length;
        let scale = power_of_two(gap);
        proof {
            lemma_pow2_sum((num_length - 1) as nat, gap as nat);
            lemma_pow2_sum(gap as nat, 1);
            lemma_pow2_sum((gap - 1) as nat, 1);
            lemma_pow2_bound(den_length as nat);
            assert(num * scale < 2 * den_low) by (nonlinear_arith)
                requires
                    num < 2 * num_low,
                    den_low == num_low * scale,
                    scale > 0,
            ;
            assert(num * (scale * 2) >= 2 * den_low) by (nonlinear_arith)
                requires
                    num >= num_low,
                    den_low == num_low * scale,
                    scale > 0,
            ;
            let half = pow2((gap - 1) as nat);
            assert(num * half < den_low) by (nonlinear_arith)
                requires
                    num * scale < 2 * den_low,
                    scale == half * 2,
            ;
        }
        let shifted = num * scale;
        proof {
            assert(num * pow2(0) == num) by (nonlinear_arith)
                requires
                    pow2(0) == 1,
            ;
            assert(pow2((gap + 1) as nat) == scale * 2);
        }
        if shifted >= den {
            proof {
                assert(!scaled_lt(num as nat, 0, den as nat, -gap));
                assert(scaled_lt(num as nat, 0, den as nat, -gap + 1));
            }
            -(gap as i32)
        } else {
            proof {
                assert(scaled_lt(num as nat, 0, den as nat, -gap));
                assert(!scaled_lt(num as nat, 0, den as nat, -gap - 1));
            }
            -(gap as i32) - 1
        }
    }
}

/// Rounds the magnitude `num / den * 2^exp` to the nearest binary32 value,
/// ties to even, and gives it the sign asked for.
fn round_to_nearest(negative: bool, num: u128, den: u128, exp: i32) -> (rounded: Binary32)
    requires
        num < pow2(100),
        0 < den < pow2(25),
        -1000 <= exp <= 1000,
    ensures
        rounded == encode(round(negative, num as nat, den as nat, exp as int)),
        rounded@ == round(negative, num as nat, den as nat, exp as int),
{
    if num == 0 {
        return pack(negative, 0, MIN_EXPONENT);
    }
    proof {
        lemma_pow2_monotonic(25, 100);
    }
    let magnitude = magnitude_exponent(num, den) + exp;
    let exponent = if magnitude - 23 > MIN_EXPONENT {
        magnitude - 23
    } else {
        MIN_EXPONENT
    };
    proof {
        lemma_scaled_lt_offset(num as nat, 0, den as nat, magnitude - exp, exp as int);
        lemma_scaled_lt_offset(num as nat, 0, den as nat, magnitude - exp + 1, exp as int);
        lemma_scaled_lt_monotonic(
            num as nat,
            exp as int,
            den as nat,
            magnitude + 1,
            exponent + 24,
        );
        assert(is_ulp_exponent(num as nat, den as nat, exp as int, exponent as int));
        lemma_ulp_exponent_is(num as nat, den as nat, exp as int, exponent as int);
        lemma_scaled_quotient(num as nat, exp as int, den as nat, exponent as int, 24);
        lemma_scaled_quotient(num as nat, exp as int, den as nat, exponent as int, 23);
        lemma2_to64();
    }
    let ghost a = scaled_num(num as nat, exp as int, exponent as int);
    let ghost b = scaled_den(den as nat, exp as int, exponent as int);
    let top: u128;
    let bottom: u128;
    if exp >= exponent {
        let scale = power_of_two((exp - exponent) as u32);
        proof {
            lemma_pow2_bound(25);
            lemma_pow2_sum(25, 24);
            lemma_pow2_bound(49);
            assert(b * pow2(24) < pow2(25) * pow2(24)) by (nonlinear_arith)
                requires
                    b < pow2(25),
                    pow2(24) > 0,
            ;
        }
        top = num * scale;
        bottom = den;
    } else if exponent - exp <= 102 {
        let scale = power_of_two((exponent - exp) as u32);
        proof {
            lemma_pow2_sum(25, (exponent - exp) as nat);
            lemma_pow2_bound((25 + exponent - exp) as nat);
            assert(den * scale < pow2(25) * scale) by (nonlinear_arith)
                requires
                    den < pow2(25),
                    scale > 0,
            ;
        }
        top = num;
        bottom = den * scale;
    } else {
        proof {
            // The magnitude is below half a unit: it rounds to zero.
            let k = (exponent - exp) as nat;
            lemma_pow2_monotonic(103, k);
            lemma_pow2_sum(100, 3);
            assert(b >= pow2(k)) by (nonlinear_arith)
                requires
                    b == den * pow2(k),
                    den >= 1,
            ;
            assert(2 * a < b);
            vstd::arithmetic::div_mod::lemma_small_mod(a, b);
            vstd::arithmetic::div_mod::lemma_basic_div(a as int, b as int);
            assert(nearest_even(a, b) == 0);
        }
        return pack(negative, 0, MIN_EXPONENT);
    }
    assert(top == a && bottom == b);
    let quotient = top / bottom;
    let remainder = top % bottom;
    proof {
        vstd::arithmetic::div_mod::lemma_fundamental_div_mod(top as int, bottom as int);
        assert(quotient < 0x100_0000) by (nonlinear_arith)
            requires
                top == bottom * quotient + remainder,
                top < bottom * 0x100_0000,
                bottom > 0,
                remainder >= 0,
        ;
        if exponent > MIN_EXPONENT {
            assert(quotient >= 0x80_0000) by (nonlinear_arith)
                requires
                    top == bottom * quotient + remainder,
                    top >= bottom * 0x80_0000,
                    bottom > 0,
                    remainder < bottom,
            ;
        }
    }
    let up = remainder > bottom - remainder || (remainder == bottom - remainder && quotient % 2
        == 1);
    let nearest: u32 = if up {
        (quotient + 1) as u32
    } else {
        quotient as u32
    };
    assert(nearest == nearest_even(a, b));
    if nearest == 2 * HIDDEN_BIT {
        if exponent + 1 > MAX_EXPONENT {
            pack_infinity(negative)
        } else {
            pack(negative, HIDDEN_BIT, exponent + 1)
        }
    } else if exponent > MAX_EXPONENT {
        pack_infinity(negative)
    } else {
        pack(negative, nearest, exponent)
    }
}

/// The parts of a datum, as machine integers.
enum Parts {
    Nan,
    Infinite { negative: bool },
    Finite { negative: bool, significand: u32, exponent: i32 },
}

impl Parts {
    /// The value that the parts stand for.
    spec fn value(self) -> Value {
        match self {
            Parts::Nan => Value::Nan,
            Parts::Infinite { negative } => Value::Infinite { negative },
            Parts::Finite { negative, significand, exponent } => Value::Finite {
                negative,
                significand: significand as nat,
                exponent: exponent as int,
            },
        }
    }
}

/// The rounded sum of two finite values, the first with the larger exponent
/// or an equal one.
fn sum_of_finite(
    big_negative: bool,
    big: u32,
    big_exponent: i32,
    small_negative: bool,
    small: u32,
    small_exponent: i32,
) -> (result: Binary32)
    requires
        canonical(big as nat, big_exponent as int),
        canonical(small as nat, small_exponent as int),
        big_exponent >= small_exponent,
    ensures
        result == encode(
            sum(
                Value::Finite {
                    negative: big_negative,
                    significand: big as nat,
                    exponent: big_exponent as int,
                },
                Value::Finite {
                    negative: small_negative,
                    significand: small as nat,
                    exponent: small_exponent as int,
                },
            ),
        ),
        result == encode(
            sum(
                Value::Finite {
                    negative: small_negative,
                    significand: small as nat,
                    exponent: small_exponent as int,
                },
                Value::Finite {
                    negative: big_negative,
                    significand: big as nat,
                    exponent: big_exponent as int,
                },
            ),
        ),
        result@ == sum(
            Value::Finite {
                negative: big_negative,
                significand: big as nat,
                exponent: big_exponent as int,
            },
            Value::Finite {
                negative: small_negative,
                significand: small as nat,
                exponent: small_exponent as int,
            },
        ),
{
    let gap = (big_exponent - small_exponent) as u32;
    proof {
        lemma2_to64();
        assert(small * pow2(0) == small) by (nonlinear_arith)
            requires
                pow2(0) == 1,
        ;
        assert(big * pow2(0) == big) by (nonlinear_arith)
            requires
                pow2(0) == 1,
        ;
    }
    if gap <= 70 {
        let scale = power_of_two(gap);
        proof {
            lemma_pow2_monotonic(gap as nat, 70);
            lemma_pow2_sum(70, 24);
            lemma_pow2_monotonic(94, 100);
            lemma_pow2_sum(94, 1);
            lemma_pow2_monotonic(95, 100);
            lemma_pow2_bound(94);
            let limit = pow2(70);
            assert(big * scale < limit * 0x100_0000) by (nonlinear_arith)
                requires
                    big < 0x100_0000,
                    0 < scale <= limit,
            ;
        }
        let wide: u128 = big as u128 * scale;
        let narrow: u128 = small as u128;
        if big_negative == small_negative {
            round_to_nearest(big_negative, wide + narrow, 1, small_exponent)
        } else if wide > narrow {
            round_to_nearest(big_negative, wide - narrow, 1, small_exponent)
        } else if wide < narrow {
            round_to_nearest(small_negative, narrow - wide, 1, small_exponent)
        } else {
            pack(false, 0, MIN_EXPONENT)
        }
    } else {
        proof {
            let delta = signed(big_negative != small_negative, small as nat);
            lemma_round_absorbs(
                big_negative,
                big as nat,
                gap as nat,
                delta,
                small_exponent as int,
            );
        }
        pack(big_negative, big, big_exponent)
    }
}

/// Whether the first of two finite magnitudes is the smaller.
fn magnitude_less(ma: u32, ea: i32, mb: u32, eb: i32) -> (smaller: bool)
    requires
        canonical(ma as nat, ea as int),
        canonical(mb as nat, eb as int),
    ensures
        smaller == ({
            let e = if ea <= eb {
                ea
            } else {
                eb
            };
            ma * pow2((ea - e) as nat) < mb * pow2((eb - e) as nat)
        }),
{
    proof {
        lemma2_to64();
        assert(ma * pow2(0) == ma) by (nonlinear_arith)
            requires
                pow2(0) == 1,
        ;
        assert(mb * pow2(0) == mb) by (nonlinear_arith)
            requires
                pow2(0) == 1,
        ;
    }
    if ea == eb {
        ma < mb
    } else if ea < eb {
        proof {
            let t = pow2((eb - ea) as nat);
            lemma_pow2_monotonic(1, (eb - ea) as nat);
            assert(mb * t >= 0x100_0000) by (nonlinear_arith)
                requires
                    mb >= 0x80_0000,
                    t >= 2,
            ;
        }
        true
    } else {
        proof {
            let t = pow2((ea - eb) as nat);
            lemma_pow2_monotonic(1, (ea - eb) as nat);
            assert(ma * t >= 0x100_0000) by (nonlinear_arith)
                requires
                    ma >= 0x80_0000,
                    t >= 2,
            ;
        }
        false
    }
}

impl Binary32 {
    /// The datum of an unsigned 16-bit integer.
    pub open spec fn spec_from_u16(number: u16) -> Binary32 {
        encode(round(false, number as nat, 1, 0))
    }

    /// The 32-bit integer that this value converts to.
    pub open spec fn spec_to_i32(self) -> i32 {
        integer_part(self@) as i32
    }

    /// The sum, as a datum.
    pub open spec fn spec_plus(self, rhs: Binary32) -> Binary32 {
        encode(sum(self@, rhs@))
    }

    /// The difference, as a datum.
    pub open spec fn spec_minus(self, rhs: Binary32) -> Binary32 {
        encode(difference(self@, rhs@))
    }

    /// The product, as a datum.
    pub open spec fn spec_times(self, rhs: Binary32) -> Binary32 {
        encode(product(self@, rhs@))
    }

    /// The quotient, as a datum.
    pub open spec fn spec_divided_by(self, rhs: Binary32) -> Binary32 {
        encode(quotient(self@, rhs@))
    }

    /// Whether this value is the smaller number.
    pub open spec fn spec_less_than(self, rhs: Binary32) -> bool {
        less(self@, rhs@)
    }

    /// Takes the bits apart.
    fn unpack(self) -> (parts: Parts)
        ensures
            parts.value() == self@,
            self@.well_formed(),
    {
        let negative = self.bits >= SIGN_BIT;
        let biased = (self.bits / HIDDEN_BIT) % 0x100;
        let fraction = self.bits % HIDDEN_BIT;
        if biased == 0xff {
            if fraction == 0 {
                Parts::Infinite { negative }
            } else {
                Parts::Nan
            }
        } else if biased == 0 {
            Parts::Finite { negative, significand: fraction, exponent: MIN_EXPONENT }
        } else {
            Parts::Finite {
                negative,
                significand: HIDDEN_BIT + fraction,
                exponent: biased as i32 - 150,
            }
        }
    }

    /// The canonical NaN.
    fn nan() -> (datum: Binary32)
        ensures
            datum == encode(Value::Nan),
            datum@ == Value::Nan,
    {
        Binary32 { bits: NAN_BITS }
    }

    /// The value of an unsigned 16-bit integer, which binary32 holds exactly.
    #[verifier::when_used_as_spec(spec_from_u16)]
    pub fn from_u16(number: u16) -> (result: Binary32)
        ensures
            result == Binary32::spec_from_u16(number),
            result@ == round(false, number as nat, 1, 0),
    {
        proof {
            lemma2_to64();
            lemma_pow2_monotonic(16, 100);
        }
        round_to_nearest(false, number as u128, 1, 0)
    }

    /// Conversion to a 32-bit integer: the fraction is dropped, a value out
    /// of range goes to the nearest bound, NaN goes to zero.
    #[verifier::when_used_as_spec(spec_to_i32)]
    pub fn to_i32(self) -> (whole: i32)
        ensures
            whole == self.spec_to_i32(),
            whole == integer_part(self@),
    {
        match self.unpack() {
            Parts::Nan => 0,
            Parts::Infinite { negative } => if negative {
                i32::MIN
            } else {
                i32::MAX
            },
            Parts::Finite { negative, significand, exponent } => {
                proof {
                    lemma2_to64();
                }
                if exponent >= 8 {
                    proof {
                        let t = pow2(exponent as nat);
                        lemma_pow2_monotonic(8, exponent as nat);
                        assert(significand * t >= 0x8000_0000) by (nonlinear_arith)
                            requires
                                significand >= 0x80_0000,
                                t >= 0x100,
                        ;
                    }
                    if negative {
                        i32::MIN
                    } else {
                        i32::MAX
                    }
                } else if exponent >= 0 {
                    let scale = power_of_two(exponent as u32) as u32;
                    proof {
                        lemma_pow2_monotonic(exponent as nat, 7);
                        assert(significand * scale < 0x8000_0000) by (nonlinear_arith)
                            requires
                                significand < 0x100_0000,
                                scale <= 0x80,
                        ;
                    }
                    let whole = (significand * scale) as i32;
                    if negative {
                        -whole
                    } else {
                        whole
                    }
                } else if exponent <= -24 {
                    proof {
                        let t = pow2((-exponent) as nat);
                        lemma_pow2_monotonic(24, (-exponent) as nat);
                        vstd::arithmetic::div_mod::lemma_basic_div(significand as int, t as int);
                    }
                    0
                } else {
                    let scale = power_of_two((-exponent) as u32) as u32;
                    proof {
                        lemma_pow2_monotonic((-exponent) as nat, 23);
                    }
                    let whole = (significand / scale) as i32;
                    if negative {
                        -whole
                    } else {
                        whole
                    }
                }
            },
        }
    }

    /// The datum with the sign bit flipped.
    pub fn negate(self) -> (result: Binary32)
        ensures
            result.bits == if self.bits >= SIGN_BIT {
                self.bits - SIGN_BIT
            } else {
                self.bits + SIGN_BIT
            },
            result@ == negated(self@),
    {
        if self.bits >= SIGN_BIT {
            Binary32 { bits: self.bits - SIGN_BIT }
        } else {
            Binary32 { bits: self.bits + SIGN_BIT }
        }
    }

    /// Addition, rounded to nearest, ties to even.
    #[verifier::when_used_as_spec(spec_plus)]
    pub fn plus(self, rhs: Binary32) -> (result: Binary32)
        ensures
            result == self.spec_plus(rhs),
            result@ == sum(self@, rhs@),
    {
        match (self.unpack(), rhs.unpack()) {
            (Parts::Nan, _) => Binary32::nan(),
            (_, Parts::Nan) => Binary32::nan(),
            (Parts::Infinite { negative: na }, Parts::Infinite { negative: nb }) => {
                if na == nb {
                    pack_infinity(na)
                } else {
                    Binary32::nan()
                }
            },
            (Parts::Infinite { negative: na }, Parts::Finite { .. }) => pack_infinity(na),
            (Parts::Finite { .. }, Parts::Infinite { negative: nb }) => pack_infinity(nb),
            (
                Parts::Finite { negative: na, significand: ma, exponent: ea },
                Parts::Finite { negative: nb, significand: mb, exponent: eb },
            ) => {
                if ea >= eb {
                    sum_of_finite(na, ma, ea, nb, mb, eb)
                } else {
                    sum_of_finite(nb, mb, eb, na, ma, ea)
                }
            },
        }
    }

    /// Subtraction, rounded to nearest, ties to even.
    #[verifier::when_used_as_spec(spec_minus)]
    pub fn minus(self, rhs: Binary32) -> (result: Binary32)
        ensures
            result == self.spec_minus(rhs),
            result@ == difference(self@, rhs@),
    {
        self.plus(rhs.negate())
    }

    /// Multiplication, rounded to nearest, ties to even.
    #[verifier::when_used_as_spec(spec_times)]
    pub fn times(self, rhs: Binary32) -> (result: Binary32)
        ensures
            result == self.spec_times(rhs),
            result@ == product(self@, rhs@),
    {
        match (self.unpack(), rhs.unpack()) {
            (Parts::Nan, _) => Binary32::nan(),
            (_, Parts::Nan) => Binary32::nan(),
            (Parts::Infinite { negative: na }, Parts::Infinite { negative: nb }) => pack_infinity(
                na != nb,
            ),
            (Parts::Infinite { negative: na }, Parts::Finite { negative: nb, significand, .. }) => {
                if significand == 0 {
                    Binary32::nan()
                } else {
                    pack_infinity(na != nb)
                }
            },
            (Parts::Finite { negative: na, significand, .. }, Parts::Infinite { negative: nb }) => {
                if significand == 0 {
                    Binary32::nan()
                } else {
                    pack_infinity(na != nb)
                }
            },
            (
                Parts::Finite { negative: na, significand: ma, exponent: ea },
                Parts::Finite { negative: nb, significand: mb, exponent: eb },
            ) => {
                proof {
                    lemma2_to64();
                    lemma2_to64_rest();
                    lemma_pow2_monotonic(48, 100);
                    assert(ma * mb < 0x100_0000 * 0x100_0000) by (nonlinear_arith)
                        requires
                            ma < 0x100_0000,
                            mb < 0x100_0000,
                    ;
                }
                round_to_nearest(na != nb, ma as u128 * mb as u128, 1, ea + eb)
            },
        }
    }

    /// Division, rounded to nearest, ties to even.
    #[verifier::when_used_as_spec(spec_divided_by)]
    pub fn divided_by(self, rhs: Binary32) -> (result: Binary32)
        ensures
            result == self.spec_divided_by(rhs),
            result@ == quotient(self@, rhs@),
    {
        match (self.unpack(), rhs.unpack()) {
            (Parts::Nan, _) => Binary32::nan(),
            (_, Parts::Nan) => Binary32::nan(),
            (Parts::Infinite { .. }, Parts::Infinite { .. }) => Binary32::nan(),
            (Parts::Infinite { negative: na }, Parts::Finite { negative: nb, .. }) => {
                pack_infinity(na != nb)
            },
            (Parts::Finite { negative: na, .. }, Parts::Infinite { negative: nb }) => pack(
                na != nb,
                0,
                MIN_EXPONENT,
            ),
            (
                Parts::Finite { negative: na, significand: ma, exponent: ea },
                Parts::Finite { negative: nb, significand: mb, exponent: eb },
            ) => {
                if mb == 0 {
                    if ma == 0 {
                        Binary32::nan()
                    } else {
                        pack_infinity(na != nb)
                    }
                } else {
                    proof {
                        lemma2_to64();
                        lemma_pow2_monotonic(24, 100);
                        lemma_pow2_monotonic(24, 25);
                    }
                    round_to_nearest(na != nb, ma as u128, mb as u128, ea - eb)
                }
            },
        }
    }

    /// Whether this value is less than the other, as numbers.
    #[verifier::when_used_as_spec(spec_less_than)]
    pub fn less_than(self, rhs: Binary32) -> (smaller: bool)
        ensures
            smaller == self.spec_less_than(rhs),
    {
        match (self.unpack(), rhs.unpack()) {
            (Parts::Nan, _) => false,
            (_, Parts::Nan) => false,
            (Parts::Infinite { negative: na }, Parts::Infinite { negative: nb }) => na && !nb,
            (Parts::Infinite { negative: na }, Parts::Finite { .. }) => na,
            (Parts::Finite { .. }, Parts::Infinite { negative: nb }) => !nb,
            (
                Parts::Finite { negative: na, significand: ma, exponent: ea },
                Parts::Finite { negative: nb, significand: mb, exponent: eb },
            ) => {
                proof {
                    let e = if ea <= eb {
                        ea
                    } else {
                        eb
                    };
                    let ta = pow2((ea - e) as nat);
                    let tb = pow2((eb - e) as nat);
                    lemma_pow2_pos((ea - e) as nat);
                    lemma_pow2_pos((eb - e) as nat);
                    assert((ma * ta == 0) == (ma == 0)) by (nonlinear_arith)
                        requires
                            ta > 0,
                    ;
                    assert((mb * tb == 0) == (mb == 0)) by (nonlinear_arith)
                        requires
                            tb > 0,
                    ;
                }
                if na && !nb {
                    ma != 0 || mb != 0
                } else if !na && nb {
                    false
                } else if na {
                    magnitude_less(mb, eb, ma, ea)
                } else {
                    magnitude_less(ma, ea, mb, eb)
                }
            },
        }
    }
}

/// The value of a sum of data is the sum of their values.
pub proof fn lemma_plus_view(a: Binary32, b: Binary32)
    ensures
        a.plus(b)@ == sum(a@, b@),
{
    lemma_view_well_formed(a);
    lemma_view_well_formed(b);
    lemma_sum_well_formed(a@, b@);
    lemma_view_of_encode(sum(a@, b@));
}

/// The value of a difference of data is the difference of their values.
pub proof fn lemma_minus_view(a: Binary32, b: Binary32)
    ensures
        a.minus(b)@ == difference(a@, b@),
{
    lemma_view_well_formed(a);
    lemma_view_well_formed(b);
    lemma_sum_well_formed(a@, negated(b@));
    lemma_view_of_encode(difference(a@, b@));
}

/// The value of a product of data is the product of their values.
pub proof fn lemma_times_view(a: Binary32, b: Binary32)
    ensures
        a.times(b)@ == product(a@, b@),
{
    lemma_view_well_formed(a);
    lemma_view_well_formed(b);
    lemma_product_well_formed(a@, b@);
    lemma_view_of_encode(product(a@, b@));
}

/// The value of a quotient of data is the quotient of their values.
pub proof fn lemma_divided_by_view(a: Binary32, b: Binary32)
    ensures
        a.divided_by(b)@ == quotient(a@, b@),
{
    lemma_view_well_formed(a);
    lemma_view_well_formed(b);
    lemma_quotient_well_formed(a@, b@);
    lemma_view_of_encode(quotient(a@, b@));
}

} // verus!
