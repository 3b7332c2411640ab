//! Intervals of binary32 numbers and the linear map from one onto another.

use crate::arithmetic::{
    equal, lemma_product_with_one, lemma_quotient_of_itself, lemma_sum_commutes,
    lemma_sum_with_zero,
};
use crate::binary32::{
    lemma_divided_by_view, lemma_minus_view, lemma_plus_view, lemma_times_view,
    lemma_view_injective, lemma_view_well_formed, Binary32,
};
use crate::rounding::Value;
use vstd::prelude::*;

verus! {

/// A pair of bounds. The lower bound is conventionally the smaller; nothing
/// enforces it.
#[derive(Clone, Copy, Debug)]
pub struct Interval {
    pub lower_bound: Binary32,
    pub upper_bound: Binary32,
}

impl Interval {
    /// The upper bound less the lower bound, rounded.
    pub open spec fn spec_range(&self) -> Binary32 {
        self.upper_bound.minus(self.lower_bound)
    }

    /// The length of the interval: the upper bound less the lower bound.
    #[verifier::when_used_as_spec(spec_range)]
    pub fn range(&self) -> (length: Binary32)
        ensures
            length == self.spec_range(),
    {
        self.upper_bound.minus(self.lower_bound)
    }
}

/// `value / input.range * output.range + output.lower_bound`, each step
/// rounded. The input's lower bound takes no part.
pub open spec fn spec_scale(value: Binary32, input: Interval, output: Interval) -> Binary32 {
    value.divided_by(input.range()).times(output.range()).plus(output.lower_bound)
}

/// Maps `value` from the input interval onto the output interval, keeping its
/// position relative to the input's length. The value is divided by the
/// input's length as it stands: the input's lower bound is not subtracted
/// first, so the map is the usual one only for an input that starts at zero.
/// An input of length zero divides by zero and gives an infinity or NaN.
#[verifier::when_used_as_spec(spec_scale)]
pub fn scale(value: Binary32, input: Interval, output: Interval) -> (scaled: Binary32)
    ensures
        scaled == spec_scale(value, input, output),
{
    value.divided_by(input.range()).times(output.range()).plus(output.lower_bound)
}

/// Boundary mapping, lower end. For an input interval that starts at zero and
/// has a length that is a number other than zero, and an output interval of
/// finite length, the input's lower bound is mapped to a number equal to the
/// output's lower bound.
pub proof fn lemma_scale_lower_end(input: Interval, output: Interval)
    requires
        input.lower_bound@.is_zero(),
        input.range()@ != Value::Nan,
        !input.range()@.is_zero(),
        output.range()@ is Finite,
    ensures
        equal(scale(input.lower_bound, input, output)@, output.lower_bound@),
{
    let zero = input.lower_bound;
    let length = input.range();
    let ratio = zero.divided_by(length);
    let part = ratio.times(output.range());
    lemma_view_well_formed(zero);
    lemma_view_well_formed(length);
    lemma_view_well_formed(output.lower_bound);
    lemma_view_well_formed(output.upper_bound);
    lemma_view_well_formed(output.range());
    lemma_minus_view(output.upper_bound, output.lower_bound);
    lemma_divided_by_view(zero, length);
    assert(ratio@.is_zero());
    lemma_times_view(ratio, output.range());
    lemma_view_well_formed(ratio);
    assert(part@.is_zero()) by {
        let m = output.range()@->significand;
        assert(0 * m == 0) by (nonlinear_arith);
    }
    lemma_view_well_formed(part);
    lemma_plus_view(part, output.lower_bound);
    lemma_sum_with_zero(part@, output.lower_bound@);
}

/// Boundary mapping, upper end. For an input interval that starts at zero and
/// has a finite length other than zero, and an output interval of finite
/// length, the input's lower bound plus its length is mapped to the output's
/// lower bound plus its length.
pub proof fn lemma_scale_upper_end(input: Interval, output: Interval)
    requires
        input.lower_bound@.is_zero(),
        input.range()@ is Finite,
        !input.range()@.is_zero(),
        output.range()@ is Finite,
    ensures
        scale(input.lower_bound.plus(input.range()), input, output) == output.lower_bound.plus(
            output.range(),
        ),
{
    let zero = input.lower_bound;
    let length = input.range();
    let end = zero.plus(length);
    lemma_view_well_formed(zero);
    lemma_view_well_formed(length);
    lemma_view_well_formed(output.range());
    lemma_plus_view(zero, length);
    lemma_sum_with_zero(zero@, length@);
    lemma_view_injective(end, length);
    let ratio = end.divided_by(length);
    lemma_divided_by_view(length, length);
    lemma_quotient_of_itself(length@);
    let part = ratio.times(output.range());
    lemma_times_view(ratio, output.range());
    lemma_product_with_one(output.range()@);
    lemma_view_injective(part, output.range());
    lemma_sum_commutes(output.range()@, output.lower_bound@);
}

} // verus!
