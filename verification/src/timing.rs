//! Elapsed time as a binary64 number.

use vstd::prelude::*;

use crate::double;
use crate::double::{Double, Float};

verus! {

/// Nanoseconds in a second.
pub const NANOS_PER_SECOND: u64 = 1_000_000_000;

/// So many nanoseconds in seconds: the whole seconds and the fraction, added up.
pub open spec fn seconds_of(nanos: u64) -> Float {
    double::sum(
        double::of_int((nanos / NANOS_PER_SECOND) as int),
        double::quotient(
            double::of_int((nanos % NANOS_PER_SECOND) as int),
            double::of_int(NANOS_PER_SECOND as int),
        ),
    )
}

/// So many nanoseconds in milliseconds.
pub open spec fn millis_of(nanos: u64) -> Float {
    double::product(seconds_of(nanos), double::of_int(1000))
}

/// So many nanoseconds in seconds.
pub fn seconds(nanos: u64) -> (r: Double)
    ensures
        r@ == seconds_of(nanos),
{
    let whole = Double::from_u64(nanos / NANOS_PER_SECOND);
    let fraction = Double::from_u64(nanos % NANOS_PER_SECOND);
    whole.plus(fraction.over(Double::from_u64(NANOS_PER_SECOND)))
}

/// So many nanoseconds in milliseconds.
pub fn millis(nanos: u64) -> (r: Double)
    ensures
        r@ == millis_of(nanos),
{
    seconds(nanos).times(Double::from_u64(1000))
}

/// So many milliseconds in seconds.
pub open spec fn seconds_of_millis(millis: i64) -> Float {
    double::quotient(double::of_int(millis as int), double::of_int(1000))
}

/// So many milliseconds in seconds.
pub fn millis_to_seconds(millis: i64) -> (r: Double)
    ensures
        r@ == seconds_of_millis(millis),
{
    Double::from_i64(millis).over(Double::from_u64(1000))
}

/// So many milliseconds in seconds are a number.
pub proof fn millis_are_numbers(millis: i64)
    ensures
        seconds_of_millis(millis) !is Nan,
{
    vstd::arithmetic::power2::lemma2_to64_rest();
    vstd::arithmetic::power2::lemma_pow2_pos(1074);
    double::small_integers_are_exact(1000);
    assert(1000 * vstd::arithmetic::power2::pow2(1074) > 0) by (nonlinear_arith)
        requires
            vstd::arithmetic::power2::pow2(1074) > 0,
    ;
}

} // verus!
