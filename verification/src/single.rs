//! IEEE 754 binary32 numbers, as bit patterns.
//!
//! A playlist gives segment durations as such numbers. Every finite one is a
//! whole multiple of 2^-149.

use vstd::arithmetic::div_mod::*;
use vstd::arithmetic::power2::*;
use vstd::prelude::*;

use crate::number;
use crate::number::{excess, shifted};

verus! {

/// The exponent of the unit in which binary32 numbers are whole: 2^-149.
pub const SUBUNIT_BITS: u32 = 149;

/// The sign bit of a binary32 pattern.
pub open spec fn is_negative(bits: u32) -> bool {
    bits >= 0x8000_0000
}

/// The eight exponent bits of a binary32 pattern.
pub open spec fn exponent_field(bits: u32) -> int {
    (bits as int / 0x80_0000) % 0x100
}

/// The pattern stands for no number.
pub open spec fn is_nan(bits: u32) -> bool {
    exponent_field(bits) == 255 && bits % 0x80_0000 != 0
}

/// The pattern stands for an infinity.
pub open spec fn is_infinite(bits: u32) -> bool {
    exponent_field(bits) == 255 && bits % 0x80_0000 == 0
}

/// The significand as an integer.
pub open spec fn significand(bits: u32) -> nat {
    if exponent_field(bits) == 0 {
        (bits % 0x80_0000) as nat
    } else {
        (0x80_0000 + bits % 0x80_0000) as nat
    }
}

/// The power of two by which the significand counts units of 2^-149.
pub open spec fn scale(bits: u32) -> nat {
    if exponent_field(bits) == 0 {
        0
    } else {
        (exponent_field(bits) - 1) as nat
    }
}

/// The magnitude of a finite pattern, in units of 2^-149.
pub open spec fn subunits(bits: u32) -> nat {
    significand(bits) * pow2(scale(bits))
}

/// The significand and the scale of a pattern.
pub(crate) fn parts(bits: u32) -> (r: (u64, u32))
    ensures
        r.0 == significand(bits),
        r.1 == scale(bits),
        r.0 < 0x100_0000,
        r.1 < 255,
{
    let exponent: u32 = (bits / 0x80_0000) % 0x100;
    let fraction: u32 = bits % 0x80_0000;
    if exponent == 0 {
        (fraction as u64, 0)
    } else {
        (0x80_0000 + fraction as u64, exponent - 1)
    }
}

// ---------------------------------------------------------------------------
// Milliseconds
// ---------------------------------------------------------------------------

/// Milliseconds are added up in parts of 2^-32 ms.
pub const PARTS_PER_MILLI: u128 = 0x1_0000_0000;

/// The magnitude of a finite pattern times 1000, to the 24 significant bits of
/// a binary32 number, in parts of a millisecond, rounded down.
pub open spec fn magnitude_parts(bits: u32) -> int {
    let product = 1000 * significand(bits);
    let dropped = number::excess_bits(product, 24);
    (number::nearest_even(product as int, pow2(dropped) as int) * pow2(
        scale(bits) + dropped + 32,
    )) / pow2(149) as int
}

/// The milliseconds in a pattern of seconds: the binary32 product with 1000, in
/// parts of a millisecond, held within the milliseconds of `i64`. What is no
/// number gives zero.
pub open spec fn pattern_parts(bits: u32) -> int {
    if is_nan(bits) {
        0
    } else if is_negative(bits) {
        if is_infinite(bits) || magnitude_parts(bits) > 0x8000_0000_0000_0000_0000_0000 {
            -0x8000_0000_0000_0000_0000_0000
        } else {
            -magnitude_parts(bits)
        }
    } else {
        if is_infinite(bits) || magnitude_parts(bits) > 0x7fff_ffff_ffff_ffff_0000_0000 {
            0x7fff_ffff_ffff_ffff_0000_0000
        } else {
            magnitude_parts(bits)
        }
    }
}

/// The milliseconds in a pattern of seconds, in parts of a millisecond.
pub fn milli_parts(bits: u32) -> (r: i128)
    ensures
        r == pattern_parts(bits),
        -0x8000_0000_0000_0000_0000_0000 <= r <= 0x7fff_ffff_ffff_ffff_0000_0000,
{
    let exponent: u32 = (bits / 0x80_0000) % 0x100;
    let negative: bool = bits >= 0x8000_0000;
    let limit: u128 = if negative {
        0x8000_0000_0000_0000_0000_0000
    } else {
        0x7fff_ffff_ffff_ffff_0000_0000
    };
    let (m, k) = parts(bits);
    let magnitude: u128 = if exponent == 255 {
        if bits % 0x80_0000 != 0 {
            0
        } else {
            limit
        }
    } else {
        let product: u128 = 1000 * m as u128;
        let (j, step) = excess(product, 24);
        proof {
            lemma2_to64();
        }
        let q: u128 = product / step;
        let rem: u128 = product % step;
        proof {
            lemma_div_is_ordered_by_denominator(product as int, 1, step as int);
            lemma_div_basics(product as int);
        }
        let v: u64 = if 2 * rem < step || (2 * rem == step && q % 2 == 0) {
            q as u64
        } else {
            q as u64 + 1
        };
        assert(v == number::nearest_even(product as int, step as int));
        proof {
            let shift = (k + j + 32) as nat;
            lemma_pow2_pos(149);
            lemma_pow2_pos(shift);
            assert(v * pow2(shift) >= 0) by (nonlinear_arith)
                requires
                    v >= 0,
                    pow2(shift) > 0,
            ;
            lemma_div_pos_is_pos(v * pow2(shift), pow2(149) as int);
        }
        match shifted(v, k + j + 32, SUBUNIT_BITS) {
            Some(n) => if n <= limit {
                n
            } else {
                limit
            },
            None => limit,
        }
    };
    if negative {
        -(magnitude as i128)
    } else {
        magnitude as i128
    }
}

} // verus!
