//! IEEE 754 binary64 numbers, computed with integers.
//!
//! A number is its bit pattern. Every finite one is a whole multiple of 2^-1074,
//! and each operation gives the representable number that is nearest to the exact
//! result, a tie going to the even significand.

use vstd::arithmetic::div_mod::*;
use vstd::arithmetic::mul::*;
use vstd::arithmetic::power2::*;
use vstd::prelude::*;

use crate::number;
use crate::number::{excess, power_of_two};
use crate::single;
use crate::text;
use crate::text::{digit, push_decimal, push_decimals, push_digits};

verus! {

// ---------------------------------------------------------------------------
// Values
// ---------------------------------------------------------------------------

/// A binary64 number, as its bit pattern.
#[derive(Debug, Clone, Copy, PartialEq, Eq, Structural)]
pub struct Double {
    pub bits: u64,
}

/// What a binary64 number stands for: a finite one for so many units of 2^-1074.
pub enum Float {
    Nan,
    Infinite { negative: bool },
    Finite { negative: bool, units: nat },
}

/// The eleven exponent bits of a pattern.
pub open spec fn exponent_field(bits: u64) -> int {
    (bits as int / 0x10_0000_0000_0000) % 0x800
}

/// The significand of a finite pattern.
pub open spec fn significand(bits: u64) -> nat {
    let fraction = (bits as int % 0x10_0000_0000_0000) as nat;
    if exponent_field(bits) == 0 {
        fraction
    } else {
        0x10_0000_0000_0000 + fraction
    }
}

/// The power of two that scales the significand, in units.
pub open spec fn scale(bits: u64) -> nat {
    if exponent_field(bits) == 0 {
        0
    } else {
        (exponent_field(bits) - 1) as nat
    }
}

/// Zero, without a minus sign.
pub open spec fn zero() -> Float {
    Float::Finite { negative: false, units: 0 }
}

impl View for Double {
    type V = Float;

    open spec fn view(&self) -> Float {
        let negative = self.bits >= 0x8000_0000_0000_0000;
        if exponent_field(self.bits) == 0x7ff {
            if self.bits as int % 0x10_0000_0000_0000 == 0 {
                Float::Infinite { negative }
            } else {
                Float::Nan
            }
        } else {
            Float::Finite {
                negative,
                units: significand(self.bits) * pow2(scale(self.bits)),
            }
        }
    }
}

/// The number nearest to `num` / `den` units, to 53 significant bits; a tie goes
/// to the even significand, and what is too large is infinite.
pub open spec fn round(negative: bool, num: nat, den: nat) -> Float {
    let step = pow2(number::excess_bits(num / den, 53));
    let units = number::nearest_even(num as int, (den * step) as int) * step;
    if units >= pow2(2098) {
        Float::Infinite { negative }
    } else {
        Float::Finite { negative, units: units as nat }
    }
}

/// A finite number of units with its sign.
pub open spec fn signed(negative: bool, units: nat) -> int {
    if negative {
        -(units as int)
    } else {
        units as int
    }
}

/// The number nearest to so many units; `negative` is the sign of a zero.
pub open spec fn round_signed(negative: bool, units: int) -> Float {
    if units < 0 {
        round(true, (-units) as nat, 1)
    } else if units > 0 {
        round(false, units as nat, 1)
    } else {
        Float::Finite { negative, units: 0 }
    }
}

// ---------------------------------------------------------------------------
// Taking patterns apart and putting them together
// ---------------------------------------------------------------------------

/// The significand and the scale of a pattern.
fn parts(d: Double) -> (r: (u64, u32))
    ensures
        r.0 == significand(d.bits),
        r.1 == scale(d.bits),
        r.0 < 0x20_0000_0000_0000,
        r.1 <= 0x7fe,
        r.1 > 0 ==> r.0 >= 0x10_0000_0000_0000,
        exponent_field(d.bits) != 0x7ff ==> r.1 <= 2045,
{
    let exponent: u64 = (d.bits / 0x10_0000_0000_0000) % 0x800;
    let fraction: u64 = d.bits % 0x10_0000_0000_0000;
    if exponent == 0 {
        (fraction, 0)
    } else {
        (0x10_0000_0000_0000 + fraction, exponent as u32 - 1)
    }
}

/// The finite number with this significand and scale.
fn pack(negative: bool, significand: u64, scale: u32) -> (r: Double)
    requires
        significand < 0x20_0000_0000_0000,
        scale > 0 ==> significand >= 0x10_0000_0000_0000,
        scale <= 2045,
    ensures
        r@ == (Float::Finite { negative, units: significand as nat * pow2(scale as nat) }),
{
    let magnitude: u64 = scale as u64 * 0x10_0000_0000_0000 + significand;
    let bits: u64 = if negative {
        0x8000_0000_0000_0000 + magnitude
    } else {
        magnitude
    };
    let r = Double { bits };
    proof {
        let field = if significand >= 0x10_0000_0000_0000 {
            scale + 1
        } else {
            0
        };
        assert(magnitude as int / 0x10_0000_0000_0000 == field);
        assert(exponent_field(bits) == field);
        assert(crate::double::significand(bits) == significand);
        assert(crate::double::scale(bits) == scale);
    }
    r
}

impl Double {
    /// What is no number.
    pub fn nan() -> (r: Double)
        ensures
            r@ == Float::Nan,
    {
        Double { bits: 0x7ff8_0000_0000_0000 }
    }

    /// Infinity.
    pub fn infinity(negative: bool) -> (r: Double)
        ensures
            r@ == (Float::Infinite { negative }),
    {
        if negative {
            Double { bits: 0xfff0_0000_0000_0000 }
        } else {
            Double { bits: 0x7ff0_0000_0000_0000 }
        }
    }

    /// Zero.
    pub fn zero(negative: bool) -> (r: Double)
        ensures
            r@ == (Float::Finite { negative, units: 0 }),
    {
        let r = pack(negative, 0, 0);
        assert(0nat * pow2(0) == 0);
        r
    }
}

// ---------------------------------------------------------------------------
// Rounding
// ---------------------------------------------------------------------------

/// `num` / `den`, doubled, lies between `m` * 2^`t` and (`m` + 1) * 2^`t`, and is
/// more than the first exactly if `more`.
spec fn brackets(num: nat, den: nat, m: nat, t: nat, more: bool) -> bool {
    let unit = den * pow2(t);
    let rest = 2 * num - unit * m;
    0 <= rest < unit && (more <==> rest != 0)
}

/// The number of excess bits is determined by the range.
proof fn lemma_excess_is(v: nat, e: nat)
    requires
        (e == 0 && v < pow2(53)) || (pow2(53) * pow2(e) <= 2 * v && v < pow2(53) * pow2(e)),
    ensures
        number::excess_bits(v, 53) == e,
{
    let x = number::excess_bits(v, 53);
    number::lemma_excess(v, 53);
    lemma_pow2_pos(53);
    lemma2_to64();
    assert(pow2(53) * pow2(0) == pow2(53)) by (nonlinear_arith)
        requires
            pow2(0) == 1,
    ;
    if x < e {
        lemma_pow2_unfold(e);
        if x < e - 1 {
            lemma_pow2_strictly_increases(x, (e - 1) as nat);
        }
        assert(2 * (pow2(53) * pow2(x)) <= pow2(53) * pow2(e)) by (nonlinear_arith)
            requires
                2 * pow2(x) <= pow2(e),
        ;
    } else if x > e {
        lemma_pow2_unfold(x);
        if e < x - 1 {
            lemma_pow2_strictly_increases(e, (x - 1) as nat);
        }
        assert(2 * (pow2(53) * pow2(e)) <= pow2(53) * pow2(x)) by (nonlinear_arith)
            requires
                2 * pow2(e) <= pow2(x),
        ;
    }
}

/// Rounding, from the bracket that holds the exact value: `k` and `low` are the
/// quotient and the remainder of `m` by 2^(`c` + 1).
proof fn lemma_rounding(
    num: nat,
    den: nat,
    m: nat,
    t: nat,
    more: bool,
    c: nat,
    k: nat,
    low: nat,
)
    requires
        den > 0,
        brackets(num, den, m, t, more),
        c == number::excess_bits(m / 2, 53),
        m == k * (2 * pow2(c)) + low,
        low < 2 * pow2(c),
        t > 0 ==> m >= 0x40_0000_0000_0000,
    ensures
        number::excess_bits(num / den, 53) == c + t,
        number::nearest_even(num as int, (den * pow2(c + t)) as int) == if low > pow2(c) || (low
            == pow2(c) && (more || k % 2 == 1)) {
            k + 1
        } else {
            k
        },
        k < 0x20_0000_0000_0000,
        c + t > 0 ==> k >= 0x10_0000_0000_0000,
{
    let p = pow2(c) as int;
    let w = pow2(t) as int;
    let unit = den * w;
    let rest = 2 * num - unit * m;
    lemma_pow2_pos(c);
    lemma_pow2_pos(t);
    lemma_pow2_adds(c, t);
    lemma2_to64();
    lemma2_to64_rest();
    number::lemma_excess(m / 2, 53);
    assert(unit > 0) by (nonlinear_arith)
        requires
            den > 0,
            w > 0,
            unit == den * w,
    ;
    // The quotient and twice the remainder.
    let step = den * pow2(c + t);
    assert(step == p * unit) by (nonlinear_arith)
        requires
            step == den * (p * w),
            unit == den * w,
    ;
    let twice = unit * low + rest;
    assert(2 * num == 2 * (step * k) + twice) by (nonlinear_arith)
        requires
            2 * num == unit * m + rest,
            m == k * (2 * p) + low,
            step == p * unit,
            twice == unit * low + rest,
    ;
    assert(0 <= twice < 2 * step) by (nonlinear_arith)
        requires
            twice == unit * low + rest,
            0 <= rest < unit,
            0 <= low <= 2 * p - 1,
            step == p * unit,
    ;
    let remainder = num - step * k;
    assert(2 * remainder == twice);
    lemma_mul_is_commutative(step as int, k as int);
    lemma_fundamental_div_mod_converse(num as int, step as int, k as int, remainder);
    assert((twice < step <==> low < p) && (twice == step <==> low == p && rest == 0))
        by (nonlinear_arith)
        requires
            twice == unit * low + rest,
            0 <= rest < unit,
            step == p * unit,
            low >= 0,
    ;
    // The leading bits.
    let half = m / 2;
    let q = num / den;
    lemma_fundamental_div_mod(num as int, den as int);
    lemma_mod_bound(num as int, den as int);
    assert(k < 0x20_0000_0000_0000) by (nonlinear_arith)
        requires
            half < 0x20_0000_0000_0000 * p,
            m <= 2 * half + 1,
            m == k * (2 * p) + low,
            low >= 0,
            p > 0,
    ;
    if c > 0 {
        assert(k >= 0x10_0000_0000_0000) by (nonlinear_arith)
            requires
                2 * half >= 0x20_0000_0000_0000 * p,
                m >= 2 * half,
                m == k * (2 * p) + low,
                low < 2 * p,
                p > 0,
        ;
    }
    if t > 0 && c == 0 {
        assert(half >= 0x20_0000_0000_0000);
        assert(false);
    }
    // k * 2^(c + t) <= num / den < (k + 1) * 2^(c + t)
    let big = p * w;
    lemma_mul_strictly_positive(p, w);
    assert(k * big <= q && q < (k + 1) * big) by (nonlinear_arith)
        requires
            num == den * q + num as int % den as int,
            0 <= num as int % den as int,
            (num as int % den as int) < den,
            num == step * k + remainder,
            0 <= remainder < step,
            step == den * big,
            den > 0,
    ;
    if c + t > 0 {
        assert(0x20_0000_0000_0000 * big <= 2 * q && q < 0x20_0000_0000_0000 * big)
            by (nonlinear_arith)
            requires
                k * big <= q,
                q < (k + 1) * big,
                0x10_0000_0000_0000 <= k < 0x20_0000_0000_0000,
                big > 0,
        ;
    } else {
        assert(big == 1) by (nonlinear_arith)
            requires
                p == 1,
                w == 1,
                big == p * w,
        ;
        assert(q < 0x20_0000_0000_0000);
    }
    lemma_excess_is(q, c + t);
}

/// The number nearest to `num` / `den` units, of which a bracket is known.
fn settle(
    negative: bool,
    m: u128,
    t: u32,
    more: bool,
    Ghost(num): Ghost<nat>,
    Ghost(den): Ghost<nat>,
) -> (r: Double)
    requires
        den > 0,
        m < 0x4000_0000_0000_0000_0000_0000_0000_0000,
        t <= 10_000,
        brackets(num, den, m as nat, t as nat, more),
        more ==> t == 0 || m >= 0x40_0000_0000_0000,
    ensures
        r@ == round(negative, num, den),
{
    let mut m: u128 = m;
    let mut t: u32 = t;
    while t > 0 && m < 0x40_0000_0000_0000
        invariant
            den > 0,
            m < 0x4000_0000_0000_0000_0000_0000_0000_0000,
            t <= 10_000,
            brackets(num, den, m as nat, t as nat, more),
            more ==> t == 0 || m >= 0x40_0000_0000_0000,
        decreases t,
    {
        proof {
            lemma_pow2_unfold(t as nat);
            lemma_pow2_pos((t - 1) as nat);
            let w = pow2((t - 1) as nat) as int;
            assert((den * (2 * w)) * m == (den * w) * (2 * m)) by (nonlinear_arith);
            assert(den * w > 0) by (nonlinear_arith)
                requires
                    den > 0,
                    w > 0,
            ;
        }
        m = 2 * m;
        t = t - 1;
    }
    let (c, step) = excess(m / 2, 53);
    proof {
        number::lemma_pow2_128();
        lemma2_to64();
        lemma2_to64_rest();
    }
    let whole: u128 = 2 * step;
    let k: u128 = m / whole;
    let low: u128 = m % whole;
    proof {
        lemma_fundamental_div_mod(m as int, whole as int);
        lemma_mul_is_commutative(whole as int, k as int);
        lemma_rounding(num, den, m as nat, t as nat, more, c as nat, k as nat, low as nat);
        lemma_pow2_pos((c + t) as nat);
    }
    let up: bool = low > step || (low == step && (more || k % 2 == 1));
    let mut significand: u64 = if up {
        k as u64 + 1
    } else {
        k as u64
    };
    let mut scale: u32 = c + t;
    let ghost units = significand * pow2(scale as nat);
    if significand == 0x20_0000_0000_0000 {
        proof {
            lemma_pow2_unfold((scale + 1) as nat);
            assert(0x20_0000_0000_0000 * pow2(scale as nat) == 0x10_0000_0000_0000 * pow2(
                (scale + 1) as nat,
            ));
        }
        significand = 0x10_0000_0000_0000;
        scale = scale + 1;
    }
    assert(units == significand * pow2(scale as nat));
    proof {
        lemma_pow2_adds(52, 2046);
        lemma_pow2_adds(53, 2045);
    }
    if scale > 2045 {
        proof {
            if scale > 2046 {
                lemma_pow2_strictly_increases(2046, scale as nat);
            }
            assert(units >= pow2(2098)) by (nonlinear_arith)
                requires
                    units == significand * pow2(scale as nat),
                    significand >= 0x10_0000_0000_0000,
                    pow2(scale as nat) >= pow2(2046),
                    0x10_0000_0000_0000 * pow2(2046) == pow2(2098),
            ;
        }
        Double::infinity(negative)
    } else {
        proof {
            if scale < 2045 {
                lemma_pow2_strictly_increases(scale as nat, 2045);
            }
            lemma_pow2_pos(scale as nat);
            assert(units < pow2(2098)) by (nonlinear_arith)
                requires
                    units == significand * pow2(scale as nat),
                    significand < 0x20_0000_0000_0000,
                    0 < pow2(scale as nat) <= pow2(2045),
                    0x20_0000_0000_0000 * pow2(2045) == pow2(2098),
            ;
        }
        pack(negative, significand, scale)
    }
}

// ---------------------------------------------------------------------------
// Conversions
// ---------------------------------------------------------------------------

/// The number nearest to `n`.
pub open spec fn of_int(n: int) -> Float {
    round_signed(false, n * pow2(1074))
}

/// The number of a binary32 pattern.
pub open spec fn of_single(bits: u32) -> Float {
    if single::is_nan(bits) {
        Float::Nan
    } else if single::is_infinite(bits) {
        Float::Infinite { negative: single::is_negative(bits) }
    } else {
        Float::Finite {
            negative: single::is_negative(bits),
            units: single::subunits(bits) * pow2(925),
        }
    }
}

/// Numbers of at most 53 significant bits are their own rounding.
proof fn lemma_representable(negative: bool, m: nat, e: nat)
    requires
        m <= pow2(53),
        e <= 2044,
    ensures
        round(negative, m * pow2(e), 1) == (Float::Finite { negative, units: m * pow2(e) }),
{
    let n = m * pow2(e);
    let c = number::excess_bits(n, 53);
    let step = pow2(c) as int;
    lemma_pow2_pos(e);
    lemma_pow2_pos(c);
    lemma_pow2_pos(53);
    number::lemma_excess(n, 53);
    lemma2_to64();
    lemma2_to64_rest();
    assert(n / 1 == n);
    assert(n >= 0 && n <= pow2(53) * pow2(e)) by (nonlinear_arith)
        requires
            n == m * pow2(e),
            0 <= m <= pow2(53),
            pow2(e) > 0,
    ;
    lemma_pow2_adds(53, e);
    lemma_pow2_strictly_increases(53 + e, 2098);
    if c <= e {
        lemma_pow2_adds((e - c) as nat, c);
        lemma_mul_is_associative(m as int, pow2((e - c) as nat) as int, step);
        assert(m * pow2((e - c) as nat) >= 0) by (nonlinear_arith);
        number::lemma_exact((m * pow2((e - c) as nat)) as int, step);
    } else {
        // Only the power of two itself has an excess of one more bit.
        lemma_pow2_unfold(c);
        if c > e + 1 {
            lemma_pow2_strictly_increases((e + 1) as nat, c);
        }
        lemma_pow2_unfold((e + 1) as nat);
        assert(2 * n >= 2 * (pow2(53) * pow2(e))) by (nonlinear_arith)
            requires
                2 * n >= pow2(53) * pow2(c),
                pow2(c) >= 2 * pow2(e),
        ;
        assert(c == e + 1) by {
            if c > e + 1 {
                assert(pow2(53) * pow2(c) > 2 * (pow2(53) * pow2(e))) by (nonlinear_arith)
                    requires
                        pow2(c) > 2 * pow2(e),
                        pow2(53) > 0,
                ;
            }
        }
        lemma_pow2_unfold(53);
        assert(n == pow2(52) * step) by (nonlinear_arith)
            requires
                n == pow2(53) * pow2(e),
                pow2(53) == 2 * pow2(52),
                step == 2 * pow2(e),
        ;
        number::lemma_exact(pow2(52) as int, step);
    }
}

impl Double {
    /// The number nearest to `n`.
    pub fn from_integer(negative: bool, n: u128) -> (r: Double)
        requires
            n < 0x4000_0000_0000_0000_0000_0000_0000_0000,
        ensures
            r@ == round(negative, n as nat * pow2(1074), 1),
    {
        proof {
            lemma_pow2_unfold(1075);
            lemma_pow2_pos(1074);
            assert(2 * (n * pow2(1074)) == (1 * pow2(1075)) * n) by (nonlinear_arith)
                requires
                    pow2(1075) == 2 * pow2(1074),
            ;
        }
        settle(negative, n, 1075, false, Ghost(n as nat * pow2(1074)), Ghost(1))
    }

    /// The number nearest to `n`.
    pub fn from_u64(n: u64) -> (r: Double)
        ensures
            r@ == of_int(n as int),
    {
        proof {
            lemma_pow2_pos(1074);
            assert(n > 0 ==> n * pow2(1074) > 0) by (nonlinear_arith)
                requires
                    pow2(1074) > 0,
            ;
            assert(0 * pow2(1074) == 0);
            lemma_representable(false, 0, 1074);
        }
        Double::from_integer(false, n as u128)
    }

    /// The number nearest to `n`.
    pub fn from_i64(n: i64) -> (r: Double)
        ensures
            r@ == of_int(n as int),
    {
        if n >= 0 {
            Double::from_u64(n as u64)
        } else {
            let magnitude: u128 = (-(n + 1)) as u128 + 1;
            proof {
                lemma_pow2_pos(1074);
                assert(n * pow2(1074) < 0 && -(n * pow2(1074)) == (-n) * pow2(1074))
                    by (nonlinear_arith)
                    requires
                        n < 0,
                        pow2(1074) > 0,
                ;
            }
            Double::from_integer(true, magnitude)
        }
    }

    /// The number of a binary32 pattern.
    pub fn from_single(bits: u32) -> (r: Double)
        ensures
            r@ == of_single(bits),
    {
        let exponent: u32 = (bits / 0x80_0000) % 0x100;
        let negative: bool = bits >= 0x8000_0000;
        if exponent == 255 {
            return if bits % 0x80_0000 != 0 {
                Double::nan()
            } else {
                Double::infinity(negative)
            };
        }
        let (m, k) = single::parts(bits);
        let ghost num = m as nat * pow2((k + 925) as nat);
        proof {
            lemma_pow2_unfold((k + 926) as nat);
            lemma_pow2_pos((k + 926) as nat);
            lemma_pow2_adds(k as nat, 925);
            lemma_mul_is_associative(m as int, pow2(k as nat) as int, pow2(925) as int);
            assert(2 * num == (1 * pow2((k + 926) as nat)) * m) by (nonlinear_arith)
                requires
                    num == m * pow2((k + 925) as nat),
                    pow2((k + 926) as nat) == 2 * pow2((k + 925) as nat),
            ;
            lemma2_to64();
            lemma2_to64_rest();
            lemma_representable(negative, m as nat, (k + 925) as nat);
        }
        settle(negative, m as u128, k + 926, false, Ghost(num), Ghost(1))
    }
}

// ---------------------------------------------------------------------------
// Signs and order
// ---------------------------------------------------------------------------

/// The number with the opposite sign.
pub open spec fn negate(a: Float) -> Float {
    match a {
        Float::Nan => Float::Nan,
        Float::Infinite { negative } => Float::Infinite { negative: !negative },
        Float::Finite { negative, units } => Float::Finite { negative: !negative, units },
    }
}

/// The number without its sign.
pub open spec fn magnitude(a: Float) -> Float {
    match a {
        Float::Nan => Float::Nan,
        Float::Infinite { negative } => Float::Infinite { negative: false },
        Float::Finite { negative, units } => Float::Finite { negative: false, units },
    }
}

/// Where a number stands on the line; infinity lies beyond all others.
pub open spec fn place(a: Float) -> int {
    match a {
        Float::Nan => 0,
        Float::Infinite { negative } => signed(negative, pow2(2098)),
        Float::Finite { negative, units } => signed(negative, units),
    }
}

/// `a` is less than `b`; what is no number is neither less nor greater.
pub open spec fn less(a: Float, b: Float) -> bool {
    a !is Nan && b !is Nan && place(a) < place(b)
}

/// The greater of two numbers; a number rather than none.
pub open spec fn greater_of(a: Float, b: Float) -> Float {
    if a is Nan || less(a, b) {
        b
    } else {
        a
    }
}

/// The lesser of two numbers; a number rather than none.
pub open spec fn lesser_of(a: Float, b: Float) -> Float {
    if a is Nan || less(b, a) {
        b
    } else {
        a
    }
}

/// The units of a finite pattern are less than 2^2098.
proof fn lemma_units_bound(bits: u64)
    requires
        exponent_field(bits) != 0x7ff,
    ensures
        significand(bits) * pow2(scale(bits)) < pow2(2098),
{
    lemma2_to64();
    lemma2_to64_rest();
    lemma_pow2_adds(53, 2045);
    lemma_pow2_pos(scale(bits));
    if scale(bits) < 2045 {
        lemma_pow2_strictly_increases(scale(bits), 2045);
    }
    assert(significand(bits) * pow2(scale(bits)) < 0x20_0000_0000_0000 * pow2(2045))
        by (nonlinear_arith)
        requires
            0 <= significand(bits) < 0x20_0000_0000_0000,
            0 < pow2(scale(bits)) <= pow2(2045),
    ;
}

/// Of two finite magnitudes the one with the lesser pattern is the lesser.
proof fn lemma_patterns_are_ordered(a: u64, b: u64)
    requires
        a < b < 0x7ff0_0000_0000_0000,
    ensures
        significand(a) * pow2(scale(a)) < significand(b) * pow2(scale(b)),
{
    lemma_pow2_pos(scale(a));
    lemma_pow2_pos(scale(b));
    assert(exponent_field(a) <= exponent_field(b));
    if scale(a) == scale(b) {
        assert(significand(a) < significand(b));
        assert(significand(a) * pow2(scale(a)) < significand(b) * pow2(scale(b)))
            by (nonlinear_arith)
            requires
                significand(a) < significand(b),
                pow2(scale(a)) == pow2(scale(b)),
                pow2(scale(a)) > 0,
        ;
    } else {
        lemma_pow2_unfold(scale(b));
        if scale(a) < scale(b) - 1 {
            lemma_pow2_strictly_increases(scale(a), (scale(b) - 1) as nat);
        }
        assert(significand(a) * pow2(scale(a)) < significand(b) * pow2(scale(b)))
            by (nonlinear_arith)
            requires
                0 <= significand(a) < 0x20_0000_0000_0000,
                significand(b) >= 0x10_0000_0000_0000,
                2 * pow2(scale(a)) <= pow2(scale(b)),
                pow2(scale(a)) > 0,
        ;
    }
}

impl Double {
    /// Is this no number?
    pub fn is_nan(self) -> (r: bool)
        ensures
            r == (self@ is Nan),
    {
        (self.bits / 0x10_0000_0000_0000) % 0x800 == 0x7ff && self.bits % 0x10_0000_0000_0000 != 0
    }

    /// The number with the opposite sign.
    pub fn neg(self) -> (r: Double)
        ensures
            r@ == negate(self@),
    {
        let r = if self.bits >= 0x8000_0000_0000_0000 {
            Double { bits: self.bits - 0x8000_0000_0000_0000 }
        } else {
            Double { bits: self.bits + 0x8000_0000_0000_0000 }
        };
        assert(exponent_field(r.bits) == exponent_field(self.bits));
        assert(r.bits as int % 0x10_0000_0000_0000 == self.bits as int % 0x10_0000_0000_0000);
        r
    }

    /// The number without its sign.
    pub fn abs(self) -> (r: Double)
        ensures
            r@ == magnitude(self@),
    {
        if self.bits >= 0x8000_0000_0000_0000 {
            self.neg()
        } else {
            self
        }
    }

    /// Is this number less than `other`?
    pub fn less_than(self, other: Double) -> (r: bool)
        ensures
            r == less(self@, other@),
    {
        if self.is_nan() || other.is_nan() {
            return false;
        }
        let a: u64 = self.bits % 0x8000_0000_0000_0000;
        let b: u64 = other.bits % 0x8000_0000_0000_0000;
        let left: bool = self.bits >= 0x8000_0000_0000_0000;
        let right: bool = other.bits >= 0x8000_0000_0000_0000;
        proof {
            lemma_pow2_pos(2098);
            lemma_magnitude(self);
            lemma_magnitude(other);
            lemma_magnitudes_are_ordered(a, b);
            lemma_magnitudes_are_ordered(b, a);
        }
        if left {
            if right {
                b < a
            } else {
                a != 0 || b != 0
            }
        } else {
            !right && a < b
        }
    }

    /// The greater of two numbers; a number rather than none.
    pub fn max(self, other: Double) -> (r: Double)
        ensures
            r@ == greater_of(self@, other@),
    {
        if self.is_nan() || self.less_than(other) {
            other
        } else {
            self
        }
    }

    /// The lesser of two numbers; a number rather than none.
    pub fn min(self, other: Double) -> (r: Double)
        ensures
            r@ == lesser_of(self@, other@),
    {
        if self.is_nan() || other.less_than(self) {
            other
        } else {
            self
        }
    }
}

/// How far from zero a pattern without its sign stands.
spec fn distance(bits: u64) -> nat {
    if bits >= 0x7ff0_0000_0000_0000 {
        pow2(2098)
    } else {
        significand(bits) * pow2(scale(bits))
    }
}

proof fn lemma_magnitude(d: Double)
    requires
        d@ !is Nan,
    ensures
        ({
            let m = (d.bits % 0x8000_0000_0000_0000) as u64;
            &&& m <= 0x7ff0_0000_0000_0000
            &&& place(d@) == signed(d.bits >= 0x8000_0000_0000_0000, distance(m))
        }),
{
    let m = (d.bits % 0x8000_0000_0000_0000) as u64;
    assert(exponent_field(m) == exponent_field(d.bits));
    assert(m as int % 0x10_0000_0000_0000 == d.bits as int % 0x10_0000_0000_0000);
}

proof fn lemma_magnitudes_are_ordered(a: u64, b: u64)
    requires
        a <= 0x7ff0_0000_0000_0000,
        b <= 0x7ff0_0000_0000_0000,
    ensures
        a < b ==> distance(a) < distance(b),
        a == 0 ==> distance(a) == 0,
        a > 0 ==> distance(a) > 0,
{
    lemma_pow2_pos(2098);
    assert(0 * pow2(0) == 0);
    if a < b {
        if b < 0x7ff0_0000_0000_0000 {
            lemma_patterns_are_ordered(a, b);
        } else {
            lemma_units_bound(a);
        }
    }
    if 0 < a < 0x7ff0_0000_0000_0000 {
        lemma_patterns_are_ordered(0, a);
    }
}

// ---------------------------------------------------------------------------
// Arithmetic
// ---------------------------------------------------------------------------

/// The sum of two numbers. A zero is negative only if both are.
pub open spec fn sum(a: Float, b: Float) -> Float {
    match (a, b) {
        (Float::Nan, _) => Float::Nan,
        (_, Float::Nan) => Float::Nan,
        (Float::Infinite { negative: x }, Float::Infinite { negative: y }) => if x == y {
            a
        } else {
            Float::Nan
        },
        (Float::Infinite { negative }, _) => a,
        (_, Float::Infinite { negative }) => b,
        (
            Float::Finite { negative: x, units: u },
            Float::Finite { negative: y, units: v },
        ) => round_signed(x && y, signed(x, u) + signed(y, v)),
    }
}

/// The difference of two numbers.
pub open spec fn difference(a: Float, b: Float) -> Float {
    sum(a, negate(b))
}

/// The product of two numbers.
pub open spec fn product(a: Float, b: Float) -> Float {
    match (a, b) {
        (Float::Nan, _) => Float::Nan,
        (_, Float::Nan) => Float::Nan,
        (
            Float::Finite { negative: x, units: u },
            Float::Finite { negative: y, units: v },
        ) => round(x != y, u * v, pow2(1074)),
        (Float::Infinite { negative: x }, Float::Infinite { negative: y }) => Float::Infinite {
            negative: x != y,
        },
        (Float::Infinite { negative: x }, Float::Finite { negative: y, units }) => if units == 0 {
            Float::Nan
        } else {
            Float::Infinite { negative: x != y }
        },
        (Float::Finite { negative: x, units }, Float::Infinite { negative: y }) => if units == 0 {
            Float::Nan
        } else {
            Float::Infinite { negative: x != y }
        },
    }
}

/// The quotient of two numbers.
pub open spec fn quotient(a: Float, b: Float) -> Float {
    match (a, b) {
        (Float::Nan, _) => Float::Nan,
        (_, Float::Nan) => Float::Nan,
        (Float::Infinite { negative: x }, Float::Infinite { negative: y }) => Float::Nan,
        (Float::Infinite { negative: x }, Float::Finite { negative: y, units }) => Float::Infinite {
            negative: x != y,
        },
        (Float::Finite { negative: x, units }, Float::Infinite { negative: y }) => Float::Finite {
            negative: x != y,
            units: 0,
        },
        (
            Float::Finite { negative: x, units: u },
            Float::Finite { negative: y, units: v },
        ) => if v == 0 {
            if u == 0 {
                Float::Nan
            } else {
                Float::Infinite { negative: x != y }
            }
        } else {
            round(x != y, u * pow2(1074), v)
        },
    }
}

/// The sum or the difference of two magnitudes, the first of which has at least
/// the scale of the second.
fn combine(negative: bool, a: u64, ka: u32, opposite: bool, b: u64, kb: u32) -> (r: Double)
    requires
        a < 0x20_0000_0000_0000,
        b < 0x20_0000_0000_0000,
        kb <= ka <= 2045,
        ka > 0 ==> a >= 0x10_0000_0000_0000,
    ensures
        ({
            let u = a as nat * pow2(ka as nat);
            let v = b as nat * pow2(kb as nat);
            let x = if opposite {
                u - v
            } else {
                u + v as int
            };
            r@ == if x == 0 {
                Float::Finite { negative: false, units: 0 }
            } else {
                round_signed(
                    false,
                    if negative {
                        -x
                    } else {
                        x
                    },
                )
            }
        }),
{
    let gap: u32 = ka - kb;
    let ghost u = a as nat * pow2(ka as nat);
    let ghost v = b as nat * pow2(kb as nat);
    let ghost base = pow2(kb as nat) as int;
    proof {
        lemma_pow2_pos(kb as nat);
        lemma_pow2_pos(ka as nat);
        lemma_pow2_pos(gap as nat);
        lemma_pow2_adds(gap as nat, kb as nat);
        lemma_pow2_unfold((kb + 1) as nat);
        lemma_mul_is_associative(a as int, pow2(gap as nat) as int, base);
    }
    if gap < 72 {
        let p: u128 = power_of_two(gap);
        proof {
            lemma_pow2_adds(53, 71);
            lemma_pow2_unfold(125);
            number::lemma_pow2_128();
            lemma2_to64();
            lemma2_to64_rest();
            lemma_pow2_adds(61, 64);
            lemma_pow2_adds(60, 64);
            if gap < 71 {
                lemma_pow2_strictly_increases(gap as nat, 71);
            }
            assert(0 <= a * p < pow2(53) * pow2(71)) by (nonlinear_arith)
                requires
                    0 <= a < 0x20_0000_0000_0000,
                    pow2(53) == 0x20_0000_0000_0000,
                    0 < p <= pow2(71),
            ;
        }
        let high: u128 = a as u128 * p;
        let low: u128 = b as u128;
        let (m, flipped) = if !opposite {
            (high + low, false)
        } else if high >= low {
            (high - low, false)
        } else {
            (low - high, true)
        };
        if m == 0 {
            proof {
                assert(u == high * base && v == low * base);
                if !opposite {
                    assert(0 * base == 0);
                } else {
                    assert(u == v);
                }
            }
            return Double::zero(false);
        }
        let ghost num = m as nat * pow2(kb as nat);
        proof {
            assert(2 * num == (1 * pow2((kb + 1) as nat)) * m) by (nonlinear_arith)
                requires
                    num == m * base,
                    pow2((kb + 1) as nat) == 2 * base,
            ;
            assert((high + low) * base == high * base + low * base) by (nonlinear_arith);
            assert((high - low) * base == high * base - low * base) by (nonlinear_arith);
            assert((low - high) * base == low * base - high * base) by (nonlinear_arith);
            assert(num > 0) by (nonlinear_arith)
                requires
                    num == m * base,
                    m > 0,
                    base > 0,
            ;
            lemma_pow2_pos((kb + 1) as nat);
        }
        settle(negative != flipped, m, kb + 1, false, Ghost(num), Ghost(1))
    } else {
        let more: bool = b != 0;
        let shifted: u128 = a as u128 * 0x8_0000;
        let m: u128 = if opposite && more {
            shifted - 1
        } else {
            shifted
        };
        let t: u32 = ka - 18;
        let ghost unit = pow2(t as nat) as int;
        let ghost num = if opposite {
            (u - v) as nat
        } else {
            u + v
        };
        proof {
            lemma2_to64();
            lemma2_to64_rest();
            lemma_pow2_pos(t as nat);
            // u is a multiple of half the unit, and v is less than that.
            lemma_pow2_adds(19, (ka - 19) as nat);
            lemma_pow2_unfold(t as nat);
            let half = pow2((ka - 19) as nat) as int;
            assert(2 * u == unit * shifted) by (nonlinear_arith)
                requires
                    u == a * (0x8_0000 * half),
                    unit == 2 * half,
                    shifted == a * 0x8_0000,
            ;
            lemma_pow2_adds(53, kb as nat);
            if 53 + kb < ka - 19 {
                lemma_pow2_strictly_increases((53 + kb) as nat, (ka - 19) as nat);
            }
            assert(0 <= v < 0x20_0000_0000_0000 * base) by (nonlinear_arith)
                requires
                    v == b * base,
                    0 <= b < 0x20_0000_0000_0000,
                    base > 0,
            ;
            assert(b != 0 ==> v > 0) by (nonlinear_arith)
                requires
                    v == b * base,
                    base > 0,
                    b >= 0,
            ;
            assert(b == 0 ==> v == 0) by (nonlinear_arith)
                requires
                    v == b * base,
            ;
            assert(2 * v < unit);
            assert(u > v) by (nonlinear_arith)
                requires
                    2 * u == unit * shifted,
                    shifted >= 1,
                    2 * v < unit,
                    unit > 0,
            ;
            assert(unit * (shifted - 1) == unit * shifted - unit) by (nonlinear_arith);
            assert(1 * pow2(t as nat) == unit);
        }
        settle(negative, m, t, more, Ghost(num), Ghost(1))
    }
}

impl Double {
    /// Is this number infinite?
    fn is_infinite(self) -> (r: bool)
        ensures
            r == (self@ is Infinite),
    {
        (self.bits / 0x10_0000_0000_0000) % 0x800 == 0x7ff && self.bits % 0x10_0000_0000_0000 == 0
    }

    /// Is the sign negative?
    fn is_negative(self) -> (r: bool)
        ensures
            r == (self.bits >= 0x8000_0000_0000_0000),
    {
        self.bits >= 0x8000_0000_0000_0000
    }

    /// The sum of two numbers.
    pub fn plus(self, other: Double) -> (r: Double)
        ensures
            r@ == sum(self@, other@),
    {
        if self.is_nan() || other.is_nan() {
            return Double::nan();
        }
        let x: bool = self.is_negative();
        let y: bool = other.is_negative();
        if self.is_infinite() {
            return if other.is_infinite() && x != y {
                Double::nan()
            } else {
                self
            };
        }
        if other.is_infinite() {
            return other;
        }
        let (a, ka) = parts(self);
        let (b, kb) = parts(other);
        proof {
            lemma_pow2_pos(ka as nat);
            lemma_pow2_pos(kb as nat);
            assert(a == 0 <==> a as nat * pow2(ka as nat) == 0) by (nonlinear_arith)
                requires
                    pow2(ka as nat) > 0,
                    a >= 0,
            ;
            assert(b == 0 <==> b as nat * pow2(kb as nat) == 0) by (nonlinear_arith)
                requires
                    pow2(kb as nat) > 0,
                    b >= 0,
            ;
        }
        if a == 0 && b == 0 {
            return Double::zero(x && y);
        }
        if ka >= kb {
            combine(x, a, ka, x != y, b, kb)
        } else {
            combine(y, b, kb, x != y, a, ka)
        }
    }

    /// The difference of two numbers.
    pub fn minus(self, other: Double) -> (r: Double)
        ensures
            r@ == difference(self@, other@),
    {
        self.plus(other.neg())
    }
}

/// The number nearest to `num` / `den` units, where `den` is `unit` * 2^`h` and
/// the double of `num` is `unit` * `m` with a `rest` of less than `unit`.
fn settle_shifted(
    negative: bool,
    m: u128,
    h: u32,
    more: bool,
    Ghost(num): Ghost<nat>,
    Ghost(den): Ghost<nat>,
    Ghost(rest): Ghost<nat>,
    Ghost(unit): Ghost<nat>,
) -> (r: Double)
    requires
        m < 0x4000_0000_0000_0000_0000_0000_0000_0000,
        unit > 0,
        den == unit * pow2(h as nat),
        2 * num == unit * m + rest,
        rest < unit,
        more <==> rest != 0,
    ensures
        r@ == round(negative, num, den),
{
    proof {
        lemma_pow2_pos(h as nat);
        assert(den > 0) by (nonlinear_arith)
            requires
                den == unit * pow2(h as nat),
                unit > 0,
                pow2(h as nat) > 0,
        ;
        lemma2_to64();
    }
    let (q, low): (u128, u128) = if h >= 126 {
        (0, m)
    } else {
        let p: u128 = power_of_two(h);
        (m / p, m % p)
    };
    let ghost p = pow2(h as nat) as int;
    proof {
        number::lemma_pow2_128();
        if h >= 126 {
            lemma_pow2_unfold(127);
            if h > 126 {
                lemma_pow2_strictly_increases(126, h as nat);
            }
            assert(p * 0 == 0);
        } else {
            lemma_fundamental_div_mod(m as int, p);
        }
        assert(m == p * q + low && 0 <= low < p);
        let left = unit * low + rest;
        assert(2 * num == den * q + left) by (nonlinear_arith)
            requires
                2 * num == unit * m + rest,
                m == p * q + low,
                den == unit * p,
                left == unit * low + rest,
        ;
        assert(0 <= left < den) by (nonlinear_arith)
            requires
                left == unit * low + rest,
                0 <= rest < unit,
                0 <= low <= p - 1,
                den == unit * p,
        ;
        assert(left == 0 <==> low == 0 && rest == 0) by (nonlinear_arith)
            requires
                left == unit * low + rest,
                rest >= 0,
                unit > 0,
                low >= 0,
        ;
        assert(den * pow2(0) == den) by (nonlinear_arith)
            requires
                pow2(0) == 1,
        ;
        assert(q <= m) by (nonlinear_arith)
            requires
                m == p * q + low,
                p >= 1,
                low >= 0,
                q >= 0,
        ;
    }
    settle(negative, q, 0, more || low != 0, Ghost(num), Ghost(den))
}

/// The product of two finite magnitudes.
fn multiply(negative: bool, a: u64, ka: u32, b: u64, kb: u32) -> (r: Double)
    requires
        a < 0x20_0000_0000_0000,
        b < 0x20_0000_0000_0000,
        ka <= 2045,
        kb <= 2045,
    ensures
        r@ == round(
            negative,
            (a as nat * pow2(ka as nat)) * (b as nat * pow2(kb as nat)),
            pow2(1074),
        ),
{
    let ghost num = (a as nat * pow2(ka as nat)) * (b as nat * pow2(kb as nat));
    proof {
        assert(0 <= a * b < 0x20_0000_0000_0000 * 0x20_0000_0000_0000) by (nonlinear_arith)
            requires
                0 <= a < 0x20_0000_0000_0000,
                0 <= b < 0x20_0000_0000_0000,
        ;
    }
    let m: u128 = a as u128 * b as u128;
    let k: u32 = ka + kb;
    proof {
        lemma_pow2_pos(1074);
        lemma_pow2_adds(ka as nat, kb as nat);
        assert(num == m * pow2(k as nat)) by (nonlinear_arith)
            requires
                num == (a * pow2(ka as nat)) * (b * pow2(kb as nat)),
                m == a * b,
                pow2(k as nat) == pow2(ka as nat) * pow2(kb as nat),
        ;
        lemma_pow2_unfold((k + 1) as nat);
        lemma_pow2_pos((k + 1) as nat);
        assert(2 * num == pow2((k + 1) as nat) * m) by (nonlinear_arith)
            requires
                num == m * pow2(k as nat),
                pow2((k + 1) as nat) == 2 * pow2(k as nat),
        ;
    }
    if k + 1 >= 1074 {
        let t: u32 = k + 1 - 1074;
        proof {
            lemma_pow2_adds(1074, t as nat);
        }
        settle(negative, m, t, false, Ghost(num), Ghost(pow2(1074)))
    } else {
        proof {
            lemma_pow2_adds((k + 1) as nat, (1074 - (k + 1)) as nat);
        }
        settle_shifted(
            negative,
            m,
            1074 - (k + 1),
            false,
            Ghost(num),
            Ghost(pow2(1074)),
            Ghost(0),
            Ghost(pow2((k + 1) as nat)),
        )
    }
}

/// The quotient of two finite magnitudes.
fn divide(negative: bool, a: u64, ka: u32, b: u64, kb: u32) -> (r: Double)
    requires
        0 < a < 0x20_0000_0000_0000,
        0 < b < 0x20_0000_0000_0000,
        ka <= 2045,
        kb <= 2045,
    ensures
        r@ == round(
            negative,
            (a as nat * pow2(ka as nat)) * pow2(1074),
            b as nat * pow2(kb as nat),
        ),
{
    let ghost num = (a as nat * pow2(ka as nat)) * pow2(1074);
    let ghost den = b as nat * pow2(kb as nat);
    let mut n: u64 = a;
    let mut z: u32 = 0;
    proof {
        lemma2_to64();
        lemma2_to64_rest();
    }
    while n < 0x10_0000_0000_0000
        invariant
            0 < a < 0x20_0000_0000_0000,
            0 < n < 0x20_0000_0000_0000,
            n == a * pow2(z as nat),
            z <= 52,
            n >= pow2(z as nat),
            pow2(52) == 0x10_0000_0000_0000,
        decreases 0x20_0000_0000_0000 - n,
    {
        proof {
            lemma_pow2_unfold((z + 1) as nat);
            assert(a * pow2((z + 1) as nat) == 2 * (a * pow2(z as nat))) by (nonlinear_arith)
                requires
                    pow2((z + 1) as nat) == 2 * pow2(z as nat),
            ;
            if z >= 52 {
                assert(false);
            }
        }
        n = 2 * n;
        z = z + 1;
    }
    let lifted: u128 = n as u128 * 0x100_0000_0000_0000_0000;
    let q: u128 = lifted / b as u128;
    let rho: u128 = lifted % b as u128;
    let w: u32 = ka + 1003 - z;
    proof {
        lemma_fundamental_div_mod(lifted as int, b as int);
        assert(0x40_0000_0000_0000 <= q <= lifted) by (nonlinear_arith)
            requires
                lifted == b * q + rho,
                0 <= rho < b,
                0 < b < 0x20_0000_0000_0000,
                lifted >= 0x10_0000_0000_0000 * 0x100_0000_0000_0000_0000,
                q >= 0,
        ;
        // 2 num = 2^w * lifted
        lemma_pow2_adds(8, 64);
        lemma_pow2_adds(z as nat, w as nat);
        lemma_pow2_adds((z + w) as nat, 72);
        lemma_pow2_adds(ka as nat, 1075);
        lemma_pow2_unfold(1075);
        assert(2 * num == pow2(w as nat) * lifted) by (nonlinear_arith)
            requires
                num == (a * pow2(ka as nat)) * pow2(1074),
                pow2(1075) == 2 * pow2(1074),
                pow2((ka + 1075) as nat) == pow2(ka as nat) * pow2(1075),
                pow2((ka + 1075) as nat) == pow2((z + w) as nat) * pow2(72),
                pow2((z + w) as nat) == pow2(z as nat) * pow2(w as nat),
                lifted == n * pow2(72),
                n == a * pow2(z as nat),
        ;
        lemma_pow2_pos(w as nat);
        lemma_pow2_pos(kb as nat);
        assert(den > 0) by (nonlinear_arith)
            requires
                den == b * pow2(kb as nat),
                b > 0,
                pow2(kb as nat) > 0,
        ;
    }
    let ghost unit = b as nat * pow2(w as nat);
    let ghost rest = rho as nat * pow2(w as nat);
    proof {
        assert(2 * num == unit * q + rest) by (nonlinear_arith)
            requires
                2 * num == pow2(w as nat) * lifted,
                lifted == b * q + rho,
                unit == b * pow2(w as nat),
                rest == rho * pow2(w as nat),
        ;
        assert(0 <= rest < unit && (rest != 0 <==> rho != 0)) by (nonlinear_arith)
            requires
                unit == b * pow2(w as nat),
                rest == rho * pow2(w as nat),
                0 <= rho < b,
                pow2(w as nat) > 0,
        ;
    }
    if w >= kb {
        let t: u32 = w - kb;
        proof {
            lemma_pow2_adds(kb as nat, t as nat);
            lemma_mul_is_associative(b as int, pow2(kb as nat) as int, pow2(t as nat) as int);
        }
        settle(negative, q, t, rho != 0, Ghost(num), Ghost(den))
    } else {
        proof {
            lemma_pow2_adds(w as nat, (kb - w) as nat);
            lemma_mul_is_associative(
                b as int,
                pow2(w as nat) as int,
                pow2((kb - w) as nat) as int,
            );
        }
        settle_shifted(
            negative,
            q,
            kb - w,
            rho != 0,
            Ghost(num),
            Ghost(den),
            Ghost(rest),
            Ghost(unit),
        )
    }
}

proof fn lemma_zero_units(m: u64, k: u32)
    ensures
        m == 0 <==> m as nat * pow2(k as nat) == 0,
{
    lemma_pow2_pos(k as nat);
    assert(m == 0 <==> m as nat * pow2(k as nat) == 0) by (nonlinear_arith)
        requires
            pow2(k as nat) > 0,
            m >= 0,
    ;
}

impl Double {
    /// The product of two numbers.
    pub fn times(self, other: Double) -> (r: Double)
        ensures
            r@ == product(self@, other@),
    {
        if self.is_nan() || other.is_nan() {
            return Double::nan();
        }
        let negative: bool = self.is_negative() != other.is_negative();
        let (a, ka) = parts(self);
        let (b, kb) = parts(other);
        proof {
            lemma_zero_units(a, ka);
            lemma_zero_units(b, kb);
        }
        if self.is_infinite() {
            return if !other.is_infinite() && b == 0 {
                Double::nan()
            } else {
                Double::infinity(negative)
            };
        }
        if other.is_infinite() {
            return if a == 0 {
                Double::nan()
            } else {
                Double::infinity(negative)
            };
        }
        multiply(negative, a, ka, b, kb)
    }

    /// The quotient of two numbers.
    pub fn over(self, other: Double) -> (r: Double)
        ensures
            r@ == quotient(self@, other@),
    {
        if self.is_nan() || other.is_nan() {
            return Double::nan();
        }
        let negative: bool = self.is_negative() != other.is_negative();
        if self.is_infinite() {
            return if other.is_infinite() {
                Double::nan()
            } else {
                Double::infinity(negative)
            };
        }
        if other.is_infinite() {
            return Double::zero(negative);
        }
        let (a, ka) = parts(self);
        let (b, kb) = parts(other);
        proof {
            lemma_zero_units(a, ka);
            lemma_zero_units(b, kb);
        }
        if b == 0 {
            return if a == 0 {
                Double::nan()
            } else {
                Double::infinity(negative)
            };
        }
        if a == 0 {
            proof {
                lemma_zero_quotient(negative, b as nat * pow2(kb as nat));
                assert(0 * pow2(1074) == 0);
            }
            return Double::zero(negative);
        }
        divide(negative, a, ka, b, kb)
    }
}

proof fn lemma_zero_quotient(negative: bool, den: nat)
    requires
        den > 0,
    ensures
        round(negative, 0, den) == (Float::Finite { negative, units: 0 }),
{
    lemma_pow2_pos(2098);
    lemma2_to64();
    lemma_fundamental_div_mod_converse(0, den as int, 0, 0);
    assert(number::excess_bits(0, 53) == 0);
    assert(den * 1 == den);
}

// ---------------------------------------------------------------------------
// Rounding to integers
// ---------------------------------------------------------------------------

/// The nearest integer, a tie away from zero.
pub open spec fn to_integer(a: Float) -> Float {
    match a {
        Float::Finite { negative, units } => round(
            negative,
            (number::nearest_up(units as int, pow2(1074) as int) * pow2(1074)) as nat,
            1,
        ),
        _ => a,
    }
}

impl Double {
    /// The nearest integer, a tie away from zero.
    pub fn rounded(self) -> (r: Double)
        ensures
            r@ == to_integer(self@),
    {
        if self.is_nan() || self.is_infinite() {
            return self;
        }
        let (m, k) = parts(self);
        let negative: bool = self.is_negative();
        let ghost units = m as nat * pow2(k as nat);
        let ghost one = pow2(1074) as int;
        proof {
            lemma_pow2_pos(1074);
            lemma_pow2_pos(k as nat);
            lemma2_to64();
            lemma2_to64_rest();
        }
        if k >= 1074 {
            proof {
                lemma_pow2_adds((k - 1074) as nat, 1074);
                lemma_mul_is_associative(m as int, pow2((k - 1074) as nat) as int, one);
                assert(m * pow2((k - 1074) as nat) >= 0) by (nonlinear_arith);
                number::lemma_exact(m * pow2((k - 1074) as nat), one);
                lemma_own_rounding(self);
            }
            return self;
        }
        let q: Option<u128> = number::shifted(m, k, 1074);
        let h = number::half(m, k, 1074);
        proof {
            lemma_pow2_strictly_increases(k as nat, 1074);
            assert(units <= m * one) by (nonlinear_arith)
                requires
                    units == m * pow2(k as nat),
                    pow2(k as nat) <= one,
                    m >= 0,
            ;
            number::lemma_exact(m as int, one);
            lemma_div_is_ordered(units as int, m * one, one);
            lemma_div_pos_is_pos(units as int, one);
        }
        match q {
            Some(v) => {
                let n: u128 = match h {
                    number::Half::Below => v,
                    _ => v + 1,
                };
                Double::from_integer(negative, n)
            },
            None => self,
        }
    }
}

/// A finite number is its own rounding.
proof fn lemma_own_rounding(d: Double)
    requires
        d@ is Finite,
    ensures
        d@ == round(d@->Finite_negative, d@->units, 1),
{
    let m = significand(d.bits);
    let k = scale(d.bits);
    lemma2_to64();
    lemma2_to64_rest();
    if k <= 2044 {
        lemma_representable(d@->Finite_negative, m, k);
    } else {
        // The largest scale of all.
        lemma_pow2_pos(k);
        let n = m * pow2(k);
        assert(n / 1 == n);
        assert(pow2(53) * pow2(k) <= 2 * n && n < pow2(53) * pow2(k)) by (nonlinear_arith)
            requires
                n == m * pow2(k),
                0x10_0000_0000_0000 <= m < 0x20_0000_0000_0000,
                pow2(53) == 0x20_0000_0000_0000,
                pow2(k) > 0,
        ;
        lemma_excess_is(n, k);
        number::lemma_exact(m as int, pow2(k) as int);
        lemma_units_bound(d.bits);
    }
}

// ---------------------------------------------------------------------------
// Text
// ---------------------------------------------------------------------------

/// So many units as a decimal number with `places` decimals, a tie to the even
/// digit.
pub open spec fn units_text(units: nat, places: nat) -> Seq<char> {
    text::decimals(
        number::nearest_even((units * text::power_of_ten(places)) as int, pow2(1074) as int) as nat,
        places,
    )
}

/// A number with `places` decimals, a tie to the even digit.
pub open spec fn text_of(a: Float, places: nat) -> Seq<char> {
    match a {
        Float::Nan => "NaN"@,
        Float::Infinite { negative } => if negative {
            "-inf"@
        } else {
            "inf"@
        },
        Float::Finite { negative, units } => if negative {
            "-"@ + units_text(units, places)
        } else {
            units_text(units, places)
        },
    }
}

/// A number with `places` decimals and a sign in any case.
pub open spec fn signed_text_of(a: Float, places: nat) -> Seq<char> {
    match a {
        Float::Nan => "NaN"@,
        Float::Infinite { negative } => if negative {
            "-inf"@
        } else {
            "+inf"@
        },
        Float::Finite { negative, units } => if negative {
            "-"@ + units_text(units, places)
        } else {
            "+"@ + units_text(units, places)
        },
    }
}

/// The number that the decimal digits from `i` on write, the lowest first.
spec fn digits_value(v: Seq<u8>, i: int) -> nat
    decreases v.len() - i,
{
    if i < 0 || i >= v.len() {
        0
    } else {
        v[i] as nat + 10 * digits_value(v, i + 1)
    }
}

/// Decimal digits, the highest of which is not zero.
spec fn are_digits(v: Seq<u8>) -> bool {
    v.len() > 0 && v.last() != 0 && forall|i: int| 0 <= i < v.len() ==> #[trigger] v[i] < 10
}

proof fn lemma_same_tail(a: Seq<u8>, b: Seq<u8>, i: int)
    requires
        a.len() == b.len(),
        0 <= i <= a.len(),
        forall|j: int| i <= j < a.len() ==> a[j] == b[j],
    ensures
        digits_value(a, i) == digits_value(b, i),
    decreases a.len() - i,
{
    if i < a.len() {
        lemma_same_tail(a, b, i + 1);
    }
}

/// Doubles the number that the digits from `i` on write, and adds `carry`.
fn double_digits(v: &mut Vec<u8>, i: usize, carry: u8)
    requires
        i <= old(v).len(),
        carry <= 1,
        forall|j: int| 0 <= j < old(v).len() ==> #[trigger] old(v)@[j] < 10,
        old(v).len() > 0,
        old(v)@.last() != 0 || (i == old(v).len() && carry > 0),
    ensures
        final(v).len() >= old(v).len(),
        are_digits(final(v)@),
        forall|j: int| 0 <= j < i ==> final(v)@[j] == old(v)@[j],
        digits_value(final(v)@, i as int) == 2 * digits_value(old(v)@, i as int) + carry,
    decreases old(v).len() - i,
{
    if i == v.len() {
        if carry > 0 {
            v.push(carry);
            assert(digits_value(v@, i + 1) == 0);
        }
    } else {
        let ghost before = v@;
        let d: u8 = 2 * v[i] + carry;
        v.set(i, d % 10);
        proof {
            lemma_same_tail(v@, before, i + 1);
        }
        double_digits(v, i + 1, d / 10);
    }
}

/// Appends the digits from `i` on, the highest first.
fn push_number(s: &mut String, v: &Vec<u8>, i: usize)
    requires
        are_digits(v@),
        i < v.len(),
    ensures
        final(s)@ == old(s)@ + text::decimal(digits_value(v@, i as int)),
        digits_value(v@, i as int) > 0,
    decreases v.len() - i,
{
    let ghost before = s@;
    let ghost n = digits_value(v@, i as int);
    if i + 1 < v.len() {
        push_number(s, v, i + 1);
        assert(n / 10 == digits_value(v@, i + 1) && n % 10 == v@[i as int]);
    } else {
        assert(digits_value(v@, i + 1) == 0);
    }
    s.push(digit(v[i]));
    assert(s@ =~= before + text::decimal(n));
}

/// Appends the decimal digits of `m` * 2^`k`.
fn push_scaled(s: &mut String, m: u64, k: u32)
    ensures
        final(s)@ == old(s)@ + text::decimal(m as nat * pow2(k as nat)),
{
    proof {
        lemma2_to64();
    }
    if m == 0 {
        assert(0 * pow2(k as nat) == 0);
        push_decimal(s, 0);
        return ;
    }
    let mut v: Vec<u8> = Vec::new();
    lay_out(&mut v, m);
    let mut i: u32 = 0;
    while i < k
        invariant
            i <= k,
            are_digits(v@),
            digits_value(v@, 0) == m as nat * pow2(i as nat),
        decreases k - i,
    {
        proof {
            lemma_pow2_unfold((i + 1) as nat);
            assert(m as nat * pow2((i + 1) as nat) == 2 * (m as nat * pow2(i as nat)))
                by (nonlinear_arith)
                requires
                    pow2((i + 1) as nat) == 2 * pow2(i as nat),
            ;
        }
        double_digits(&mut v, 0, 0);
        i = i + 1;
    }
    push_number(s, &v, 0);
}

/// Appends the digits of `m`, the lowest first.
fn lay_out(v: &mut Vec<u8>, m: u64)
    requires
        m > 0,
    ensures
        final(v).len() > old(v).len(),
        final(v)@.last() != 0,
        forall|j: int| 0 <= j < old(v).len() ==> final(v)@[j] == old(v)@[j],
        forall|j: int| old(v).len() <= j < final(v).len() ==> #[trigger] final(v)@[j] < 10,
        digits_value(final(v)@, old(v).len() as int) == m,
    decreases m,
{
    let ghost start = v.len() as int;
    v.push((m % 10) as u8);
    if m >= 10 {
        lay_out(v, m / 10);
    }
    assert(digits_value(v@, start) == v@[start] as nat + 10 * digits_value(v@, start + 1));
}

impl Double {
    /// Appends the magnitude of a finite number with `places` decimals.
    fn push_magnitude(self, s: &mut String, places: u8)
        requires
            places <= 3,
            self@ is Finite,
        ensures
            final(s)@ == old(s)@ + units_text(self@->units, places as nat),
    {
        let ghost before = s@;
        let (m, k) = parts(self);
        let ghost units = m as nat * pow2(k as nat);
        let ghost one = pow2(1074) as int;
        let unit: u64 = if places == 0 {
            1
        } else if places == 1 {
            10
        } else if places == 2 {
            100
        } else {
            1000
        };
        proof {
            lemma_pow2_pos(1074);
            lemma_pow2_pos(k as nat);
            reveal_with_fuel(text::power_of_ten, 4);
        }
        let ghost num = units * text::power_of_ten(places as nat);
        if k >= 1074 {
            let ghost whole = m as nat * pow2((k - 1074) as nat);
            proof {
                lemma_pow2_adds((k - 1074) as nat, 1074);
                lemma_mul_is_associative(m as int, pow2((k - 1074) as nat) as int, one);
                assert(num == (whole * unit) * one) by (nonlinear_arith)
                    requires
                        num == units * unit,
                        units == whole * one,
                ;
                assert(whole * unit >= 0) by (nonlinear_arith)
                    requires
                        whole >= 0,
                        unit >= 0,
                ;
                number::lemma_exact(whole * unit, one);
                lemma_fundamental_div_mod_converse(whole * unit, unit as int, whole as int, 0);
            }
            push_scaled(s, m, k - 1074);
            if places > 0 {
                s.append(".");
                push_digits(s, 0, places);
            }
            assert(s@ =~= before + units_text(units, places as nat));
        } else {
            let scaled: u64 = m * unit;
            proof {
                assert(num == scaled * pow2(k as nat)) by (nonlinear_arith)
                    requires
                        num == (m * pow2(k as nat)) * unit,
                        scaled == m * unit,
                ;
            }
            let q: Option<u128> = number::shifted(scaled, k, 1074);
            let h = number::half(scaled, k, 1074);
            proof {
                lemma_pow2_strictly_increases(k as nat, 1074);
                assert(num <= scaled * one) by (nonlinear_arith)
                    requires
                        num == scaled * pow2(k as nat),
                        pow2(k as nat) <= one,
                        scaled >= 0,
                ;
                number::lemma_exact(scaled as int, one);
                lemma_div_is_ordered(num as int, scaled * one, one);
                lemma_div_pos_is_pos(num as int, one);
            }
            if let Some(v) = q {
                let n: u128 = match h {
                    number::Half::Below => v,
                    number::Half::At => if v % 2 == 0 {
                        v
                    } else {
                        v + 1
                    },
                    number::Half::Above => v + 1,
                };
                push_decimals(s, n, places);
            }
        }
    }

    /// Appends the number with `places` decimals.
    pub fn push_text(self, s: &mut String, places: u8)
        requires
            places <= 3,
        ensures
            final(s)@ == old(s)@ + text_of(self@, places as nat),
    {
        let ghost before = s@;
        if self.is_nan() {
            s.append("NaN");
            return ;
        }
        if self.is_infinite() {
            s.append(
                if self.is_negative() {
                    "-inf"
                } else {
                    "inf"
                },
            );
            return ;
        }
        if self.is_negative() {
            s.append("-");
        }
        self.push_magnitude(s, places);
        assert(s@ =~= before + text_of(self@, places as nat));
    }

    /// Appends the number with `places` decimals and a sign in any case.
    pub fn push_signed_text(self, s: &mut String, places: u8)
        requires
            places <= 3,
        ensures
            final(s)@ == old(s)@ + signed_text_of(self@, places as nat),
    {
        let ghost before = s@;
        if self.is_nan() {
            s.append("NaN");
            return ;
        }
        s.append(
            if self.is_negative() {
                "-"
            } else {
                "+"
            },
        );
        if self.is_infinite() {
            s.append("inf");
            proof {
                reveal_strlit("inf");
                reveal_strlit("+inf");
                reveal_strlit("-inf");
                reveal_strlit("+");
                reveal_strlit("-");
            }
        } else {
            self.push_magnitude(s, places);
        }
        assert(s@ =~= before + signed_text_of(self@, places as nat));
    }
}

impl Double {
    /// Appends the number without decimals, with spaces before it up to `width`
    /// characters.
    pub fn push_right(self, s: &mut String, width: usize)
        ensures
            final(s)@ == old(s)@ + text::right(text_of(self@, 0), width as nat),
    {
        let mut t = String::new();
        self.push_text(&mut t, 0);
        assert(t@ =~= text_of(self@, 0));
        text::push_right(s, t.as_str(), width);
    }
}

// ---------------------------------------------------------------------------
// Integers in the fewest digits
// ---------------------------------------------------------------------------

/// The integer that `n` is rounded to.
pub open spec fn nearest_integer(n: nat) -> nat {
    let step = pow2(number::excess_bits(n, 53));
    (number::nearest_even(n as int, step as int) * step) as nat
}

/// `a` and `b` round to the same number.
pub open spec fn same_number(a: nat, b: nat) -> bool {
    of_int(a as int) == of_int(b as int)
}

/// `v` without its last `k` digits.
pub open spec fn cut(v: nat, k: nat) -> nat {
    (v - v % text::power_of_ten(k)) as nat
}

/// The decimal number with `k` zeros at its end that is nearest to `v` among those
/// next to it that stand for the same binary64 number; `None` if none does.
pub open spec fn short_form(v: nat, k: nat) -> Option<nat> {
    let low = cut(v, k);
    let high = low + text::power_of_ten(k);
    if same_number(low, v) && same_number(high, v) {
        if 2 * (v % text::power_of_ten(k)) >= text::power_of_ten(k) {
            Some(high)
        } else {
            Some(low)
        }
    } else if same_number(high, v) {
        Some(high)
    } else if same_number(low, v) {
        Some(low)
    } else {
        None
    }
}

/// The decimal number with the most zeros at its end, at most `k`, that stands for
/// the same binary64 number as `v`.
pub open spec fn shortest(v: nat, k: nat) -> nat
    decreases k,
{
    match short_form(v, k) {
        Some(n) => n,
        None => if k == 0 {
            v
        } else {
            shortest(v, (k - 1) as nat)
        },
    }
}

/// `n` as a binary64 number, in the fewest significant digits that stand for it.
pub open spec fn integer_text(n: u64) -> Seq<char> {
    text::decimal(shortest(nearest_integer(n as nat), 20))
}

/// Do the two integers round to the same number?
fn reads_alike(a: u128, b: u128) -> (r: bool)
    requires
        a < 0x4000_0000_0000_0000_0000_0000_0000_0000,
        b < 0x4000_0000_0000_0000_0000_0000_0000_0000,
    ensures
        r == same_number(a as nat, b as nat),
{
    let x = Double::from_integer(false, a);
    let y = Double::from_integer(false, b);
    proof {
        lemma_of_integer(a as nat);
        lemma_of_integer(b as nat);
        lemma_units_below(a as nat);
        lemma_units_below(b as nat);
    }
    !x.less_than(y) && !y.less_than(x)
}

proof fn lemma_of_integer(n: nat)
    ensures
        of_int(n as int) == round(false, n * pow2(1074), 1),
{
    lemma_pow2_pos(1074);
    assert(n > 0 ==> n * pow2(1074) > 0) by (nonlinear_arith)
        requires
            pow2(1074) > 0,
    ;
    if n == 0 {
        assert(0 * pow2(1074) == 0);
        lemma_representable(false, 0, 1074);
    }
}

/// A finite result has fewer units than infinity stands for.
proof fn lemma_units_below(n: nat)
    ensures
        place(of_int(n as int)) <= pow2(2098),
        place(of_int(n as int)) == pow2(2098) <==> of_int(n as int) is Infinite,
        !(of_int(n as int) is Nan),
        of_int(n as int) is Infinite ==> !of_int(n as int)->Infinite_negative,
        of_int(n as int) is Finite ==> !of_int(n as int)->Finite_negative,
{
    lemma_of_integer(n);
    let num = n * pow2(1074);
    let step = pow2(number::excess_bits(num, 53)) as int;
    lemma_pow2_pos(number::excess_bits(num, 53));
    lemma_pow2_pos(2098);
    lemma_div_pos_is_pos(num as int, step);
    assert(num / 1 == num && 1 * step == step);
    assert(number::nearest_even(num as int, step) * step >= 0) by (nonlinear_arith)
        requires
            number::nearest_even(num as int, step) >= 0,
            step > 0,
    ;
}

/// The integer that `n` is rounded to.
fn round_integer(n: u64) -> (r: u128)
    ensures
        r == nearest_integer(n as nat),
        r <= 0x1_0000_0000_0000_0000,
{
    let (c, step) = excess(n as u128, 53);
    proof {
        lemma_pow2_pos(c as nat);
        lemma2_to64();
        lemma2_to64_rest();
        number::lemma_excess(n as nat, 53);
    }
    let q: u128 = n as u128 / step;
    let rem: u128 = n as u128 % step;
    proof {
        lemma_fundamental_div_mod(n as int, step as int);
        lemma_mul_is_commutative(step as int, q as int);
        assert((q + 1) * step == q * step + step) by (nonlinear_arith);
        if c > 11 {
            if c > 12 {
                lemma_pow2_strictly_increases(12, c as nat);
            }
            assert(0x20_0000_0000_0000 * step >= 0x20_0000_0000_0000 * 0x1000) by (nonlinear_arith)
                requires
                    step >= 0x1000,
            ;
        } else if c < 11 {
            lemma_pow2_strictly_increases(c as nat, 11);
        }
        assert(q < 0x20_0000_0000_0000) by (nonlinear_arith)
            requires
                n == q * step + rem,
                n < 0x20_0000_0000_0000 * step,
                rem >= 0,
                step > 0,
        ;
        assert((q + 1) * step <= 0x20_0000_0000_0000 * 0x800) by (nonlinear_arith)
            requires
                0 <= q < 0x20_0000_0000_0000,
                0 < step <= 0x800,
        ;
    }
    if 2 * rem < step || (2 * rem == step && q % 2 == 0) {
        q * step
    } else {
        (q + 1) * step
    }
}

/// Appends `n` as a binary64 number, in the fewest significant digits that stand
/// for it.
pub fn push_integer(s: &mut String, n: u64)
    ensures
        final(s)@ == old(s)@ + integer_text(n),
{
    let v: u128 = round_integer(n);
    let mut k: u32 = 20;
    let mut unit: u128 = 100_000_000_000_000_000_000;
    proof {
        reveal_with_fuel(text::power_of_ten, 21);
    }
    while k > 0
        invariant
            k <= 20,
            v <= 0x1_0000_0000_0000_0000,
            unit == text::power_of_ten(k as nat),
            unit <= 100_000_000_000_000_000_000,
            unit > 0,
            shortest(v as nat, 20) == shortest(v as nat, k as nat),
            v == nearest_integer(n as nat),
            s@ == old(s)@,
        decreases k,
    {
        let rest: u128 = v % unit;
        proof {
            lemma_mod_decreases(v as nat, unit as nat);
        }
        let low: u128 = v - rest;
        let high: u128 = low + unit;
        let down: bool = reads_alike(low, v);
        let up: bool = reads_alike(high, v);
        if down || up {
            if up && (!down || 2 * rest >= unit) {
                push_decimal(s, high);
            } else {
                push_decimal(s, low);
            }
            return ;
        }
        assert(text::power_of_ten(k as nat) == 10 * text::power_of_ten((k - 1) as nat));
        unit = unit / 10;
        k = k - 1;
    }
    proof {
        assert(text::power_of_ten(0) == 1);
        assert(v as nat % 1 == 0);
        assert(same_number(v as nat, v as nat));
    }
    push_decimal(s, v);
}

// ---------------------------------------------------------------------------
// What holds of the arithmetic
// ---------------------------------------------------------------------------

/// The order of a sum does not matter.
pub proof fn sum_commutes(a: Float, b: Float)
    ensures
        sum(a, b) == sum(b, a),
{
}

/// Nothing is less than itself, and what is less than something less is less.
pub proof fn less_is_an_order(a: Float, b: Float, c: Float)
    ensures
        !less(a, a),
        less(a, b) && less(b, c) ==> less(a, c),
        less(a, b) ==> !less(b, a),
{
}

/// Rounding keeps the order of magnitudes.
pub proof fn rounding_keeps_order(a: nat, b: nat)
    requires
        a <= b,
    ensures
        place(round(false, a, 1)) <= place(round(false, b, 1)),
{
    let e = number::excess_bits(a, 53);
    let f = number::excess_bits(b, 53);
    let s = pow2(e) as int;
    let t = pow2(f) as int;
    let p = number::nearest_even(a as int, s);
    let q = number::nearest_even(b as int, t);
    assert(a / 1 == a && b / 1 == b && 1 * s == s && 1 * t == t);
    lemma2_to64();
    lemma2_to64_rest();
    lemma_pow2_pos(e);
    lemma_pow2_pos(f);
    number::lemma_excess(a, 53);
    number::lemma_excess(b, 53);
    lemma_fundamental_div_mod(a as int, s);
    lemma_fundamental_div_mod(b as int, t);
    assert(p * s <= q * t) by {
        if e == f {
            number::lemma_nearest_even_ordered(a as int, b as int, s);
            assert(p * s <= q * t) by (nonlinear_arith)
                requires
                    p <= q,
                    s == t,
                    s > 0,
            ;
        } else if e > f {
            lemma_pow2_unfold(e);
            if e > f + 1 {
                lemma_pow2_strictly_increases(f, (e - 1) as nat);
            }
            assert(2 * a >= 2 * (0x20_0000_0000_0000 * t)) by (nonlinear_arith)
                requires
                    2 * a >= 0x20_0000_0000_0000 * s,
                    s >= 2 * t,
            ;
            assert(false);
        } else {
            lemma_pow2_unfold(f);
            if f > e + 1 {
                lemma_pow2_strictly_increases(e, (f - 1) as nat);
            }
            let low = a as int / s;
            let high = b as int / t;
            assert(low < 0x20_0000_0000_0000) by (nonlinear_arith)
                requires
                    a == s * low + a as int % s,
                    a < 0x20_0000_0000_0000 * s,
                    a as int % s >= 0,
                    s > 0,
            ;
            assert(high >= 0x10_0000_0000_0000) by (nonlinear_arith)
                requires
                    b == t * high + b as int % t,
                    2 * b >= 0x20_0000_0000_0000 * t,
                    (b as int % t) < t,
                    t > 0,
            ;
            assert(p * s <= q * t) by (nonlinear_arith)
                requires
                    p <= 0x20_0000_0000_0000,
                    q >= 0x10_0000_0000_0000,
                    t >= 2 * s,
                    s > 0,
            ;
        }
    }
    lemma_pow2_pos(2098);
}

/// Integers of up to 53 bits are exact.
pub proof fn small_integers_are_exact(n: nat)
    requires
        n <= pow2(53),
    ensures
        of_int(n as int) == (Float::Finite { negative: false, units: n * pow2(1074) }),
{
    lemma_of_integer(n);
    lemma_representable(false, n, 1074);
}

/// Whole numbers add up exactly as long as the sum has at most 53 bits.
pub proof fn small_integers_add_up(a: nat, b: nat)
    requires
        a + b <= pow2(53),
    ensures
        sum(of_int(a as int), of_int(b as int)) == of_int(a + b as int),
{
    small_integers_are_exact(a);
    small_integers_are_exact(b);
    small_integers_are_exact(a + b);
    lemma_of_integer(a + b);
    lemma_pow2_pos(1074);
    assert(a * pow2(1074) + b * pow2(1074) == (a + b) * pow2(1074)) by (nonlinear_arith);
    if a + b == 0 {
        assert(0 * pow2(1074) == 0);
    } else {
        assert((a + b) * pow2(1074) > 0) by (nonlinear_arith)
            requires
                a + b > 0,
                pow2(1074) > 0,
        ;
    }
}

/// A number less itself is zero.
pub proof fn difference_with_itself(negative: bool, units: nat)
    ensures
        ({
            let a = Float::Finite { negative, units };
            difference(a, a) == (Float::Finite { negative: false, units: 0 })
        }),
{
}

/// A difference of finite numbers has the sign that their order gives it, and is
/// zero only if they are equal.
pub proof fn difference_has_the_sign_of_the_order(a: Float, b: Float)
    requires
        a is Finite,
        b is Finite,
    ensures
        less(zero(), difference(a, b)) <==> less(b, a),
        less(difference(a, b), zero()) <==> less(a, b),
{
    let units = place(a) - place(b);
    lemma2_to64();
    lemma_pow2_pos(53);
    lemma_representable(false, 1, 0);
    assert(1 * pow2(0) == 1);
    if units > 0 {
        rounding_keeps_order(1, units as nat);
    } else if units < 0 {
        rounding_keeps_order(1, (-units) as nat);
    }
}

} // verus!
