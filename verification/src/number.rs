//! Rounding and powers of two, the ground that floating-point numbers stand on.

use vstd::arithmetic::div_mod::*;
use vstd::arithmetic::mul::*;
use vstd::arithmetic::power2::*;
use vstd::prelude::*;

verus! {

/// `num / den`, rounded to the nearest integer, a tie to the even one.
pub open spec fn nearest_even(num: int, den: int) -> int {
    let q = num / den;
    let r = num % den;
    if 2 * r < den || (2 * r == den && q % 2 == 0) {
        q
    } else {
        q + 1
    }
}

/// `num / den`, rounded to the nearest integer, a tie upwards.
pub open spec fn nearest_up(num: int, den: int) -> int {
    if 2 * (num % den) >= den {
        num / den + 1
    } else {
        num / den
    }
}

/// How many low bits of `n` lie beyond its `width` leading ones.
pub open spec fn excess_bits(n: nat, width: nat) -> nat
    decreases n,
{
    if n < pow2(width) || n == 0 {
        0
    } else {
        1 + excess_bits(n / 2, width)
    }
}

/// 2^`e`.
pub(crate) fn power_of_two(e: u32) -> (r: u128)
    requires
        e < 128,
    ensures
        r == pow2(e as nat),
{
    let mut r: u128 = 1;
    let mut i: u32 = 0;
    proof {
        lemma2_to64();
    }
    while i < e
        invariant
            i <= e < 128,
            r == pow2(i as nat),
        decreases e - i,
    {
        proof {
            lemma_pow2_unfold((i + 1) as nat);
            lemma_pow2_below_128((i + 1) as nat);
        }
        r = r * 2;
        i = i + 1;
    }
    r
}

pub(crate) proof fn lemma_pow2_128()
    ensures
        pow2(127) == 0x8000_0000_0000_0000_0000_0000_0000_0000,
        pow2(128) == 0x1_0000_0000_0000_0000_0000_0000_0000_0000,
        pow2(64) == 0x1_0000_0000_0000_0000,
        pow2(24) == 0x100_0000,
{
    lemma2_to64();
    lemma2_to64_rest();
    lemma_pow2_adds(64, 64);
    lemma_pow2_adds(64, 63);
}

proof fn lemma_pow2_below_128(e: nat)
    requires
        e < 128,
    ensures
        0 < pow2(e) <= 0x8000_0000_0000_0000_0000_0000_0000_0000,
{
    lemma_pow2_128();
    lemma_pow2_pos(e);
    if e < 127 {
        lemma_pow2_strictly_increases(e, 127);
    }
}

/// A power of two cancels out of a quotient and scales the remainder.
pub(crate) proof fn lemma_cancel(a: int, b: int, c: int)
    requires
        a >= 0,
        b > 0,
        c > 0,
    ensures
        b * c > 0,
        (a * c) / (b * c) == a / b,
        (a * c) % (b * c) == (a % b) * c,
{
    lemma_mul_strictly_positive(b, c);
    lemma_mul_is_commutative(a, c);
    lemma_mul_is_commutative(b, c);
    lemma_div_multiples_vanish_quotient(c, a, b);
    lemma_truncate_middle(a, c, b);
    lemma_mul_is_commutative(a % b, c);
}

/// An exact quotient is its own rounding.
pub(crate) proof fn lemma_exact(a: int, d: int)
    requires
        a >= 0,
        d > 0,
    ensures
        (a * d) / d == a,
        (a * d) % d == 0,
        nearest_even(a * d, d) == a,
        nearest_up(a * d, d) == a,
{
    lemma_fundamental_div_mod_converse(a * d, d, a, 0);
}

/// floor(`m` * 2^`up` / 2^`down`), or `None` if it does not fit.
pub(crate) fn shifted(m: u64, up: u32, down: u32) -> (r: Option<u128>)
    ensures
        match r {
            Some(v) => v == (m * pow2(up as nat)) as int / pow2(down as nat) as int,
            None => (m * pow2(up as nat)) as int / pow2(down as nat) as int > u128::MAX,
        },
{
    let ghost num = (m * pow2(up as nat)) as int;
    let ghost den = pow2(down as nat) as int;
    proof {
        lemma_pow2_pos(up as nat);
        lemma_pow2_pos(down as nat);
        lemma_pow2_128();
    }
    if m == 0 {
        assert(num == 0);
        assert(0int / den == 0) by {
            lemma_fundamental_div_mod_converse(0, den, 0, 0);
        }
        return Some(0);
    }
    if up >= down {
        let s: u32 = up - down;
        let ghost ps = pow2(s as nat) as int;
        proof {
            lemma_pow2_adds(s as nat, down as nat);
            lemma_mul_is_associative(m as int, ps, den);
            lemma_exact(m * ps, den);
            assert(m * ps >= 0) by (nonlinear_arith)
                requires
                    ps >= 0,
                    m >= 0,
            ;
            assert(num / den == m * ps);
        }
        if s >= 128 {
            proof {
                if s > 128 {
                    lemma_pow2_strictly_increases(128, s as nat);
                }
                assert(m * ps >= ps) by (nonlinear_arith)
                    requires
                        ps >= 0,
                        m >= 1,
                ;
            }
            return None;
        }
        let p: u128 = power_of_two(s);
        proof {
            lemma_pow2_pos(s as nat);
        }
        let limit: u128 = u128::MAX / p;
        proof {
            lemma_fundamental_div_mod(u128::MAX as int, ps);
            if m <= limit {
                assert(m * ps <= limit * ps) by (nonlinear_arith)
                    requires
                        ps >= 0,
                        m <= limit,
                ;
                assert(limit * ps == ps * limit) by (nonlinear_arith);
            } else {
                assert(m * ps >= (limit + 1) * ps) by (nonlinear_arith)
                    requires
                        ps >= 0,
                        m >= limit + 1,
                ;
                assert((limit + 1) * ps == ps * limit + ps) by (nonlinear_arith);
            }
        }
        if (m as u128) <= limit {
            Some(m as u128 * p)
        } else {
            None
        }
    } else {
        let t: u32 = down - up;
        let ghost pt = pow2(t as nat) as int;
        proof {
            lemma_pow2_pos(t as nat);
            lemma_pow2_adds(t as nat, up as nat);
            lemma_cancel(m as int, pt, pow2(up as nat) as int);
        }
        if t >= 64 {
            proof {
                if t > 64 {
                    lemma_pow2_strictly_increases(64, t as nat);
                }
                lemma_fundamental_div_mod_converse(m as int, pt, 0, m as int);
            }
            return Some(0);
        }
        let p: u128 = power_of_two(t);
        Some(m as u128 / p)
    }
}

/// Where a remainder stands against half of its divisor.
#[derive(Clone, Copy, PartialEq, Eq, Structural)]
pub(crate) enum Half {
    Below,
    At,
    Above,
}

pub(crate) open spec fn half_of(rem: int, den: int) -> Half {
    if 2 * rem < den {
        Half::Below
    } else if 2 * rem == den {
        Half::At
    } else {
        Half::Above
    }
}

/// Where the remainder of `m` * 2^`up` / 2^`down` stands.
pub(crate) fn half(m: u64, up: u32, down: u32) -> (r: Half)
    ensures
        r == half_of(
            (m * pow2(up as nat)) as int % pow2(down as nat) as int,
            pow2(down as nat) as int,
        ),
{
    let ghost num = (m * pow2(up as nat)) as int;
    let ghost den = pow2(down as nat) as int;
    proof {
        lemma_pow2_pos(up as nat);
        lemma_pow2_pos(down as nat);
        lemma_pow2_128();
    }
    if up >= down {
        let ghost ps = pow2((up - down) as nat) as int;
        proof {
            lemma_pow2_adds((up - down) as nat, down as nat);
            lemma_mul_is_associative(m as int, ps, den);
            assert(m * ps >= 0) by (nonlinear_arith)
                requires
                    ps >= 0,
                    m >= 0,
            ;
            lemma_exact(m * ps, den);
        }
        return Half::Below;
    }
    let t: u32 = down - up;
    let ghost pt = pow2(t as nat) as int;
    let ghost pu = pow2(up as nat) as int;
    proof {
        lemma_pow2_pos(t as nat);
        lemma_pow2_adds(t as nat, up as nat);
        lemma_cancel(m as int, pt, pu);
        let r = m as int % pt;
        assert(2 * (r * pu) < pt * pu <==> 2 * r < pt) by (nonlinear_arith)
            requires
                pu > 0,
        ;
        assert(2 * (r * pu) == pt * pu <==> 2 * r == pt) by (nonlinear_arith)
            requires
                pu > 0,
        ;
    }
    if t >= 65 {
        proof {
            lemma_pow2_unfold(65);
            if t > 65 {
                lemma_pow2_strictly_increases(65, t as nat);
            }
            lemma_fundamental_div_mod_converse(m as int, pt, 0, m as int);
        }
        return Half::Below;
    }
    let p: u128 = power_of_two(t);
    let rem: u128 = m as u128 % p;
    proof {
        lemma_mod_decreases(m as nat, p as nat);
    }
    let twice: u128 = 2 * rem;
    if twice < p {
        Half::Below
    } else if twice == p {
        Half::At
    } else {
        Half::Above
    }
}

/// How many low bits of `n` lie beyond its `width` leading ones, and the power
/// of two that they make up.
pub(crate) fn excess(n: u128, width: u32) -> (r: (u32, u128))
    requires
        0 < width < 128,
        n < 0x4000_0000_0000_0000_0000_0000_0000_0000,
    ensures
        r.0 == excess_bits(n as nat, width as nat),
        r.1 == pow2(r.0 as nat),
        0 < r.1,
        r.0 <= 127,
        r.1 == 1 || r.1 * pow2(width as nat) <= 2 * n,
{
    let bound: u128 = power_of_two(width);
    let mut v: u128 = n;
    let mut j: u32 = 0;
    let mut step: u128 = 1;
    proof {
        lemma2_to64();
        lemma_pow2_pos(width as nat);
    }
    while v >= bound
        invariant
            0 < width < 128,
            n < 0x4000_0000_0000_0000_0000_0000_0000_0000,
            bound == pow2(width as nat),
            bound > 0,
            step == pow2(j as nat),
            step > 0,
            v * step <= n,
            j + excess_bits(v as nat, width as nat) == excess_bits(n as nat, width as nat),
            step == 1 || step * bound <= 2 * n,
            j <= 127,
        decreases v,
    {
        proof {
            lemma_pow2_unfold((j + 1) as nat);
            assert(bound * step <= v * step) by (nonlinear_arith)
                requires
                    bound <= v,
                    step > 0,
            ;
            assert(step <= bound * step) by (nonlinear_arith)
                requires
                    bound >= 1,
                    step > 0,
            ;
            assert((v / 2) * (2 * step) <= v * step) by (nonlinear_arith)
                requires
                    step > 0,
            ;
            assert((2 * step) * bound == 2 * (bound * step)) by (nonlinear_arith);
            if j >= 126 {
                lemma_pow2_128();
                lemma_pow2_unfold(127);
                if j > 126 {
                    lemma_pow2_strictly_increases(126, j as nat);
                }
                assert(false);
            }
        }
        v = v / 2;
        j = j + 1;
        step = 2 * step;
    }
    (j, step)
}

pub(crate) proof fn lemma_excess(v: nat, width: nat)
    requires
        width > 0,
    ensures
        v < pow2(width) * pow2(excess_bits(v, width)),
        excess_bits(v, width) > 0 ==> 2 * v >= pow2(width) * pow2(excess_bits(v, width)),
    decreases v,
{
    lemma2_to64();
    lemma_pow2_pos(width);
    if v < pow2(width) || v == 0 {
    } else {
        let e = excess_bits(v / 2, width);
        lemma_excess(v / 2, width);
        lemma_pow2_unfold(e + 1);
        assert(pow2(width) * pow2(e + 1) == 2 * (pow2(width) * pow2(e))) by (nonlinear_arith)
            requires
                pow2(e + 1) == 2 * pow2(e),
        ;
        if e == 0 {
            assert(pow2(width) * pow2(0) == pow2(width)) by (nonlinear_arith)
                requires
                    pow2(0) == 1,
            ;
        }
    }
}

pub(crate) proof fn lemma_nearest_even_ordered(a: int, b: int, d: int)
    requires
        0 <= a <= b,
        d > 0,
    ensures
        nearest_even(a, d) <= nearest_even(b, d),
{
    lemma_div_is_ordered(a, b, d);
    lemma_fundamental_div_mod(a, d);
    lemma_fundamental_div_mod(b, d);
    if a / d == b / d {
        assert(a % d <= b % d);
    }
}

} // verus!
