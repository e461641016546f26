//! Double-precision numbers (IEEE 754 binary64) in integer arithmetic.
//!
//! Every finite binary64 number is an integer multiple of 2^-1074, the smallest positive one.
//! A number is therefore modelled by the integer that counts these units, and an operation by
//! the exact result in units, rounded to the nearest number, ties to even.

use vstd::arithmetic::div_mod::{
    lemma_div_is_ordered, lemma_fundamental_div_mod, lemma_fundamental_div_mod_converse,
    lemma_mod_bound,
};
use vstd::arithmetic::power2::{
    lemma2_to64, lemma2_to64_rest, lemma_pow2_adds, lemma_pow2_pos, lemma_pow2_strictly_increases,
    lemma_pow2_unfold, pow2,
};
use vstd::prelude::*;

verus! {

/// A binary64 number: a multiple of 2^-1074, an infinity (negative or not), or no number.
pub enum Binary64 {
    Finite(int),
    Infinite(bool),
    NotANumber,
}

/// 2^53: a significand has 53 bits.
pub const SIGNIFICAND_LIMIT: u64 = 0x20_0000_0000_0000;

/// 2^52, the weight of the leading bit of a significand.
pub const LEADING_BIT: u64 = 0x10_0000_0000_0000;

/// The least count of units that is too large for a finite number.
pub open spec fn overflow_limit() -> nat {
    pow2(2098)
}

/// How many units make up the number one.
pub open spec fn units_per_one() -> nat {
    pow2(1074)
}

/// The integer nearest to `num / den`, the even one if two are equally near.
pub open spec fn nearest_integer(num: nat, den: nat) -> nat {
    let floor = num / den;
    let rest = num % den;
    if 2 * rest < den || (2 * rest == den && floor % 2 == 0) {
        floor
    } else {
        floor + 1
    }
}

/// The count of units nearest to `num / den` that has a significand of 53 bits, the one with the
/// even significand if two are equally near.
pub open spec fn nearest(num: nat, den: nat) -> nat
    decreases num - den,
{
    if den == 0 {
        0
    } else if num < SIGNIFICAND_LIMIT * den {
        nearest_integer(num, den)
    } else {
        2 * nearest(num, 2 * den)
    }
}

/// The number nearest to `num / den` units.
pub open spec fn rounded(num: int, den: nat) -> Binary64 {
    let units = nearest(
        if num < 0 {
            (-num) as nat
        } else {
            num as nat
        },
        den,
    );
    if units >= overflow_limit() {
        Binary64::Infinite(num < 0)
    } else if num < 0 {
        Binary64::Finite(-units)
    } else {
        Binary64::Finite(units as int)
    }
}

impl Binary64 {
    /// The number with the bit pattern `bits`: a sign bit, 11 exponent bits, 52 fraction bits.
    pub open spec fn from_bits(bits: u64) -> Binary64 {
        let negative = bits >= 0x8000_0000_0000_0000;
        let exponent = (bits / LEADING_BIT) % 2048;
        let fraction = bits % LEADING_BIT;
        if exponent == 2047 {
            if fraction == 0 {
                Binary64::Infinite(negative)
            } else {
                Binary64::NotANumber
            }
        } else {
            let units = if exponent == 0 {
                fraction as int
            } else {
                (LEADING_BIT + fraction) * pow2((exponent - 1) as nat)
            };
            Binary64::Finite(
                if negative {
                    -units
                } else {
                    units
                },
            )
        }
    }

    /// The sum of two numbers.
    pub open spec fn plus(self, other: Binary64) -> Binary64 {
        match (self, other) {
            (Binary64::NotANumber, _) => Binary64::NotANumber,
            (_, Binary64::NotANumber) => Binary64::NotANumber,
            (Binary64::Finite(a), Binary64::Finite(b)) => rounded(a + b, 1),
            (Binary64::Infinite(a), Binary64::Infinite(b)) => if a == b {
                self
            } else {
                Binary64::NotANumber
            },
            (Binary64::Infinite(_), Binary64::Finite(_)) => self,
            (Binary64::Finite(_), Binary64::Infinite(_)) => other,
        }
    }

    /// The product with the number nearest to the integer `n`.
    pub open spec fn times(self, n: nat) -> Binary64 {
        match self {
            Binary64::NotANumber => self,
            Binary64::Finite(a) => rounded(nearest(n, 1) * a, 1),
            Binary64::Infinite(_) => if n == 0 {
                Binary64::NotANumber
            } else {
                self
            },
        }
    }

    /// The quotient by 100.
    pub open spec fn over_hundred(self) -> Binary64 {
        match self {
            Binary64::Finite(a) => rounded(a, 100),
            _ => self,
        }
    }

    /// The largest integer that is not above the number, brought into the range of `usize`; 0
    /// for what is no number.
    pub open spec fn floor_to_usize(self) -> usize {
        match self {
            Binary64::NotANumber => 0,
            Binary64::Infinite(negative) => if negative {
                0
            } else {
                usize::MAX
            },
            Binary64::Finite(a) => if a < 0 {
                0
            } else if a as nat / units_per_one() > usize::MAX {
                usize::MAX
            } else {
                (a as nat / units_per_one()) as usize
            },
        }
    }

    /// A measure that orders the numbers. It says nothing of what is no number.
    pub open spec fn rank(self) -> int {
        match self {
            Binary64::NotANumber => 0,
            Binary64::Infinite(negative) => if negative {
                -overflow_limit()
            } else {
                overflow_limit() as int
            },
            Binary64::Finite(a) => a,
        }
    }
}

pub(crate) proof fn lemma_constants()
    ensures
        pow2(0) == 1,
        pow2(52) == LEADING_BIT,
        pow2(53) == SIGNIFICAND_LIMIT,
        pow2(64) == 0x1_0000_0000_0000_0000,
{
    lemma2_to64();
    lemma2_to64_rest();
}

pub(crate) proof fn lemma_units()
    ensures
        units_per_one() > SIGNIFICAND_LIMIT * SIGNIFICAND_LIMIT,
        units_per_one() == 128 * pow2(1067),
        pow2(1067) > 0,
        overflow_limit() > 1000 * (SIGNIFICAND_LIMIT * units_per_one()),
{
    lemma_constants();
    lemma2_to64();
    lemma_pow2_pos(1067);
    lemma_pow2_adds(7, 1067);
    lemma_pow2_adds(53, 53);
    lemma_pow2_strictly_increases(106, 1074);
    lemma_pow2_adds(53, 1074);
    lemma_pow2_adds(10, 1127);
    lemma_pow2_strictly_increases(1137, 2098);
    assert(pow2(10) * (SIGNIFICAND_LIMIT * units_per_one()) > 1000 * (SIGNIFICAND_LIMIT
        * units_per_one())) by (nonlinear_arith)
        requires
            pow2(10) == 1024,
            units_per_one() > 0,
            SIGNIFICAND_LIMIT > 0,
    ;
}

/// A common factor of numerator and denominator does not change the nearest integer.
proof fn lemma_nearest_integer_scale(c: nat, num: nat, den: nat)
    requires
        c > 0,
        den > 0,
    ensures
        nearest_integer(c * num, c * den) == nearest_integer(num, den),
{
    let floor = num / den;
    let rest = num % den;
    lemma_fundamental_div_mod(num as int, den as int);
    lemma_mod_bound(num as int, den as int);
    assert(c * num == floor * (c * den) + c * rest) by (nonlinear_arith)
        requires
            num == den * floor + rest,
    ;
    assert(0 <= c * rest < c * den) by (nonlinear_arith)
        requires
            0 <= rest < den,
            c > 0,
    ;
    lemma_fundamental_div_mod_converse(
        (c * num) as int,
        (c * den) as int,
        floor as int,
        (c * rest) as int,
    );
    assert(2 * (c * rest) < c * den <==> 2 * rest < den) by (nonlinear_arith)
        requires
            c > 0,
    ;
    assert(2 * (c * rest) == c * den <==> 2 * rest == den) by (nonlinear_arith)
        requires
            c > 0,
    ;
}

/// Nor the nearest count of units.
pub(crate) proof fn lemma_nearest_cancel(c: nat, num: nat, den: nat)
    requires
        c > 0,
        den > 0,
    ensures
        nearest(c * num, c * den) == nearest(num, den),
    decreases num - den,
{
    assert(c * den > 0) by (nonlinear_arith)
        requires
            c > 0,
            den > 0,
    ;
    assert(c * num < SIGNIFICAND_LIMIT * (c * den) <==> num < SIGNIFICAND_LIMIT * den)
        by (nonlinear_arith)
        requires
            c > 0,
    ;
    if num < SIGNIFICAND_LIMIT * den {
        lemma_nearest_integer_scale(c, num, den);
    } else {
        lemma_nearest_cancel(c, num, 2 * den);
        assert(c * (2 * den) == 2 * (c * den)) by (nonlinear_arith);
    }
}

proof fn lemma_nearest_integer_exact(num: nat)
    ensures
        nearest_integer(num, 1) == num,
{
}

/// A number of which the significand is long enough doubles exactly.
proof fn lemma_nearest_double(num: nat, den: nat)
    requires
        den > 0,
        den == 1 || num >= LEADING_BIT * den,
    ensures
        nearest(2 * num, den) == 2 * nearest(num, den),
{
    if num >= LEADING_BIT * den {
        lemma_nearest_cancel(2, num, den);
        assert(nearest(2 * num, den) == 2 * nearest(2 * num, 2 * den));
    } else {
        lemma_nearest_integer_exact(num);
        lemma_nearest_integer_exact(2 * num);
    }
}

/// Multiplying by a power of two commutes with rounding.
pub(crate) proof fn lemma_nearest_shift(num: nat, den: nat, e: nat)
    requires
        den > 0,
        den == 1 || num >= LEADING_BIT * den,
    ensures
        nearest(num * pow2(e), den) == nearest(num, den) * pow2(e),
    decreases e,
{
    if e == 0 {
        lemma_constants();
    } else {
        let half = (e - 1) as nat;
        lemma_nearest_shift(num, den, half);
        lemma_pow2_unfold(e);
        lemma_pow2_pos(half);
        assert(num * pow2(half) >= num) by (nonlinear_arith)
            requires
                pow2(half) >= 1,
        ;
        lemma_nearest_double(num * pow2(half), den);
        assert(num * pow2(e) == 2 * (num * pow2(half))) by (nonlinear_arith)
            requires
                pow2(e) == 2 * pow2(half),
        ;
        assert(nearest(num, den) * pow2(e) == 2 * (nearest(num, den) * pow2(half)))
            by (nonlinear_arith)
            requires
                pow2(e) == 2 * pow2(half),
        ;
    }
}

/// A count of units between two powers of two is rounded to a multiple of a power of two.
proof fn lemma_nearest_window(num: nat, k: nat)
    requires
        num < SIGNIFICAND_LIMIT * pow2(k),
        k == 0 || num >= LEADING_BIT * pow2(k),
    ensures
        nearest(num, 1) == nearest_integer(num, pow2(k)) * pow2(k),
{
    lemma_constants();
    lemma_nearest_window_from(num, 0, k);
}

proof fn lemma_nearest_window_from(num: nat, i: nat, k: nat)
    requires
        i <= k,
        num < SIGNIFICAND_LIMIT * pow2(k),
        k == 0 || num >= LEADING_BIT * pow2(k),
    ensures
        nearest(num, pow2(i)) * pow2(i) == nearest_integer(num, pow2(k)) * pow2(k),
    decreases k - i,
{
    lemma_pow2_pos(i);
    lemma_pow2_pos(k);
    if i < k {
        lemma_nearest_window_from(num, i + 1, k);
        lemma_pow2_unfold(i + 1);
        if i + 1 < k {
            lemma_pow2_strictly_increases(i + 1, k);
        }
        assert(nearest(num, pow2(i)) == 2 * nearest(num, pow2(i + 1)));
        assert(2 * nearest(num, pow2(i + 1)) * pow2(i) == nearest(num, pow2(i + 1)) * pow2(i + 1))
            by (nonlinear_arith)
            requires
                pow2(i + 1) == 2 * pow2(i),
        ;
    }
}

/// What is less than a quarter of the last place of a number is lost when it is added to it or
/// taken away from it.
proof fn lemma_absorbed(m: nat, e: nat, b: nat)
    requires
        LEADING_BIT <= m < SIGNIFICAND_LIMIT,
        e >= 2,
        b < pow2((e - 2) as nat),
    ensures
        nearest(m * pow2(e) + b, 1) == m * pow2(e),
        b <= m * pow2(e),
        nearest((m * pow2(e) - b) as nat, 1) == m * pow2(e),
{
    lemma_constants();
    let half = (e - 1) as nat;
    let quarter = (e - 2) as nat;
    lemma_pow2_unfold(e);
    lemma_pow2_unfold(half);
    lemma_pow2_pos(quarter);
    let p = pow2(e);
    let h = pow2(half);
    assert(m * p >= LEADING_BIT * p) by (nonlinear_arith)
        requires
            m >= LEADING_BIT,
    ;
    assert(m * p + p <= SIGNIFICAND_LIMIT * p) by (nonlinear_arith)
        requires
            m + 1 <= SIGNIFICAND_LIMIT,
    ;
    lemma_fundamental_div_mod_converse((m * p + b) as int, p as int, m as int, b as int);
    lemma_nearest_window(m * p + b, e);
    if b == 0 {
    } else if m > LEADING_BIT {
        assert(m * p - p >= LEADING_BIT * p) by (nonlinear_arith)
            requires
                m >= LEADING_BIT + 1,
        ;
        assert(m * p - b == p * (m - 1) + (p - b)) by (nonlinear_arith);
        lemma_fundamental_div_mod_converse(m * p - b, p as int, m - 1, p - b);
        lemma_nearest_window((m * p - b) as nat, e);
    } else {
        assert(m * p == SIGNIFICAND_LIMIT * h) by (nonlinear_arith)
            requires
                m == LEADING_BIT,
                p == 2 * h,
        ;
        assert(SIGNIFICAND_LIMIT * h - b == h * (SIGNIFICAND_LIMIT - 1) + (h - b))
            by (nonlinear_arith);
        lemma_fundamental_div_mod_converse(m * p - b, h as int, SIGNIFICAND_LIMIT - 1, h - b);
        lemma_nearest_window((m * p - b) as nat, half);
        assert(SIGNIFICAND_LIMIT * h == m * p);
    }
}

/// Rounding to the nearest does not even double.
proof fn lemma_nearest_bound(num: nat, den: nat)
    requires
        den > 0,
    ensures
        nearest(num, den) * den <= 2 * num,
    decreases num - den,
{
    if num < SIGNIFICAND_LIMIT * den {
        let floor = num / den;
        let rest = num % den;
        lemma_fundamental_div_mod(num as int, den as int);
        lemma_mod_bound(num as int, den as int);
        assert(floor * den == num - rest) by (nonlinear_arith)
            requires
                num == den * floor + rest,
        ;
        assert((floor + 1) * den == floor * den + den) by (nonlinear_arith);
        if nearest_integer(num, den) == floor + 1 {
            if floor == 0 {
                assert(floor * den == 0) by (nonlinear_arith)
                    requires
                        floor == 0,
                ;
            } else {
                assert(floor * den >= den) by (nonlinear_arith)
                    requires
                        floor >= 1,
                ;
            }
        }
    } else {
        lemma_nearest_bound(num, 2 * den);
        assert(2 * nearest(num, 2 * den) * den == nearest(num, 2 * den) * (2 * den))
            by (nonlinear_arith);
    }
}

/// Rounding misses by at most half of the last place.
pub(crate) proof fn lemma_nearest_error(num: nat, den: nat, k: nat)
    requires
        den > 0,
        num < SIGNIFICAND_LIMIT * (den * pow2(k)),
    ensures
        2 * (nearest(num, den) * den - num) <= den * pow2(k),
        2 * (num - nearest(num, den) * den) <= den * pow2(k),
    decreases num - den,
{
    lemma_pow2_pos(k);
    lemma_constants();
    if num < SIGNIFICAND_LIMIT * den {
        let floor = num / den;
        let rest = num % den;
        lemma_fundamental_div_mod(num as int, den as int);
        lemma_mod_bound(num as int, den as int);
        assert(floor * den == num - rest) by (nonlinear_arith)
            requires
                num == den * floor + rest,
        ;
        assert((floor + 1) * den == floor * den + den) by (nonlinear_arith);
        assert(den <= den * pow2(k)) by (nonlinear_arith)
            requires
                pow2(k) >= 1,
        ;
    } else {
        assert(k > 0) by {
            if k == 0 {
                assert(den * pow2(k) == den) by (nonlinear_arith)
                    requires
                        pow2(k) == 1,
                ;
            }
        }
        let less = (k - 1) as nat;
        lemma_pow2_unfold(k);
        assert(den * pow2(k) == (2 * den) * pow2(less)) by (nonlinear_arith)
            requires
                pow2(k) == 2 * pow2(less),
        ;
        lemma_nearest_error(num, 2 * den, less);
        assert(2 * nearest(num, 2 * den) * den == nearest(num, 2 * den) * (2 * den))
            by (nonlinear_arith);
    }
}

/// Rounding misses by at most one part in 2^53, or by half a unit.
pub(crate) proof fn lemma_nearest_relative_error(num: nat, den: nat)
    requires
        den > 0,
    ensures
        num < SIGNIFICAND_LIMIT * den ==> 2 * (nearest(num, den) * den - num) <= den && 2 * (num
            - nearest(num, den) * den) <= den,
        num >= LEADING_BIT * den ==> SIGNIFICAND_LIMIT * (nearest(num, den) * den - num) <= num
            && SIGNIFICAND_LIMIT * (num - nearest(num, den) * den) <= num,
    decreases num - den,
{
    if num < SIGNIFICAND_LIMIT * den {
        lemma_constants();
        assert(den * pow2(0) == den) by (nonlinear_arith)
            requires
                pow2(0) == 1,
        ;
        lemma_nearest_error(num, den, 0);
    } else {
        lemma_nearest_relative_error(num, 2 * den);
        assert(2 * nearest(num, 2 * den) * den == nearest(num, 2 * den) * (2 * den))
            by (nonlinear_arith);
    }
}

/// Rounding a larger quotient to an integer gives no smaller one.
proof fn lemma_nearest_integer_monotonic(less: nat, more: nat, den: nat)
    requires
        less <= more,
        den > 0,
    ensures
        nearest_integer(less, den) <= nearest_integer(more, den),
{
    lemma_fundamental_div_mod(less as int, den as int);
    lemma_fundamental_div_mod(more as int, den as int);
    lemma_mod_bound(less as int, den as int);
    lemma_mod_bound(more as int, den as int);
    lemma_div_is_ordered(less as int, more as int, den as int);
}

/// A quotient with a full significand keeps it.
proof fn lemma_nearest_full(num: nat, den: nat)
    requires
        den > 0,
        num >= LEADING_BIT * den,
    ensures
        nearest(num, den) >= LEADING_BIT,
    decreases num - den,
{
    if num < SIGNIFICAND_LIMIT * den {
        lemma_fundamental_div_mod(num as int, den as int);
        lemma_mod_bound(num as int, den as int);
        let floor = num / den;
        let rest = num % den;
        assert(floor >= LEADING_BIT) by (nonlinear_arith)
            requires
                num == den * floor + rest,
                rest < den,
                num >= LEADING_BIT * den,
                den > 0,
        ;
    } else {
        lemma_nearest_full(num, 2 * den);
    }
}

/// Rounding keeps the order: a larger quotient is never rounded to a smaller number.
pub(crate) proof fn lemma_nearest_monotonic(less: nat, more: nat, den: nat)
    requires
        less <= more,
        den > 0,
    ensures
        nearest(less, den) <= nearest(more, den),
    decreases more - den,
{
    if more < SIGNIFICAND_LIMIT * den {
        lemma_nearest_integer_monotonic(less, more, den);
    } else if less < SIGNIFICAND_LIMIT * den {
        lemma_nearest_full(more, 2 * den);
        lemma_fundamental_div_mod(less as int, den as int);
        lemma_mod_bound(less as int, den as int);
        let floor = less / den;
        let rest = less % den;
        assert(floor < SIGNIFICAND_LIMIT) by (nonlinear_arith)
            requires
                less == den * floor + rest,
                rest >= 0,
                less < SIGNIFICAND_LIMIT * den,
                den > 0,
        ;
    } else {
        lemma_nearest_monotonic(less, more, 2 * den);
    }
}

/// An integer with a significand of 53 bits is a number, times any power of two.
pub(crate) proof fn lemma_nearest_representable(num: nat, e: nat)
    requires
        num < SIGNIFICAND_LIMIT,
    ensures
        nearest(num * pow2(e), 1) == num * pow2(e),
{
    lemma_nearest_integer_exact(num);
    lemma_nearest_shift(num, 1, e);
}

/// 2 to the power `k`.
fn two_to(k: u32) -> (power: u128)
    requires
        k < 128,
    ensures
        power == pow2(k as nat),
{
    let mut power: u128 = 1;
    let mut i: u32 = 0;
    proof {
        lemma_constants();
    }
    while i < k
        invariant
            i <= k,
            k < 128,
            power == pow2(i as nat),
        decreases k - i,
    {
        proof {
            lemma_pow2_unfold((i + 1) as nat);
            lemma_pow2_127();
            if i + 1 < 127 {
                lemma_pow2_strictly_increases((i + 1) as nat, 127);
            }
        }
        power = power * 2;
        i = i + 1;
    }
    power
}

proof fn lemma_pow2_127()
    ensures
        pow2(127) == 0x8000_0000_0000_0000_0000_0000_0000_0000,
{
    lemma2_to64_rest();
    lemma_pow2_adds(63, 64);
    assert(0x8000_0000_0000_0000 * 0x1_0000_0000_0000_0000
        == 0x8000_0000_0000_0000_0000_0000_0000_0000);
}

/// The significand and the power of two of the count of units nearest to `num / den`.
fn nearest_quotient(num: u128, den: u128) -> (parts: (u64, u32))
    requires
        den > 0,
        den <= 100,
    ensures
        nearest(num as nat, den as nat) == parts.0 * pow2(parts.1 as nat),
        parts.0 <= SIGNIFICAND_LIMIT,
        parts.1 > 0 ==> parts.0 >= LEADING_BIT,
        parts.1 < 128,
        num >= SIGNIFICAND_LIMIT * den ==> parts.1 > 0,
{
    let mut divisor: u128 = den;
    let mut shift: u32 = 0;
    proof {
        lemma_constants();
    }
    while num / (SIGNIFICAND_LIMIT as u128) >= divisor
        invariant
            0 < den <= 100,
            divisor > 0,
            divisor >= pow2(shift as nat),
            divisor <= 0x1_0000_0000_0000_0000_0000,
            shift < 128,
            shift > 0 ==> num >= LEADING_BIT * divisor,
            shift == 0 ==> divisor == den,
            nearest(num as nat, den as nat) == nearest(num as nat, divisor as nat) * pow2(
                shift as nat,
            ),
        decreases num - divisor,
    {
        proof {
            let limit = SIGNIFICAND_LIMIT as int;
            lemma_fundamental_div_mod(num as int, limit);
            lemma_mod_bound(num as int, limit);
            assert(num >= limit * divisor) by (nonlinear_arith)
                requires
                    num == limit * (num as int / limit) + num as int % limit,
                    num as int % limit >= 0,
                    num as int / limit >= divisor,
                    limit > 0,
            ;
            lemma_pow2_unfold((shift + 1) as nat);
            lemma_pow2_127();
            if shift + 1 == 128 {
                assert(divisor >= pow2(127));
            }
            let rest = nearest(num as nat, (2 * divisor) as nat);
            assert(nearest(num as nat, divisor as nat) == 2 * rest);
            assert((2 * rest) * pow2(shift as nat) == rest * pow2((shift + 1) as nat))
                by (nonlinear_arith)
                requires
                    pow2((shift + 1) as nat) == 2 * pow2(shift as nat),
            ;
        }
        divisor = divisor * 2;
        shift = shift + 1;
    }
    proof {
        let limit = SIGNIFICAND_LIMIT as int;
        lemma_fundamental_div_mod(num as int, limit);
        lemma_mod_bound(num as int, limit);
        assert(num < limit * divisor) by (nonlinear_arith)
            requires
                num == limit * (num as int / limit) + num as int % limit,
                num as int % limit < limit,
                num as int / limit + 1 <= divisor,
                limit > 0,
        ;
        lemma_fundamental_div_mod(num as int, divisor as int);
        lemma_mod_bound(num as int, divisor as int);
        let floor = num as int / divisor as int;
        let rest = num as int % divisor as int;
        assert(floor < limit) by (nonlinear_arith)
            requires
                num < limit * divisor,
                num == divisor * floor + rest,
                rest >= 0,
                divisor > 0,
        ;
        if shift > 0 {
            assert(floor >= LEADING_BIT) by (nonlinear_arith)
                requires
                    num >= LEADING_BIT * divisor,
                    num == divisor * floor + rest,
                    rest < divisor,
                    divisor > 0,
            ;
        }
        assert(floor >= 0) by (nonlinear_arith)
            requires
                num == divisor * floor + rest,
                rest < divisor,
                num >= 0,
                divisor > 0,
        ;
    }
    let floor: u64 = (num / divisor) as u64;
    let rest: u128 = num % divisor;
    if 2 * rest < divisor || (2 * rest == divisor && floor % 2 == 0) {
        (floor, shift)
    } else {
        (floor + 1, shift)
    }
}

/// A count of units: `significand * 2^exponent`.
#[derive(Debug, Clone, Copy)]
struct Magnitude {
    significand: u64,
    exponent: u32,
}

impl Magnitude {
    spec fn units(self) -> nat {
        self.significand as nat * pow2(self.exponent as nat)
    }

    /// The significand is in range and as long as the exponent allows, and the count of units is
    /// that of a finite number.
    spec fn normal(self) -> bool {
        &&& self.significand < SIGNIFICAND_LIMIT
        &&& self.exponent == 0 || self.significand >= LEADING_BIT
        &&& self.exponent <= 2045
    }
}

/// Between the counts of units of two magnitudes in normal form the exponent decides first.
proof fn lemma_exponent_decides(a: Magnitude, b: Magnitude)
    requires
        a.normal(),
        b.normal(),
        a.exponent < b.exponent,
    ensures
        a.units() < b.units(),
{
    let e = a.exponent as nat;
    let f = b.exponent as nat;
    lemma_pow2_unfold(e + 1);
    lemma_pow2_pos(e);
    if e + 1 < f {
        lemma_pow2_strictly_increases(e + 1, f);
    }
    assert(a.significand * pow2(e) < b.significand * pow2(f)) by (nonlinear_arith)
        requires
            a.significand < SIGNIFICAND_LIMIT,
            SIGNIFICAND_LIMIT == 2 * LEADING_BIT,
            b.significand >= LEADING_BIT,
            pow2(e) >= 1,
            pow2(f) >= 2 * pow2(e),
    ;
}

proof fn lemma_significand_decides(a: Magnitude, b: Magnitude)
    requires
        a.exponent == b.exponent,
    ensures
        a.units() < b.units() <==> a.significand < b.significand,
{
    let e = a.exponent as nat;
    lemma_pow2_pos(e);
    assert(a.significand * pow2(e) < b.significand * pow2(e) <==> a.significand < b.significand)
        by (nonlinear_arith)
        requires
            pow2(e) >= 1,
    ;
}

proof fn lemma_normal_is_finite(a: Magnitude)
    requires
        a.normal(),
    ensures
        a.units() < overflow_limit(),
{
    lemma_constants();
    let e = a.exponent as nat;
    if e < 2045 {
        lemma_pow2_strictly_increases(e, 2045);
    }
    lemma_pow2_pos(e);
    lemma_pow2_adds(53, 2045);
    assert(a.significand * pow2(e) < SIGNIFICAND_LIMIT * pow2(2045)) by (nonlinear_arith)
        requires
            a.significand < SIGNIFICAND_LIMIT,
            1 <= pow2(e) <= pow2(2045),
    ;
}

/// The magnitude of `significand * 2^exponent` units in normal form, unless that is too much for
/// a finite number.
fn settle(significand: u64, exponent: u32) -> (magnitude: Option<Magnitude>)
    requires
        significand <= SIGNIFICAND_LIMIT,
        exponent < 10_000,
    ensures
        match magnitude {
            Some(m) => m.normal() && m.units() == significand * pow2(exponent as nat)
                && m.units() < overflow_limit(),
            None => significand * pow2(exponent as nat) >= overflow_limit(),
        },
{
    let mut s: u64 = significand;
    let mut e: u32 = exponent;
    let ghost units = significand * pow2(exponent as nat);
    proof {
        lemma_constants();
    }
    if s == SIGNIFICAND_LIMIT {
        s = LEADING_BIT;
        e = e + 1;
        proof {
            lemma_pow2_unfold(e as nat);
            assert(s * pow2(e as nat) == units) by (nonlinear_arith)
                requires
                    units == SIGNIFICAND_LIMIT * pow2(exponent as nat),
                    s == LEADING_BIT,
                    SIGNIFICAND_LIMIT == 2 * LEADING_BIT,
                    pow2(e as nat) == 2 * pow2(exponent as nat),
            ;
        }
    }
    while e > 0 && s < LEADING_BIT
        invariant
            s < SIGNIFICAND_LIMIT,
            e <= 10_000,
            s * pow2(e as nat) == units,
        decreases e,
    {
        let ghost previous = s;
        proof {
            lemma_pow2_unfold(e as nat);
        }
        s = s * 2;
        e = e - 1;
        proof {
            assert(s * pow2(e as nat) == units) by (nonlinear_arith)
                requires
                    previous * pow2((e + 1) as nat) == units,
                    s == 2 * previous,
                    pow2((e + 1) as nat) == 2 * pow2(e as nat),
            ;
        }
    }
    if e > 2045 {
        proof {
            lemma_pow2_adds(52, 2046);
            if e > 2046 {
                lemma_pow2_strictly_increases(2046, e as nat);
            }
            lemma_pow2_pos(2046);
            assert(s * pow2(e as nat) >= LEADING_BIT * pow2(2046)) by (nonlinear_arith)
                requires
                    s >= LEADING_BIT,
                    pow2(e as nat) >= pow2(2046),
            ;
        }
        None
    } else {
        let magnitude = Magnitude { significand: s, exponent: e };
        proof {
            lemma_normal_is_finite(magnitude);
        }
        Some(magnitude)
    }
}

/// A binary64 number, taken apart.
#[derive(Debug, Clone, Copy)]
enum Number {
    Finite(bool, Magnitude),
    Infinite(bool),
    NotANumber,
}

impl Number {
    spec fn wf(self) -> bool {
        match self {
            Number::Finite(_, magnitude) => magnitude.normal(),
            _ => true,
        }
    }

    spec fn model(self) -> Binary64 {
        match self {
            Number::Finite(negative, magnitude) => Binary64::Finite(
                if negative {
                    -magnitude.units()
                } else {
                    magnitude.units() as int
                },
            ),
            Number::Infinite(negative) => Binary64::Infinite(negative),
            Number::NotANumber => Binary64::NotANumber,
        }
    }
}

/// The number `num * 2^exponent` units, rounded.
fn round(negative: bool, num: u128, exponent: u32) -> (number: Number)
    requires
        exponent <= 2045,
    ensures
        number.wf(),
        number.model() == rounded(
            if negative {
                -(num * pow2(exponent as nat))
            } else {
                num * pow2(exponent as nat)
            },
            1,
        ),
{
    let (significand, shift) = nearest_quotient(num, 1);
    let ghost e = exponent as nat;
    let ghost s = shift as nat;
    proof {
        lemma_nearest_shift(num as nat, 1, e);
        lemma_pow2_adds(s, e);
        assert((significand * pow2(s)) * pow2(e) == significand * (pow2(s) * pow2(e)))
            by (nonlinear_arith);
        lemma_pow2_pos(e);
        assert(num * pow2(e) >= 0) by (nonlinear_arith);
        if num > 0 {
            assert(num * pow2(e) > 0) by (nonlinear_arith)
                requires
                    num > 0,
                    pow2(e) > 0,
            ;
        } else {
            assert(num * pow2(e) == 0) by (nonlinear_arith)
                requires
                    num == 0,
            ;
            lemma_pow2_pos(2098);
        }
    }
    match settle(significand, shift + exponent) {
        Some(magnitude) => Number::Finite(negative, magnitude),
        None => Number::Infinite(negative),
    }
}

/// The number with the bit pattern `bits`, taken apart.
fn unpack(bits: u64) -> (number: Number)
    ensures
        number.wf(),
        number.model() == Binary64::from_bits(bits),
{
    let negative = bits >= 0x8000_0000_0000_0000;
    let exponent: u64 = (bits / LEADING_BIT) % 2048;
    let fraction: u64 = bits % LEADING_BIT;
    proof {
        lemma_constants();
    }
    if exponent == 2047 {
        if fraction == 0 {
            Number::Infinite(negative)
        } else {
            Number::NotANumber
        }
    } else if exponent == 0 {
        Number::Finite(negative, Magnitude { significand: fraction, exponent: 0 })
    } else {
        Number::Finite(
            negative,
            Magnitude { significand: LEADING_BIT + fraction, exponent: (exponent - 1) as u32 },
        )
    }
}

/// The sum of two finite numbers, of which the first has no smaller exponent than the second.
fn finite_sum(
    a_negative: bool,
    a: Magnitude,
    b_negative: bool,
    b: Magnitude,
) -> (sum: Number)
    requires
        a.normal(),
        b.normal(),
        a.exponent >= b.exponent,
    ensures
        sum.wf(),
        sum.model() == Number::Finite(a_negative, a).model().plus(
            Number::Finite(b_negative, b).model(),
        ),
{
    let gap: u32 = a.exponent - b.exponent;
    let ghost e = b.exponent as nat;
    let ghost f = a.exponent as nat;
    if gap > 64 {
        proof {
            lemma_constants();
            lemma_pow2_adds(53, e);
            lemma_pow2_strictly_increases(53 + e, (f - 2) as nat);
            lemma_pow2_pos(e);
            assert(b.units() < SIGNIFICAND_LIMIT * pow2(e)) by (nonlinear_arith)
                requires
                    b.units() == b.significand * pow2(e),
                    b.significand < SIGNIFICAND_LIMIT,
                    pow2(e) > 0,
            ;
            lemma_absorbed(a.significand as nat, f, b.units());
            lemma_normal_is_finite(a);
            lemma_pow2_pos(f);
            lemma_pow2_strictly_increases(e, (f - 2) as nat);
            assert(a.units() >= pow2(f)) by (nonlinear_arith)
                requires
                    a.units() == a.significand * pow2(f),
                    a.significand >= 1,
                    pow2(f) > 0,
            ;
            lemma_pow2_strictly_increases((f - 2) as nat, f);
        }
        return Number::Finite(a_negative, a);
    }
    let scale: u128 = two_to(gap);
    proof {
        lemma_constants();
        if gap < 64 {
            lemma_pow2_strictly_increases(gap as nat, 64);
        }
        assert(a.significand * scale <= SIGNIFICAND_LIMIT * 0x1_0000_0000_0000_0000)
            by (nonlinear_arith)
            requires
                a.significand < SIGNIFICAND_LIMIT,
                0 <= scale <= 0x1_0000_0000_0000_0000,
        ;
        lemma_pow2_adds(gap as nat, e);
        assert(a.significand * (scale * pow2(e)) == (a.significand * scale) * pow2(e))
            by (nonlinear_arith);
    }
    let wide: u128 = a.significand as u128 * scale;
    let narrow: u128 = b.significand as u128;
    proof {
        assert((wide + narrow) * pow2(e) == wide * pow2(e) + narrow * pow2(e)) by (nonlinear_arith);
        assert((wide - narrow) * pow2(e) == wide * pow2(e) - narrow * pow2(e)) by (nonlinear_arith);
        assert((narrow - wide) * pow2(e) == narrow * pow2(e) - wide * pow2(e)) by (nonlinear_arith);
    }
    if a_negative == b_negative {
        round(a_negative, wide + narrow, b.exponent)
    } else if wide >= narrow {
        round(a_negative, wide - narrow, b.exponent)
    } else {
        round(b_negative, narrow - wide, b.exponent)
    }
}

fn sum(a: Number, b: Number) -> (sum: Number)
    requires
        a.wf(),
        b.wf(),
    ensures
        sum.wf(),
        sum.model() == a.model().plus(b.model()),
{
    match (a, b) {
        (Number::NotANumber, _) => a,
        (_, Number::NotANumber) => b,
        (Number::Finite(a_negative, m), Number::Finite(b_negative, n)) => {
            if m.exponent >= n.exponent {
                finite_sum(a_negative, m, b_negative, n)
            } else {
                finite_sum(b_negative, n, a_negative, m)
            }
        },
        (Number::Infinite(a_negative), Number::Infinite(b_negative)) => {
            if a_negative == b_negative {
                a
            } else {
                Number::NotANumber
            }
        },
        (Number::Infinite(_), Number::Finite(_, _)) => a,
        (Number::Finite(_, _), Number::Infinite(_)) => b,
    }
}

/// The product of a number and an integer.
fn product(a: Number, n: usize) -> (product: Number)
    requires
        a.wf(),
    ensures
        product.wf(),
        product.model() == a.model().times(n as nat),
{
    match a {
        Number::NotANumber => a,
        Number::Infinite(_) => {
            if n == 0 {
                Number::NotANumber
            } else {
                a
            }
        },
        Number::Finite(negative, m) => {
            let (significand, shift) = nearest_quotient(n as u128, 1);
            proof {
                lemma_nearest_bound(n as nat, 1);
            }
            let factor: u128 = significand as u128 * two_to(shift);
            proof {
                assert(factor * m.significand <= 0x2_0000_0000_0000_0000 * SIGNIFICAND_LIMIT)
                    by (nonlinear_arith)
                    requires
                        0 <= factor <= 0x2_0000_0000_0000_0000,
                        m.significand < SIGNIFICAND_LIMIT,
                ;
                let p = pow2(m.exponent as nat);
                assert((factor * m.significand) * p == factor * (m.significand * p))
                    by (nonlinear_arith);
                assert(factor * (-(m.significand * p)) == -(factor * (m.significand * p)))
                    by (nonlinear_arith);
            }
            round(negative, factor * m.significand as u128, m.exponent)
        },
    }
}

proof fn lemma_shift_right(q: nat, s: nat, k: nat)
    ensures
        (q * pow2(s)) / pow2(s + k) == q / pow2(k),
{
    lemma_pow2_pos(s);
    lemma_pow2_pos(k);
    lemma_pow2_adds(s, k);
    lemma_fundamental_div_mod(q as int, pow2(k) as int);
    lemma_mod_bound(q as int, pow2(k) as int);
    let floor = q as int / pow2(k) as int;
    let rest = q as int % pow2(k) as int;
    let p = pow2(s) as int;
    let d = pow2(k) as int;
    assert(q * p == floor * (p * d) + rest * p) by (nonlinear_arith)
        requires
            q == d * floor + rest,
    ;
    assert(0 <= rest * p < p * d) by (nonlinear_arith)
        requires
            0 <= rest < d,
            p > 0,
    ;
    lemma_fundamental_div_mod_converse(q * p, p * d, floor, rest * p);
}

proof fn lemma_shift_left(q: nat, s: nat, k: nat)
    ensures
        (q * pow2(s + k)) / pow2(s) == q * pow2(k),
{
    lemma_pow2_pos(s);
    lemma_pow2_adds(s, k);
    let p = pow2(s) as int;
    let d = pow2(k) as int;
    assert(q * (p * d) == (q * d) * p + 0) by (nonlinear_arith);
    lemma_fundamental_div_mod_converse(q * (p * d), p, q * d, 0);
}

/// The hundredth part of a number, rounded down to an integer.
fn floor_of_hundredth(a: Number) -> (floor: usize)
    requires
        a.wf(),
    ensures
        floor == a.model().over_hundred().floor_to_usize(),
{
    let m = match a {
        Number::NotANumber => {
            return 0;
        },
        Number::Infinite(negative) => {
            return if negative {
                0
            } else {
                usize::MAX
            };
        },
        Number::Finite(negative, m) => {
            proof {
                lemma_pow2_pos(1074);
                lemma_pow2_pos(2098);
            }
            if negative {
                proof {
                    assert(0nat / units_per_one() == 0) by {
                        lemma_fundamental_div_mod_converse(0, units_per_one() as int, 0, 0);
                    }
                    assert(nearest(0, 100) == 0);
                }
                return 0;
            }
            m
        },
    };
    proof {
        lemma_constants();
        lemma_nearest_bound(m.units(), 100);
        lemma_normal_is_finite(m);
    }
    if m.exponent < 64 {
        proof {
            let e = m.exponent as nat;
            lemma_pow2_strictly_increases(e, 64);
            lemma_pow2_adds(53, 64);
            lemma_pow2_pos(e);
            lemma_pow2_strictly_increases(117, 1073);
            lemma_pow2_unfold(1074);
            assert(m.units() < pow2(117)) by (nonlinear_arith)
                requires
                    m.units() == m.significand * pow2(e),
                    m.significand < SIGNIFICAND_LIMIT,
                    0 < pow2(e) < pow2(64),
                    pow2(117) == SIGNIFICAND_LIMIT * pow2(64),
            ;
            let y = nearest(m.units(), 100);
            lemma_fundamental_div_mod_converse(y as int, units_per_one() as int, 0, y as int);
        }
        return 0;
    }
    let ghost j = (m.exponent - 64) as nat;
    let num: u128 = m.significand as u128 * 0x1_0000_0000_0000_0000;
    let (q, d) = nearest_quotient(num, 100);
    let scale: u32 = d + (m.exponent - 64);
    let ghost y = nearest(m.units(), 100);
    proof {
        lemma_pow2_adds(64, j);
        assert(m.units() == num * pow2(j)) by (nonlinear_arith)
            requires
                m.units() == m.significand * pow2(64 + j),
                pow2(64 + j) == pow2(64) * pow2(j),
                num == m.significand * pow2(64),
        ;
        lemma_nearest_shift(num as nat, 100, j);
        lemma_pow2_adds(d as nat, j);
        assert(y == q * pow2(scale as nat)) by (nonlinear_arith)
            requires
                y == (q * pow2(d as nat)) * pow2(j),
                pow2(scale as nat) == pow2(d as nat) * pow2(j),
        ;
    }
    if scale >= 1074 {
        let k: u32 = scale - 1074;
        proof {
            lemma_shift_left(q as nat, 1074, k as nat);
        }
        if k >= 12 {
            proof {
                if k > 12 {
                    lemma_pow2_strictly_increases(12, k as nat);
                }
                lemma2_to64();
                assert(q * pow2(k as nat) >= LEADING_BIT * 0x1000) by (nonlinear_arith)
                    requires
                        q >= LEADING_BIT,
                        pow2(k as nat) >= 0x1000,
                ;
            }
            return usize::MAX;
        }
        proof {
            lemma_pow2_strictly_increases(k as nat, 12);
            lemma2_to64();
            assert(q * pow2(k as nat) <= SIGNIFICAND_LIMIT * 0x1000) by (nonlinear_arith)
                requires
                    q <= SIGNIFICAND_LIMIT,
                    0 <= pow2(k as nat) <= 0x1000,
            ;
        }
        let whole: u128 = q as u128 * two_to(k);
        if whole > usize::MAX as u128 {
            usize::MAX
        } else {
            whole as usize
        }
    } else {
        let k: u32 = 1074 - scale;
        proof {
            lemma_shift_right(q as nat, scale as nat, k as nat);
        }
        if k >= 54 {
            proof {
                lemma2_to64_rest();
                if k > 54 {
                    lemma_pow2_strictly_increases(54, k as nat);
                }
                lemma_fundamental_div_mod_converse(q as int, pow2(k as nat) as int, 0, q as int);
            }
            return 0;
        }
        proof {
            lemma_pow2_pos(k as nat);
        }
        let whole: u128 = q as u128 / two_to(k);
        if whole > usize::MAX as u128 {
            usize::MAX
        } else {
            whole as usize
        }
    }
}

/// Whether one magnitude is larger than another.
fn larger(a: Magnitude, b: Magnitude) -> (larger: bool)
    requires
        a.normal(),
        b.normal(),
    ensures
        larger == (a.units() > b.units()),
{
    if a.exponent > b.exponent {
        proof {
            lemma_exponent_decides(b, a);
        }
        true
    } else if a.exponent < b.exponent {
        proof {
            lemma_exponent_decides(a, b);
        }
        false
    } else {
        proof {
            lemma_significand_decides(b, a);
        }
        a.significand > b.significand
    }
}

/// Whether one number is above another.
fn above(a: Number, b: Number) -> (above: bool)
    requires
        a.wf(),
        b.wf(),
        a !is NotANumber,
        b !is NotANumber,
    ensures
        above == (a.model().rank() > b.model().rank()),
{
    proof {
        lemma_pow2_pos(2098);
        if let Number::Finite(_, m) = a {
            lemma_normal_is_finite(m);
        }
        if let Number::Finite(_, m) = b {
            lemma_normal_is_finite(m);
        }
    }
    match (a, b) {
        (Number::Finite(a_negative, m), Number::Finite(b_negative, n)) => {
            if a_negative {
                b_negative && larger(n, m)
            } else if b_negative {
                let zero = Magnitude { significand: 0, exponent: 0 };
                assert(zero.units() == 0) by (nonlinear_arith)
                    requires
                        zero.units() == 0 * pow2(0),
                ;
                larger(m, zero) || larger(n, zero)
            } else {
                larger(m, n)
            }
        },
        (Number::Infinite(negative), Number::Finite(_, _)) => !negative,
        (Number::Finite(_, _), Number::Infinite(negative)) => negative,
        (Number::Infinite(a_negative), Number::Infinite(b_negative)) => !a_negative && b_negative,
        _ => false,
    }
}

/// The number 100.
pub open spec fn hundred() -> Binary64 {
    Binary64::Finite((100 * units_per_one()) as int)
}

/// Whether a number is 100.
fn is_hundred(a: Number) -> (is: bool)
    requires
        a.wf(),
    ensures
        is == (a.model() == hundred()),
{
    // 100 = 7036874417766400 * 2^-46, and 1074 - 46 = 1028
    let exact = Magnitude { significand: 7036874417766400, exponent: 1028 };
    proof {
        lemma2_to64_rest();
        lemma_pow2_adds(46, 1028);
        assert(exact.units() == 100 * pow2(1074)) by (nonlinear_arith)
            requires
                exact.units() == 7036874417766400 * pow2(1028),
                pow2(1074) == 0x400000000000 * pow2(1028),
        ;
        lemma_pow2_pos(1074);
    }
    match a {
        Number::Finite(negative, m) => !negative && !larger(m, exact) && !larger(exact, m),
        _ => false,
    }
}

/// A percentage, as the binary64 number with the bit pattern `bits`.
#[derive(Debug, Clone, Copy)]
pub struct Percentage {
    pub bits: u64,
}

impl View for Percentage {
    type V = Binary64;

    open spec fn view(&self) -> Binary64 {
        Binary64::from_bits(self.bits)
    }
}

/// The left-to-right sum of the first `n` percentages.
pub open spec fn sum_of(percentages: Seq<Binary64>, n: int) -> Binary64
    decreases n,
{
    if n <= 0 {
        Binary64::Finite(0)
    } else {
        sum_of(percentages, n - 1).plus(percentages[n - 1])
    }
}

/// The percentages of a list, in its order.
pub open spec fn percentage_views(percentages: Seq<Percentage>) -> Seq<Binary64> {
    Seq::new(percentages.len(), |i: int| percentages[i]@)
}

/// How many of `n` pods make up the percentage `p`: the product of the two, over 100, rounded
/// down.
pub open spec fn share_of(n: nat, p: Binary64) -> usize {
    p.times(n).over_hundred().floor_to_usize()
}

impl Percentage {
    /// The percentage with the bit pattern `bits`.
    pub fn from_bits(bits: u64) -> (percentage: Percentage)
        ensures
            percentage@ == Binary64::from_bits(bits),
    {
        Percentage { bits }
    }

    /// Whether the percentage is a number.
    pub fn is_number(&self) -> (is: bool)
        ensures
            is == (self@ !is NotANumber),
    {
        match unpack(self.bits) {
            Number::NotANumber => false,
            _ => true,
        }
    }

    /// Whether the percentage is above another.
    pub fn is_above(&self, other: &Percentage) -> (above: bool)
        requires
            self@ !is NotANumber,
            other@ !is NotANumber,
        ensures
            above == (self@.rank() > other@.rank()),
    {
        above(unpack(self.bits), unpack(other.bits))
    }

    /// How many of `pod_count` pods make up the percentage.
    pub fn share(&self, pod_count: usize) -> (share: usize)
        ensures
            share == share_of(pod_count as nat, self@),
    {
        floor_of_hundredth(product(unpack(self.bits), pod_count))
    }
}

/// Whether the percentages, added up in order, make 100.
pub fn sum_to_hundred(percentages: &Vec<Percentage>) -> (hundred: bool)
    ensures
        hundred == (sum_of(percentage_views(percentages@), percentages@.len() as int)
            == self::hundred()),
{
    let mut total = Number::Finite(false, Magnitude { significand: 0, exponent: 0 });
    let mut i: usize = 0;
    proof {
        assert(0 * pow2(0) == 0) by (nonlinear_arith);
    }
    while i < percentages.len()
        invariant
            i <= percentages@.len(),
            total.wf(),
            total.model() == sum_of(percentage_views(percentages@), i as int),
        decreases percentages@.len() - i,
    {
        total = sum(total, unpack(percentages[i].bits));
        i = i + 1;
    }
    is_hundred(total)
}

} // verus!
