//! That double-precision arithmetic is the exact one, rounded to the closest number.

use crate::binary64::{
    nearest, nearest_integer, rounded, share_of, Binary64, LEADING_BIT, SIGNIFICAND_LIMIT,
};
use crate::shares::lemma_no_share;
use vstd::arithmetic::div_mod::{
    lemma_fundamental_div_mod, lemma_fundamental_div_mod_converse, lemma_mod_bound,
};
use vstd::arithmetic::power2::{lemma2_to64, lemma_pow2_pos, lemma_pow2_unfold, pow2};
use vstd::prelude::*;

verus! {

/// How far `den * value` is from `num`.
pub open spec fn distance(num: nat, den: nat, value: nat) -> nat {
    if den * value < num {
        (num - den * value) as nat
    } else {
        (den * value - num) as nat
    }
}

proof fn lemma_closest_integer(num: nat, den: nat, other: nat)
    requires
        den > 0,
    ensures
        distance(num, den, nearest_integer(num, den)) <= distance(num, den, other),
        distance(num, den, nearest_integer(num, den)) == distance(num, den, other) && other
            != nearest_integer(num, den) ==> nearest_integer(num, den) % 2 == 0 && (other + 1
            == nearest_integer(num, den) || other == nearest_integer(num, den) + 1),
{
    let floor = num / den;
    let rest = num % den;
    lemma_fundamental_div_mod(num as int, den as int);
    lemma_mod_bound(num as int, den as int);
    assert(den * (floor + 1) == den * floor + den) by (nonlinear_arith);
    if other < floor {
        assert(den * other <= den * floor - den) by (nonlinear_arith)
            requires
                other + 1 <= floor,
                den > 0,
        ;
    } else if other > floor + 1 {
        assert(den * other >= den * floor + 2 * den) by (nonlinear_arith)
            requires
                other >= floor + 2,
                den > 0,
        ;
    }
}

proof fn lemma_closest(num: nat, den: nat, significand: nat, exponent: nat)
    requires
        den > 0,
        significand < SIGNIFICAND_LIMIT,
    ensures
        distance(num, den, nearest(num, den)) <= distance(num, den, significand * pow2(exponent)),
        distance(num, den, nearest(num, den)) == distance(num, den, significand * pow2(exponent))
            && significand * pow2(exponent) != nearest(num, den) ==> exists|q: nat, k: nat|
            nearest(num, den) == #[trigger] (q * pow2(k)) && q % 2 == 0 && (significand * pow2(
                exponent,
            ) == nearest(num, den) + pow2(k) || significand * pow2(exponent) + pow2(k) == nearest(
                num,
                den,
            )),
    decreases num - den,
{
    let other = significand * pow2(exponent);
    let value = nearest(num, den);
    lemma2_to64();
    if num < SIGNIFICAND_LIMIT * den {
        lemma_closest_integer(num, den, other);
        assert(value * pow2(0) == value) by (nonlinear_arith)
            requires
                pow2(0) == 1,
        ;
    } else {
        let half = nearest(num, 2 * den);
        assert(den * (2 * half) == (2 * den) * half) by (nonlinear_arith);
        if exponent > 0 {
            let less = (exponent - 1) as nat;
            let half_other = significand * pow2(less);
            lemma_pow2_unfold(exponent);
            assert(other == 2 * half_other) by (nonlinear_arith)
                requires
                    other == significand * pow2(exponent),
                    half_other == significand * pow2(less),
                    pow2(exponent) == 2 * pow2(less),
            ;
            assert(den * (2 * half_other) == (2 * den) * half_other) by (nonlinear_arith);
            lemma_closest(num, 2 * den, significand, less);
            if distance(num, den, value) == distance(num, den, other) && other != value {
                let (q, k) = choose|q: nat, k: nat|
                    half == #[trigger] (q * pow2(k)) && q % 2 == 0 && (half_other == half + pow2(k)
                        || half_other + pow2(k) == half);
                lemma_pow2_unfold(k + 1);
                assert(q * pow2(k + 1) == 2 * (q * pow2(k))) by (nonlinear_arith)
                    requires
                        pow2(k + 1) == 2 * pow2(k),
                ;
                assert(value == q * pow2(k + 1));
            }
        } else {
            assert(other == significand) by (nonlinear_arith)
                requires
                    other == significand * pow2(exponent),
                    pow2(exponent) == 1,
            ;
            lemma_closest(num, 2 * den, LEADING_BIT as nat, 0);
            assert(LEADING_BIT * pow2(0) == LEADING_BIT) by (nonlinear_arith)
                requires
                    pow2(0) == 1,
            ;
            assert((2 * den) * LEADING_BIT == SIGNIFICAND_LIMIT * den) by (nonlinear_arith)
                requires
                    SIGNIFICAND_LIMIT == 2 * LEADING_BIT,
            ;
            assert(den * other < SIGNIFICAND_LIMIT * den) by (nonlinear_arith)
                requires
                    other < SIGNIFICAND_LIMIT,
                    den > 0,
            ;
        }
    }
}

proof fn lemma_nearest_has_significand(num: nat, den: nat) -> (parts: (nat, nat))
    requires
        den > 0,
    ensures
        nearest(num, den) == parts.0 * pow2(parts.1),
        parts.0 < SIGNIFICAND_LIMIT,
    decreases num - den,
{
    lemma2_to64();
    let value = nearest(num, den);
    if num < SIGNIFICAND_LIMIT * den {
        let floor = num / den;
        let rest = num % den;
        lemma_fundamental_div_mod(num as int, den as int);
        lemma_mod_bound(num as int, den as int);
        assert(floor < SIGNIFICAND_LIMIT) by (nonlinear_arith)
            requires
                num == den * floor + rest,
                rest >= 0,
                num < SIGNIFICAND_LIMIT * den,
                den > 0,
        ;
        if value < SIGNIFICAND_LIMIT {
            assert(value * pow2(0) == value) by (nonlinear_arith)
                requires
                    pow2(0) == 1,
            ;
            (value, 0)
        } else {
            assert(LEADING_BIT * pow2(1) == value) by (nonlinear_arith)
                requires
                    pow2(1) == 2,
                    value == 2 * LEADING_BIT,
            ;
            (LEADING_BIT as nat, 1)
        }
    } else {
        let (significand, exponent) = lemma_nearest_has_significand(num, 2 * den);
        lemma_pow2_unfold(exponent + 1);
        assert(2 * (significand * pow2(exponent)) == significand * pow2(exponent + 1))
            by (nonlinear_arith)
            requires
                pow2(exponent + 1) == 2 * pow2(exponent),
        ;
        (significand, exponent + 1)
    }
}

/// Rounding gives a count of units with a significand of 53 bits, and none of the others is closer.
/// If another one is as close, the two are next to each other, and the one with the even significand
/// is given.
pub proof fn law_rounding_gives_the_closest(num: nat, den: nat)
    requires
        den > 0,
    ensures
        exists|significand: nat, exponent: nat|
            significand < SIGNIFICAND_LIMIT && nearest(num, den) == #[trigger] (significand * pow2(
                exponent,
            )),
        forall|significand: nat, exponent: nat|
            significand < SIGNIFICAND_LIMIT ==> distance(num, den, nearest(num, den)) <= distance(
                num,
                den,
                #[trigger] (significand * pow2(exponent)),
            ),
        forall|significand: nat, exponent: nat|
            significand < SIGNIFICAND_LIMIT && distance(num, den, nearest(num, den)) == distance(
                num,
                den,
                #[trigger] (significand * pow2(exponent)),
            ) && significand * pow2(exponent) != nearest(num, den) ==> exists|q: nat, k: nat|
                nearest(num, den) == #[trigger] (q * pow2(k)) && q % 2 == 0 && (significand * pow2(
                    exponent,
                ) == nearest(num, den) + pow2(k) || significand * pow2(exponent) + pow2(k)
                    == nearest(num, den)),
{
    let (significand, exponent) = lemma_nearest_has_significand(num, den);
    assert(significand < SIGNIFICAND_LIMIT && nearest(num, den) == significand * pow2(exponent));
    assert forall|significand: nat, exponent: nat|
        significand < SIGNIFICAND_LIMIT implies distance(num, den, nearest(num, den)) <= distance(
        num,
        den,
        #[trigger] (significand * pow2(exponent)),
    ) by {
        lemma_closest(num, den, significand, exponent);
    }
    assert forall|significand: nat, exponent: nat|
        significand < SIGNIFICAND_LIMIT && distance(num, den, nearest(num, den)) == distance(
            num,
            den,
            #[trigger] (significand * pow2(exponent)),
        ) && significand * pow2(exponent) != nearest(num, den) implies exists|q: nat, k: nat|
        nearest(num, den) == #[trigger] (q * pow2(k)) && q % 2 == 0 && (significand * pow2(exponent)
            == nearest(num, den) + pow2(k) || significand * pow2(exponent) + pow2(k) == nearest(
            num,
            den,
        )) by {
        lemma_closest(num, den, significand, exponent);
    }
}

/// The sum of two finite numbers is the closest number to the exact sum, with its sign, and infinite
/// if that is 2^1024 or more; infinities of one sign add up to themselves, and nothing else that is
/// not finite is a number.
pub proof fn law_sums_are_rounded(a: int, b: int, negative: bool)
    ensures
        ({
            let exact = a + b;
            let units = nearest(
                if exact < 0 {
                    (-exact) as nat
                } else {
                    exact as nat
                },
                1,
            );
            Binary64::Finite(a).plus(Binary64::Finite(b)) == if units >= pow2(2098) {
                Binary64::Infinite(exact < 0)
            } else if exact < 0 {
                Binary64::Finite(-units)
            } else {
                Binary64::Finite(units as int)
            }
        }),
        Binary64::Finite(a).plus(Binary64::Infinite(negative)) == Binary64::Infinite(negative),
        Binary64::Infinite(negative).plus(Binary64::Finite(a)) == Binary64::Infinite(negative),
        Binary64::Infinite(negative).plus(Binary64::Infinite(negative)) == Binary64::Infinite(
            negative,
        ),
        Binary64::Infinite(negative).plus(Binary64::Infinite(!negative)) is NotANumber,
        Binary64::Finite(a).plus(Binary64::NotANumber) is NotANumber,
        Binary64::NotANumber.plus(Binary64::Finite(a)) is NotANumber,
        Binary64::Infinite(negative).plus(Binary64::NotANumber) is NotANumber,
        Binary64::NotANumber.plus(Binary64::Infinite(negative)) is NotANumber,
        Binary64::NotANumber.plus(Binary64::NotANumber) is NotANumber,
{
}

/// The share of a finite percentage that is not negative is the product with the number of pods,
/// then the hundredth, each rounded to the closest number, and then rounded down; at most
/// `usize::MAX`, which it also is where one of the two is infinite. A negative percentage and what is
/// no number have no share.
pub proof fn law_shares_are_rounded_down(n: nat, units: nat)
    ensures
        ({
            let product = nearest(nearest(n, 1) * units, 1);
            let hundredth = nearest(product, 100);
            let floor = hundredth / pow2(1074);
            share_of(n, Binary64::Finite(units as int)) == if product >= pow2(2098) || hundredth
                >= pow2(2098) || floor > usize::MAX {
                usize::MAX as nat
            } else {
                floor
            }
        }),
        units > 0 ==> share_of(n, Binary64::Finite(-units)) == 0,
        share_of(n, Binary64::NotANumber) == 0,
        share_of(n, Binary64::Infinite(true)) == 0,
        share_of(n, Binary64::Infinite(false)) == if n == 0 {
            0
        } else {
            usize::MAX
        },
{
    let exact = nearest(n, 1) * units;
    let product = nearest(exact, 1);
    let p = Binary64::Finite(units as int);
    assert(p.times(n) == rounded(exact as int, 1));
    if product < pow2(2098) {
        assert(p.times(n) == Binary64::Finite(product as int));
        assert(p.times(n).over_hundred() == rounded(product as int, 100));
        let hundredth = nearest(product, 100);
        if hundredth < pow2(2098) {
            assert(p.times(n).over_hundred() == Binary64::Finite(hundredth as int));
            lemma_pow2_pos(1074);
            lemma_fundamental_div_mod(hundredth as int, pow2(1074) as int);
            let floor = hundredth / pow2(1074);
            assert(p.times(n).over_hundred().floor_to_usize() == if floor > usize::MAX {
                usize::MAX as nat
            } else {
                floor
            });
        } else {
            assert(p.times(n).over_hundred() == Binary64::Infinite(false));
        }
    } else {
        assert(p.times(n) == Binary64::Infinite(false));
    }
    if units > 0 {
        lemma_no_share(n, -units);
    }
}

/// The bits of a number are a sign, eleven bits of exponent and 52 bits of fraction: a number with an
/// exponent has a leading one before its fraction, one without has none, and the largest exponent
/// is for infinities and for what is no number.
pub proof fn law_bits_are_sign_exponent_and_fraction(negative: bool, exponent: u64, fraction: u64)
    requires
        exponent < 2048,
        fraction < LEADING_BIT,
    ensures
        ({
            let bits = (if negative {
                0x8000_0000_0000_0000int
            } else {
                0
            }) + exponent * LEADING_BIT + fraction;
            let units = if exponent == 0 {
                fraction as int
            } else {
                (LEADING_BIT + fraction) * pow2((exponent - 1) as nat)
            };
            &&& 0 <= bits <= u64::MAX
            &&& Binary64::from_bits(bits as u64) == if exponent == 2047 {
                if fraction == 0 {
                    Binary64::Infinite(negative)
                } else {
                    Binary64::NotANumber
                }
            } else if negative {
                Binary64::Finite(-units)
            } else {
                Binary64::Finite(units)
            }
        }),
{
    let sign: int = if negative {
        2048
    } else {
        0
    };
    let high = sign + exponent;
    let bits = high * LEADING_BIT + fraction;
    lemma_fundamental_div_mod_converse(bits, LEADING_BIT as int, high, fraction as int);
    lemma_fundamental_div_mod_converse(high, 2048, if negative { 1int } else { 0 }, exponent as int);
}

/// Numbers are ordered by their units, between the two infinities.
pub proof fn law_numbers_are_ordered_by_units(a: int, b: int)
    requires
        -pow2(2098) < a < pow2(2098),
    ensures
        Binary64::Finite(a).rank() < Binary64::Finite(b).rank() <==> a < b,
        Binary64::Finite(a).rank() == Binary64::Finite(b).rank() <==> a == b,
        Binary64::Infinite(true).rank() < Binary64::Finite(a).rank(),
        Binary64::Finite(a).rank() < Binary64::Infinite(false).rank(),
{
}

} // verus!
