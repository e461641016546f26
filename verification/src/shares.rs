//! How the share of the pods that a percentage makes up relates to the percentage.

use crate::binary64::{
    lemma_constants, lemma_nearest_cancel, lemma_nearest_error,
    lemma_nearest_monotonic, lemma_nearest_representable, lemma_units, nearest, overflow_limit,
    rounded, share_of, sum_of, units_per_one, Binary64, SIGNIFICAND_LIMIT,
};
use vstd::arithmetic::div_mod::{
    lemma_div_is_ordered, lemma_fundamental_div_mod, lemma_fundamental_div_mod_converse,
    lemma_mod_bound,
};
use vstd::arithmetic::power2::pow2;
use vstd::prelude::*;

verus! {

/// The number of pods below which the share of a percentage is as exact as the laws here say.
pub const MANY_PODS: u64 = 0x4000_0000_0000;

/// The percentage `c`, for an integer `c`.
pub open spec fn whole(c: nat) -> Binary64 {
    Binary64::Finite((c * units_per_one()) as int)
}

/// The sum of the first `n` of the integers.
pub open spec fn integer_sum(values: Seq<nat>, n: int) -> nat
    decreases n,
{
    if n <= 0 {
        0
    } else {
        integer_sum(values, n - 1) + values[n - 1]
    }
}

/// The share of a percentage differs from the exact part of the pods by less than one pod, and
/// by the hundredth of a pod that rounding may add: `n * p / 100 - 1.01 < share <= n * p / 100 +
/// 0.01`, for a percentage `p` from 0 to 100 that counts `units` units.
pub proof fn law_share_is_the_percentage(n: nat, units: nat)
    requires
        n < MANY_PODS,
        n <= usize::MAX,
        units <= 100 * units_per_one(),
    ensures
        100 * share_of(n, Binary64::Finite(units as int)) * units_per_one() <= n * units
            + units_per_one(),
        n * units < 100 * (share_of(n, Binary64::Finite(units as int)) + 1) * units_per_one()
            + units_per_one(),
{
    lemma_units();
    lemma_constants();
    let one = units_per_one();
    let exact = n * units;
    assert(exact < SIGNIFICAND_LIMIT * one) by (nonlinear_arith)
        requires
            exact == n * units,
            n < MANY_PODS,
            units <= 100 * one,
            one > 0,
            100 * MANY_PODS < SIGNIFICAND_LIMIT,
    ;
    assert(nearest(n, 1) == n) by {
        lemma_nearest_representable(n, 0);
        assert(n * pow2(0) == n) by (nonlinear_arith)
            requires
                pow2(0) == 1,
        ;
    }
    let x = nearest(exact, 1);
    assert(1 * pow2(1074) == one) by (nonlinear_arith)
        requires
            one == pow2(1074),
    ;
    lemma_nearest_error(exact, 1, 1074);
    assert(exact <= 100 * n * one) by (nonlinear_arith)
        requires
            exact == n * units,
            units <= 100 * one,
    ;
    let y = nearest(x, 100);
    assert(100 * n * one + one <= SIGNIFICAND_LIMIT * (100 * pow2(1067))) by (nonlinear_arith)
        requires
            n + 1 <= MANY_PODS,
            one == 128 * pow2(1067),
            MANY_PODS * 128 == SIGNIFICAND_LIMIT,
    ;
    assert(x < SIGNIFICAND_LIMIT * (100 * pow2(1067)));
    lemma_nearest_error(x, 100, 1067);
    assert(rounded(exact as int, 1) == Binary64::Finite(x as int));
    assert(rounded(x as int, 100) == Binary64::Finite(y as int));
    lemma_fundamental_div_mod(y as int, one as int);
    lemma_mod_bound(y as int, one as int);
    let floor = y / one;
    let rest = y % one;
    assert(floor <= n) by (nonlinear_arith)
        requires
            y == one * floor + rest,
            100 * y <= exact + one,
            exact <= 100 * n * one,
            one > 0,
            rest >= 0,
    ;
    assert(100 * floor * one <= 100 * y) by (nonlinear_arith)
        requires
            y == one * floor + rest,
            rest >= 0,
    ;
    assert(100 * y < 100 * (floor + 1) * one) by (nonlinear_arith)
        requires
            y == one * floor + rest,
            rest < one,
    ;
}

/// The share of a whole percentage is exactly the part of the pods, rounded down.
pub proof fn law_whole_percentage_is_exact(n: nat, c: nat)
    requires
        n < MANY_PODS,
        n <= usize::MAX,
        c <= 100,
    ensures
        share_of(n, whole(c)) == n * c / 100,
{
    lemma_units();
    lemma_constants();
    let one = units_per_one();
    let part = pow2(1067);
    let k = n * c;
    assert(k < SIGNIFICAND_LIMIT && k <= 100 * n) by (nonlinear_arith)
        requires
            k == n * c,
            n < MANY_PODS,
            c <= 100,
            100 * MANY_PODS < SIGNIFICAND_LIMIT,
    ;
    assert(nearest(n, 1) == n) by {
        lemma_nearest_representable(n, 0);
        assert(n * pow2(0) == n) by (nonlinear_arith)
            requires
                pow2(0) == 1,
        ;
    }
    let x = k * one;
    assert(n * (c * one) == x) by (nonlinear_arith)
        requires
            x == (n * c) * one,
    ;
    lemma_nearest_representable(k, 1074);
    assert(x < SIGNIFICAND_LIMIT * one) by (nonlinear_arith)
        requires
            x == k * one,
            k < SIGNIFICAND_LIMIT,
            one > 0,
    ;
    assert(rounded(x as int, 1) == Binary64::Finite(x as int));
    let y = nearest(x, 100);
    let floor = k / 100;
    let rest = k % 100;
    assert(x < SIGNIFICAND_LIMIT * (100 * part)) by (nonlinear_arith)
        requires
            x == k * one,
            k <= 100 * n,
            n < MANY_PODS,
            one == 128 * part,
            part > 0,
            MANY_PODS * 128 == SIGNIFICAND_LIMIT,
    ;
    lemma_nearest_error(x, 100, 1067);
    assert(x == 128 * part * (100 * floor + rest)) by (nonlinear_arith)
        requires
            x == k * one,
            one == 128 * part,
            k == 100 * floor + rest,
    ;
    assert(x == 12800 * (part * floor) + 128 * (part * rest)) by (nonlinear_arith)
        requires
            x == 128 * part * (100 * floor + rest),
    ;
    assert(part * rest <= 99 * part) by (nonlinear_arith)
        requires
            rest <= 99,
    ;
    assert(one * floor == 128 * (part * floor)) by (nonlinear_arith)
        requires
            one == 128 * part,
    ;
    assert(y < one * floor + one);
    if rest == 0 {
        assert(part * rest == 0) by (nonlinear_arith)
            requires
                rest == 0,
        ;
        lemma_nearest_cancel(100, floor * one, 1);
        lemma_nearest_representable(floor, 1074);
        assert(floor * one == one * floor) by (nonlinear_arith);
        assert(y == one * floor);
    } else {
        assert(part * rest >= part) by (nonlinear_arith)
            requires
                rest >= 1,
        ;
        assert(y >= one * floor);
    }
    lemma_fundamental_div_mod_converse(y as int, one as int, floor as int, y - one * floor);
    assert(y < overflow_limit());
    assert(rounded(x as int, 100) == Binary64::Finite(y as int));
}

/// Whole percentages add up without rounding.
pub proof fn law_whole_percentages_add_up(values: Seq<nat>, n: int)
    requires
        0 <= n <= values.len(),
        integer_sum(values, n) < SIGNIFICAND_LIMIT,
    ensures
        sum_of(Seq::new(values.len(), |i: int| whole(values[i])), n) == whole(
            integer_sum(values, n),
        ),
    decreases n,
{
    let percentages = Seq::new(values.len(), |i: int| whole(values[i]));
    lemma_units();
    let one = units_per_one();
    if n > 0 {
        law_whole_percentages_add_up(values, n - 1);
        let a = integer_sum(values, n - 1);
        let b = values[n - 1];
        lemma_nearest_representable(a + b, 1074);
        assert(a * one + b * one == (a + b) * one) by (nonlinear_arith);
        assert((a + b) * one < SIGNIFICAND_LIMIT * one) by (nonlinear_arith)
            requires
                a + b < SIGNIFICAND_LIMIT,
                one > 0,
        ;
    } else {
        assert(0 * one == 0) by (nonlinear_arith);
    }
}

/// The share that `units` units make up once they are multiplied by the number of pods.
spec fn part_of(units: nat) -> usize {
    rounded(units as int, 1).over_hundred().floor_to_usize()
}

proof fn lemma_part_monotonic(fewer: nat, more: nat)
    requires
        fewer <= more,
    ensures
        part_of(fewer) <= part_of(more),
{
    lemma_units();
    lemma_nearest_monotonic(fewer, more, 1);
    let x = nearest(fewer, 1);
    let y = nearest(more, 1);
    if y < overflow_limit() {
        lemma_nearest_monotonic(x, y, 100);
        let a = nearest(x, 100);
        let b = nearest(y, 100);
        if b < overflow_limit() {
            lemma_div_is_ordered(a as int, b as int, units_per_one() as int);
        }
    }
}

/// More pods never make a smaller share of the same percentage.
pub proof fn law_share_grows_with_the_pods(fewer: nat, more: nat, p: Binary64)
    requires
        fewer <= more,
    ensures
        share_of(fewer, p) <= share_of(more, p),
{
    lemma_nearest_monotonic(fewer, more, 1);
    match p {
        Binary64::Finite(units) => {
            let x = nearest(fewer, 1) * units;
            let y = nearest(more, 1) * units;
            if units >= 0 {
                assert(0 <= x <= y) by (nonlinear_arith)
                    requires
                        x == nearest(fewer, 1) * units,
                        y == nearest(more, 1) * units,
                        nearest(fewer, 1) <= nearest(more, 1),
                        units >= 0,
                ;
                lemma_part_monotonic(x as nat, y as nat);
            } else {
                lemma_no_share(fewer, units);
            }
        },
        _ => {},
    }
}

/// A higher percentage never makes a smaller share of the same pods.
pub proof fn law_share_grows_with_the_percentage(n: nat, lower: int, higher: int)
    requires
        lower <= higher,
    ensures
        share_of(n, Binary64::Finite(lower)) <= share_of(n, Binary64::Finite(higher)),
{
    if lower < 0 {
        lemma_no_share(n, lower);
    } else {
        let x = nearest(n, 1) * lower;
        let y = nearest(n, 1) * higher;
        assert(0 <= x <= y) by (nonlinear_arith)
            requires
                x == nearest(n, 1) * lower,
                y == nearest(n, 1) * higher,
                0 <= lower <= higher,
        ;
        lemma_part_monotonic(x as nat, y as nat);
    }
}

/// A negative percentage has no share.
pub(crate) proof fn lemma_no_share(n: nat, units: int)
    requires
        units < 0,
    ensures
        share_of(n, Binary64::Finite(units)) == 0,
{
    lemma_units();
    let x = nearest(n, 1) * units;
    assert(x <= 0) by (nonlinear_arith)
        requires
            x == nearest(n, 1) * units,
            units < 0,
    ;
    lemma_nearest_zero(1);
    lemma_nearest_zero(100);
}

/// No pods have no share.
pub(crate) proof fn lemma_share_of_nothing(p: Binary64)
    ensures
        share_of(0, p) == 0,
{
    lemma_units();
    lemma_nearest_zero(1);
    lemma_nearest_zero(100);
    match p {
        Binary64::Finite(units) => {
            assert(nearest(0, 1) * units == 0) by (nonlinear_arith)
                requires
                    nearest(0, 1) == 0,
            ;
        },
        _ => {},
    }
}

proof fn lemma_nearest_zero(den: nat)
    requires
        den > 0,
    ensures
        nearest(0, den) == 0,
{
    assert(SIGNIFICAND_LIMIT * den > 0) by (nonlinear_arith)
        requires
            den > 0,
            SIGNIFICAND_LIMIT > 0,
    ;
}

} // verus!
