//! How little rounding takes from percentages and their shares.

use crate::binary64::{
    hundred, lemma_constants, lemma_nearest_relative_error, lemma_nearest_representable,
    lemma_units, nearest, rounded, share_of, sum_of, units_per_one, Binary64, LEADING_BIT,
    SIGNIFICAND_LIMIT,
};
use crate::config::ValueShare;
use crate::distribution::{
    distinct_values, law_numbers_are_the_shares, law_ranking_sorts, lemma_finite_sum,
    lemma_ranked_values, share_sum,
};
use crate::labels::{count_of, lemma_count_of};
use crate::quota::{adds_up, percentages_of, placed, pods_per_label, ranked, shares};
use crate::shares::{law_share_grows_with_the_pods, lemma_share_of_nothing};
use vstd::arithmetic::div_mod::{lemma_fundamental_div_mod, lemma_mod_bound};
use vstd::arithmetic::power2::pow2;
use vstd::prelude::*;

verus! {

/// Whether no percentage is negative.
pub open spec fn none_negative(distribution: Seq<ValueShare>) -> bool {
    forall|i: int|
        0 <= i < distribution.len() ==> (#[trigger] distribution[i]).percentage.rank() >= 0
}

/// The exact sum of percentages, in units.
pub open spec fn unit_sum(distribution: Seq<ValueShare>) -> int
    decreases distribution.len(),
{
    if distribution.len() == 0 {
        0
    } else {
        unit_sum(distribution.drop_last()) + distribution.last().percentage.rank()
    }
}

/// Whether `n` pods and `m` values are few enough for rounding not to matter.
pub open spec fn few(n: nat, m: nat) -> bool {
    (n + 1) * (m + 2) <= SIGNIFICAND_LIMIT
}

/// One addition loses at most one part in 2^53.
proof fn lemma_addition(sum: nat, term: nat)
    ensures
        SIGNIFICAND_LIMIT * nearest(sum + term, 1) >= (sum + term) * (SIGNIFICAND_LIMIT - 1),
{
    let exact = sum + term;
    lemma_nearest_relative_error(exact, 1);
    assert(nearest(exact, 1) * 1 == nearest(exact, 1));
    assert(exact * (SIGNIFICAND_LIMIT - 1) == SIGNIFICAND_LIMIT * exact - exact) by (nonlinear_arith);
    if exact < LEADING_BIT {
        assert(nearest(exact, 1) == exact);
    }
}

proof fn lemma_loss(limit: nat, before: nat, exact: nat, term: nat, after: nat, i: nat)
    requires
        i < limit,
        limit * before >= exact * (limit - i),
        limit * after >= (before + term) * (limit - 1),
    ensures
        limit * after >= (exact + term) * (limit - i - 1),
{
    let rest = (limit - 1) as nat;
    let left = (limit - i) as nat;
    assert(limit * (limit * after) >= limit * ((before + term) * rest)) by (nonlinear_arith)
        requires
            limit * after >= (before + term) * rest,
    ;
    assert(limit * ((before + term) * rest) == (limit * before) * rest + (limit * term) * rest)
        by (nonlinear_arith);
    assert((limit * before) * rest >= (exact * left) * rest) by (nonlinear_arith)
        requires
            limit * before >= exact * left,
    ;
    assert(left * rest >= limit * (left - 1)) by (nonlinear_arith)
        requires
            left == limit - i,
            rest == limit - 1,
            i < limit,
    ;
    assert((exact * left) * rest >= exact * (limit * (left - 1))) by (nonlinear_arith)
        requires
            left * rest >= limit * (left - 1),
    ;
    assert((limit * term) * rest >= term * (limit * (left - 1))) by (nonlinear_arith)
        requires
            rest >= left - 1,
            left >= 1,
    ;
    assert(exact * (limit * (left - 1)) + term * (limit * (left - 1)) == limit * ((exact + term) * (
    left - 1))) by (nonlinear_arith);
    assert(limit * (limit * after) >= limit * ((exact + term) * (left - 1)));
    assert(limit * after >= (exact + term) * (left - 1)) by (nonlinear_arith)
        requires
            limit * (limit * after) >= limit * ((exact + term) * (left - 1)),
            limit > 0,
    ;
}

/// Adding up loses at most one part in 2^53 for each percentage.
proof fn lemma_sum_error(distribution: Seq<ValueShare>, i: nat)
    requires
        none_negative(distribution),
        i <= distribution.len(),
        i <= SIGNIFICAND_LIMIT,
        sum_of(percentages_of(distribution), i as int) is Finite,
    ensures
        sum_of(percentages_of(distribution), i as int).rank() >= 0,
        unit_sum(distribution.take(i as int)) >= 0,
        SIGNIFICAND_LIMIT * sum_of(percentages_of(distribution), i as int).rank() >= unit_sum(
            distribution.take(i as int),
        ) * (SIGNIFICAND_LIMIT - i),
    decreases i,
{
    let percentages = percentages_of(distribution);
    if i > 0 {
        let less = (i - 1) as nat;
        let before = sum_of(percentages, less as int);
        let term = percentages[less as int];
        assert(before is Finite && term is Finite);
        lemma_sum_error(distribution, less);
        assert(distribution[less as int].percentage.rank() >= 0);
        assert(distribution.take(i as int).drop_last() =~= distribution.take(less as int));
        assert(distribution.take(i as int).last() == distribution[less as int]);
        lemma_addition(before.rank() as nat, term.rank() as nat);
        let after = nearest((before.rank() + term.rank()) as nat, 1);
        assert(sum_of(percentages, i as int) == Binary64::Finite(after as int));
        lemma_loss(
            SIGNIFICAND_LIMIT as nat,
            before.rank() as nat,
            unit_sum(distribution.take(less as int)) as nat,
            term.rank() as nat,
            after,
            less,
        );
    } else {
        assert(distribution.take(0).len() == 0);
    }
}

/// One part in 2^53 more than `exact`, twice over, is the most that a product and a quotient make
/// of it.
proof fn lemma_share_error(n: nat, units: nat)
    requires
        n < SIGNIFICAND_LIMIT,
        units <= 200 * units_per_one(),
    ensures
        ({
            let limit = SIGNIFICAND_LIMIT as nat;
            let share = share_of(n, Binary64::Finite(units as int)) as nat;
            limit * limit * (100 * share * units_per_one()) <= n * units * ((limit + 1) * (limit
                + 1)) + 50 * (limit * limit)
        }),
{
    let limit = SIGNIFICAND_LIMIT as nat;
    let one = units_per_one();
    let exact = n * units;
    lemma_units();
    lemma_constants();
    assert(nearest(n, 1) == n) by {
        lemma_nearest_representable(n, 0);
        assert(n * pow2(0) == n) by (nonlinear_arith)
            requires
                pow2(0) == 1,
        ;
    }
    assert(exact <= 200 * (limit * one)) by (nonlinear_arith)
        requires
            exact == n * units,
            n <= limit,
            units <= 200 * one,
    ;
    let x = nearest(exact, 1);
    lemma_nearest_relative_error(exact, 1);
    assert(x * 1 == x);
    if exact < LEADING_BIT {
        assert(x == exact);
    }
    assert(limit * x <= exact * (limit + 1)) by (nonlinear_arith)
        requires
            limit * (x - exact) <= exact,
    ;
    assert(x <= 2 * exact) by (nonlinear_arith)
        requires
            limit * (x - exact) <= exact,
            limit >= 1,
            exact >= 0,
    ;
    let y = nearest(x, 100);
    lemma_nearest_relative_error(x, 100);
    assert(limit * (100 * y) <= x * (limit + 1) + 50 * limit) by {
        if x >= LEADING_BIT * 100 {
            assert(limit * (100 * y) <= x * (limit + 1)) by (nonlinear_arith)
                requires
                    limit * (y * 100 - x) <= x,
            ;
        } else {
            assert(limit * (100 * y) <= limit * (x + 50)) by (nonlinear_arith)
                requires
                    2 * (y * 100 - x) <= 100,
            ;
            assert(limit * (x + 50) <= x * (limit + 1) + 50 * limit) by (nonlinear_arith)
                requires
                    x >= 0,
            ;
        }
    }
    assert(y <= 2 * x + 50) by (nonlinear_arith)
        requires
            limit * (100 * y) <= x * (limit + 1) + 50 * limit,
            limit >= 1,
            x >= 0,
    ;
    assert(limit * one >= 50) by (nonlinear_arith)
        requires
            limit >= 50,
            one >= 1,
    ;
    assert(rounded(exact as int, 1) == Binary64::Finite(x as int));
    assert(rounded(x as int, 100) == Binary64::Finite(y as int));
    let share = share_of(n, Binary64::Finite(units as int)) as nat;
    lemma_fundamental_div_mod(y as int, one as int);
    lemma_mod_bound(y as int, one as int);
    let floor = y / one;
    assert(share <= floor);
    assert(share * one <= y) by (nonlinear_arith)
        requires
            share <= floor,
            y >= one * floor,
            one >= 0,
    ;
    assert(limit * limit * (100 * share * one) <= limit * (limit * (100 * y))) by (nonlinear_arith)
        requires
            share * one <= y,
            limit >= 0,
    ;
    assert(limit * (limit * (100 * y)) <= limit * (x * (limit + 1) + 50 * limit))
        by (nonlinear_arith)
        requires
            limit * (100 * y) <= x * (limit + 1) + 50 * limit,
            limit >= 0,
    ;
    assert(limit * (x * (limit + 1) + 50 * limit) == (limit * x) * (limit + 1) + 50 * (limit
        * limit)) by (nonlinear_arith);
    assert((limit * x) * (limit + 1) <= (exact * (limit + 1)) * (limit + 1)) by (nonlinear_arith)
        requires
            limit * x <= exact * (limit + 1),
            limit >= 0,
    ;
    assert((exact * (limit + 1)) * (limit + 1) == exact * ((limit + 1) * (limit + 1)))
        by (nonlinear_arith);
}

/// The shares of the first `i` values, together, are little more than the part of the pods that
/// the percentages make up.
proof fn lemma_shares_error(distribution: Seq<ValueShare>, n: nat, i: nat)
    requires
        none_negative(distribution),
        n < SIGNIFICAND_LIMIT,
        i <= distribution.len(),
        forall|j: int|
            0 <= j < distribution.len() ==> (#[trigger] distribution[j]).percentage is Finite
                && distribution[j].percentage.rank() <= 200 * units_per_one(),
    ensures
        ({
            let limit = SIGNIFICAND_LIMIT as nat;
            limit * limit * (100 * share_sum(shares(distribution, n), i as int)
                * units_per_one()) <= n * unit_sum(distribution.take(i as int)) * ((limit + 1) * (
            limit + 1)) + 50 * i * (limit * limit)
        }),
    decreases i,
{
    let limit = SIGNIFICAND_LIMIT as nat;
    let one = units_per_one();
    if i > 0 {
        let less = (i - 1) as nat;
        lemma_shares_error(distribution, n, less);
        let units = distribution[less as int].percentage.rank();
        assert(distribution[less as int].percentage == Binary64::Finite(units));
        lemma_share_error(n, units as nat);
        assert(distribution.take(i as int).drop_last() =~= distribution.take(less as int));
        assert(distribution.take(i as int).last() == distribution[less as int]);
        let sum = share_sum(shares(distribution, n), less as int);
        let share = shares(distribution, n)[less as int].count;
        let exact = unit_sum(distribution.take(less as int));
        let square = (limit + 1) * (limit + 1);
        let area = limit * limit;
        assert(area * (100 * (sum + share) * one) == area * (100 * sum * one) + area * (100 * share
            * one)) by (nonlinear_arith);
        assert(n * (exact + units) * square == n * exact * square + n * units * square)
            by (nonlinear_arith);
        assert(50 * (less + 1) * area == 50 * less * area + 50 * area) by (nonlinear_arith);
    } else {
        assert(distribution.take(0).len() == 0);
        assert(limit * limit * (100 * 0 * one) == 0) by (nonlinear_arith);
        assert(n * 0 * ((limit + 1) * (limit + 1)) == 0) by (nonlinear_arith);
    }
}

proof fn lemma_fit(limit: nat, one: nat, n: nat, m: nat, exact: nat, sum: nat)
    requires
        (n + 1) * (m + 2) <= limit,
        one > limit * limit,
        exact * (limit - m) <= limit * (100 * one),
        limit * limit * (100 * sum * one) <= n * exact * ((limit + 1) * (limit + 1)) + 50 * m * (
        limit * limit),
    ensures
        sum <= n,
{
    let square = (limit + 1) * (limit + 1);
    let area = limit * limit;
    assert((n + 1) * (m + 2) == (n + 1) * m + 2 * n + 2) by (nonlinear_arith);
    assert((n + 1) * m >= m) by (nonlinear_arith)
        requires
            n >= 0,
            m >= 0,
    ;
    let left = (limit - m) as nat;
    if sum > n {
        assert(area * (100 * (n + 1) * one) <= area * (100 * sum * one)) by (nonlinear_arith)
            requires
                sum >= n + 1,
                area >= 0,
                one >= 0,
        ;
        let lhs = area * (100 * (n + 1) * one);
        assert(lhs * left <= (n * exact * square + 50 * m * area) * left) by (nonlinear_arith)
            requires
                lhs <= n * exact * square + 50 * m * area,
                left >= 0,
        ;
        assert((n * exact * square + 50 * m * area) * left == (n * square) * (exact * left) + (50 * m
            * area) * left) by (nonlinear_arith);
        assert((n * square) * (exact * left) <= (n * square) * (limit * (100 * one)))
            by (nonlinear_arith)
            requires
                exact * left <= limit * (100 * one),
                n >= 0,
                square >= 0,
        ;
        assert((50 * m * area) * left <= (50 * m * area) * limit) by (nonlinear_arith)
            requires
                left <= limit,
                m >= 0,
                area >= 0,
        ;
        assert(lhs * left == (50 * limit) * (2 * limit * (n + 1) * one * left)) by (nonlinear_arith)
            requires
                lhs == area * (100 * (n + 1) * one),
                area == limit * limit,
        ;
        assert((n * square) * (limit * (100 * one)) == (50 * limit) * (2 * n * square * one))
            by (nonlinear_arith);
        assert((50 * m * area) * limit == (50 * limit) * (m * area)) by (nonlinear_arith);
        let a = 2 * limit * (n + 1) * one * left;
        let b = 2 * n * square * one + m * area;
        assert((50 * limit) * b == (50 * limit) * (2 * n * square * one) + (50 * limit) * (m * area))
            by (nonlinear_arith)
            requires
                b == 2 * n * square * one + m * area,
        ;
        assert((50 * limit) * a <= (50 * limit) * b);
        assert(a <= b) by (nonlinear_arith)
            requires
                (50 * limit) * a <= (50 * limit) * b,
                limit > 0,
        ;
        let missed = (n + 1) * m + 2 * n;
        let taken = limit * (n + 1) * left;
        assert(taken == n * area + area - (n + 1) * m * limit) by (nonlinear_arith)
            requires
                taken == limit * (n + 1) * left,
                left == limit - m,
                area == limit * limit,
        ;
        assert(n * square == n * area + 2 * n * limit + n) by (nonlinear_arith)
            requires
                square == (limit + 1) * (limit + 1),
                area == limit * limit,
        ;
        assert(missed * limit == (n + 1) * m * limit + 2 * n * limit) by (nonlinear_arith)
            requires
                missed == (n + 1) * m + 2 * n,
        ;
        let gap = area - missed * limit - n;
        assert(taken == n * square + gap);
        assert(a == 2 * n * square * one + 2 * one * gap) by (nonlinear_arith)
            requires
                a == 2 * limit * (n + 1) * one * left,
                taken == limit * (n + 1) * left,
                taken == n * square + gap,
        ;
        assert(gap >= limit) by (nonlinear_arith)
            requires
                gap == area - missed * limit - n,
                area == limit * limit,
                missed + 2 <= limit,
                n <= limit,
        ;
        assert(one * gap >= one * limit) by (nonlinear_arith)
            requires
                gap >= limit,
                one >= 0,
        ;
        assert(one * limit > area * limit) by (nonlinear_arith)
            requires
                one > area,
                limit > 0,
        ;
        assert(area * limit >= m * area) by (nonlinear_arith)
            requires
                m <= limit,
                area >= 0,
        ;
        assert(2 * one * gap == one * gap + one * gap) by (nonlinear_arith);
    }
}

proof fn lemma_placed_units(sorted: Seq<ValueShare>, share: ValueShare)
    ensures
        unit_sum(placed(sorted, share)) == unit_sum(sorted) + share.percentage.rank(),
    decreases sorted.len(),
{
    let after = placed(sorted, share);
    if sorted.len() > 0 && share.percentage.rank() > sorted.last().percentage.rank() {
        lemma_placed_units(sorted.drop_last(), share);
        assert(after.drop_last() =~= placed(sorted.drop_last(), share));
    } else {
        assert(after.drop_last() =~= sorted);
    }
}

proof fn lemma_ranked_units(distribution: Seq<ValueShare>)
    ensures
        unit_sum(ranked(distribution)) == unit_sum(distribution),
    decreases distribution.len(),
{
    if distribution.len() > 0 {
        lemma_ranked_units(distribution.drop_last());
        lemma_placed_units(ranked(distribution.drop_last()), distribution.last());
    }
}

/// No percentage is above the sum.
proof fn lemma_unit_sum_bounds(distribution: Seq<ValueShare>, i: int)
    requires
        none_negative(distribution),
        0 <= i < distribution.len(),
    ensures
        distribution[i].percentage.rank() <= unit_sum(distribution),
        unit_sum(distribution) >= 0,
    decreases distribution.len(),
{
    let front = distribution.drop_last();
    assert(forall|j: int|
        0 <= j < front.len() ==> (#[trigger] front[j]) == distribution[j]);
    assert(distribution.last().percentage.rank() >= 0);
    reveal_with_fuel(unit_sum, 2);
    if i < front.len() {
        lemma_unit_sum_bounds(front, i);
        assert(front[i] == distribution[i]);
    } else if front.len() > 0 {
        lemma_unit_sum_bounds(front, 0);
    }
}

proof fn lemma_nothing_to_share(distribution: Seq<ValueShare>, i: int)
    requires
        0 <= i <= distribution.len(),
    ensures
        share_sum(shares(distribution, 0), i) == 0,
    decreases i,
{
    if i > 0 {
        lemma_nothing_to_share(distribution, i - 1);
        lemma_share_of_nothing(distribution[i - 1].percentage);
    }
}

proof fn lemma_shares_fit(distribution: Seq<ValueShare>, order: Seq<ValueShare>, n: nat)
    requires
        none_negative(distribution),
        adds_up(distribution),
        n > 0,
        few(n, distribution.len()),
        order.len() == distribution.len(),
        unit_sum(order) == unit_sum(distribution),
        forall|j: int| 0 <= j < order.len() ==> distribution.contains(#[trigger] order[j]),
    ensures
        share_sum(shares(order, n), order.len() as int) <= n,
{
    let limit = SIGNIFICAND_LIMIT as nat;
    let one = units_per_one();
    let m = distribution.len();
    let exact = unit_sum(distribution);
    lemma_units();
    assert((n + 1) * (m + 2) >= 2 * (m + 2) && (n + 1) * (m + 2) >= 2 * (n + 1))
        by (nonlinear_arith)
        requires
            n >= 1,
            m >= 0,
    ;
    lemma_sum_error(distribution, m);
    assert(distribution.take(m as int) =~= distribution);
    assert(hundred().rank() == 100 * one);
    assert(exact <= 200 * one) by (nonlinear_arith)
        requires
            limit * (100 * one) >= exact * (limit - m),
            2 * (m + 2) <= limit,
            exact >= 0,
            m >= 0,
    ;
    assert forall|j: int| 0 <= j < order.len() implies (#[trigger] order[j]).percentage is Finite
        && 0 <= order[j].percentage.rank() <= 200 * one by {
        let i = choose|i: int| 0 <= i < m && distribution[i] == order[j];
        lemma_finite_sum(percentages_of(distribution), m as int, i);
        lemma_unit_sum_bounds(distribution, i);
    }
    lemma_shares_error(order, n, m);
    assert(order.take(m as int) =~= order);
    lemma_fit(limit, one, n, m, exact as nat, share_sum(shares(order, n), m as int));
}

/// Percentages that are not negative and add up to 100 never claim more than all of the pods,
/// neither in their own order nor when they are ranked.
pub proof fn law_shares_fit(distribution: Seq<ValueShare>, n: nat)
    requires
        none_negative(distribution),
        adds_up(distribution),
        few(n, distribution.len()),
    ensures
        share_sum(shares(distribution, n), distribution.len() as int) <= n,
        share_sum(shares(ranked(distribution), n), distribution.len() as int) <= n,
{
    law_ranking_sorts(distribution);
    lemma_ranked_units(distribution);
    if n > 0 {
        lemma_shares_fit(distribution, distribution, n);
        lemma_shares_fit(distribution, ranked(distribution), n);
    } else {
        lemma_nothing_to_share(distribution, distribution.len() as int);
        lemma_nothing_to_share(ranked(distribution), distribution.len() as int);
    }
}

/// More pods take none away: as long as the shares make no more than all of the pods, when the
/// number of pods grows no value but the first one, which has what the shares leave over, is to
/// have fewer pods than before.
pub proof fn law_more_pods_take_none_away(order: Seq<ValueShare>, fewer: nat, more: nat)
    requires
        distinct_values(order),
        order.len() > 0,
        0 < fewer <= more,
        share_sum(shares(order, fewer), order.len() as int) <= fewer,
        share_sum(shares(order, more), order.len() as int) <= more,
    ensures
        pods_per_label(order, fewer).len() == order.len(),
        pods_per_label(order, more).len() == order.len(),
        forall|i: int|
            1 <= i < order.len() ==> (#[trigger] pods_per_label(order, fewer)[i]).count
                <= pods_per_label(order, more)[i].count,
        forall|i: int|
            1 <= i < order.len() ==> count_of(
                pods_per_label(order, fewer),
                (#[trigger] order[i]).value,
            ) <= count_of(pods_per_label(order, more), order[i].value),
{
    law_numbers_are_the_shares(order, fewer);
    law_numbers_are_the_shares(order, more);
    assert forall|i: int| 1 <= i < order.len() implies (#[trigger] pods_per_label(
        order,
        fewer,
    )[i]).count <= pods_per_label(order, more)[i].count by {
        law_share_grows_with_the_pods(fewer, more, order[i].percentage);
    }
    assert forall|i: int| 1 <= i < order.len() implies count_of(
        pods_per_label(order, fewer),
        (#[trigger] order[i]).value,
    ) <= count_of(pods_per_label(order, more), order[i].value) by {
        lemma_count_of(pods_per_label(order, fewer), i);
        lemma_count_of(pods_per_label(order, more), i);
        assert(pods_per_label(order, fewer)[i].count <= pods_per_label(order, more)[i].count);
    }
}

/// More pods take none away from distinct values whose percentages are not negative and add up to
/// 100, except from the first one. This holds of the values in their own order and when they are
/// ranked.
pub proof fn law_percentages_grow_with_the_pods(distribution: Seq<ValueShare>, fewer: nat, more: nat)
    requires
        distinct_values(distribution),
        none_negative(distribution),
        adds_up(distribution),
        0 < fewer <= more,
        few(more, distribution.len()),
    ensures
        pods_per_label(distribution, fewer).len() == distribution.len(),
        pods_per_label(distribution, more).len() == distribution.len(),
        forall|i: int|
            1 <= i < distribution.len() ==> (#[trigger] pods_per_label(distribution, fewer)[i]).count
                <= pods_per_label(distribution, more)[i].count,
        forall|i: int|
            1 <= i < distribution.len() ==> count_of(
                pods_per_label(distribution, fewer),
                (#[trigger] distribution[i]).value,
            ) <= count_of(pods_per_label(distribution, more), distribution[i].value),
        forall|i: int|
            1 <= i < distribution.len() ==> count_of(
                pods_per_label(ranked(distribution), fewer),
                (#[trigger] ranked(distribution)[i]).value,
            ) <= count_of(
                pods_per_label(ranked(distribution), more),
                ranked(distribution)[i].value,
            ),
{
    let m = distribution.len();
    lemma_units();
    assert(m > 0);
    assert((fewer + 1) * (m + 2) <= (more + 1) * (m + 2)) by (nonlinear_arith)
        requires
            fewer <= more,
            m >= 0,
    ;
    law_shares_fit(distribution, fewer);
    law_shares_fit(distribution, more);
    law_ranking_sorts(distribution);
    lemma_ranked_values(distribution);
    law_more_pods_take_none_away(distribution, fewer, more);
    law_more_pods_take_none_away(ranked(distribution), fewer, more);
}

} // verus!
