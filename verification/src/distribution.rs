//! What the numbers of [`crate::quota`] have to do with the percentages they come from.

use crate::binary64::{sum_of, units_per_one, Binary64, SIGNIFICAND_LIMIT};
use crate::config::ValueShare;
use crate::convergence::{
    distinct_names, law_distinct_names_resolve, law_numbers_are_reached, relabeled,
};
use crate::labels::{
    count_of, distinct_labels, has_label, lemma_count_of, lemma_total_update, total,
    with_count, Quota,
};
use crate::pod::PodView;
use crate::quota::{
    adds_up, all_numbers, percentages_of, placed, pods_per_label, ranked, shares, taken_at,
    taken_by, taken_counts,
};
use crate::resolve::{all_named, holders, resolution};
use crate::shares::{
    integer_sum, law_whole_percentage_is_exact, law_whole_percentages_add_up, whole, MANY_PODS,
};
use vstd::arithmetic::power2::lemma_pow2_pos;
use vstd::prelude::*;

verus! {

/// The values with a percentage of rank `rank`, in order.
pub open spec fn of_rank(distribution: Seq<ValueShare>, rank: int) -> Seq<ValueShare>
    decreases distribution.len(),
{
    if distribution.len() == 0 {
        Seq::empty()
    } else if distribution.last().percentage.rank() == rank {
        of_rank(distribution.drop_last(), rank).push(distribution.last())
    } else {
        of_rank(distribution.drop_last(), rank)
    }
}

/// No percentage is below a later one.
pub open spec fn falling(distribution: Seq<ValueShare>) -> bool {
    forall|i: int, j: int|
        0 <= i < j < distribution.len() ==> (#[trigger] distribution[i]).percentage.rank() >= (
        #[trigger] distribution[j]).percentage.rank()
}

/// No value occurs twice.
pub open spec fn distinct_values(distribution: Seq<ValueShare>) -> bool {
    forall|i: int, j: int|
        0 <= i < j < distribution.len() ==> (#[trigger] distribution[i]).value != (
        #[trigger] distribution[j]).value
}

proof fn lemma_placed(sorted: Seq<ValueShare>, share: ValueShare)
    requires
        falling(sorted),
    ensures
        placed(sorted, share).len() == sorted.len() + 1,
        falling(placed(sorted, share)),
        forall|i: int|
            0 <= i < placed(sorted, share).len() ==> #[trigger] placed(sorted, share)[i] == share
                || sorted.contains(placed(sorted, share)[i]),
        forall|r: int| #[trigger]
            of_rank(placed(sorted, share), r) == if share.percentage.rank() == r {
                of_rank(sorted, r).push(share)
            } else {
                of_rank(sorted, r)
            },
    decreases sorted.len(),
{
    let after = placed(sorted, share);
    if sorted.len() > 0 && share.percentage.rank() > sorted.last().percentage.rank() {
        let front = sorted.drop_last();
        assert(falling(front)) by {
            assert forall|i: int, j: int| 0 <= i < j < front.len() implies (
            #[trigger] front[i]).percentage.rank() >= (
            #[trigger] front[j]).percentage.rank() by {
                assert(sorted[i].percentage.rank() >= sorted[j].percentage.rank());
            }
        }
        lemma_placed(front, share);
        let inner = placed(front, share);
        assert(after.drop_last() =~= inner);
        assert forall|r: int| #[trigger]
            of_rank(after, r) == if share.percentage.rank() == r {
                of_rank(sorted, r).push(share)
            } else {
                of_rank(sorted, r)
            } by {
            assert(of_rank(inner, r) == if share.percentage.rank() == r {
                of_rank(front, r).push(share)
            } else {
                of_rank(front, r)
            });
        }
        assert forall|i: int| 0 <= i < inner.len() implies (
        #[trigger] inner[i]).percentage.rank() >= sorted.last().percentage.rank()
            && (inner[i] == share || sorted.contains(inner[i])) by {
            if inner[i] != share {
                let j = choose|j: int| 0 <= j < front.len() && front[j] == inner[i];
                assert(sorted[j] == inner[i]);
                assert(sorted[j].percentage.rank() >= sorted[sorted.len()
                    - 1].percentage.rank());
            }
        }
        assert forall|i: int, j: int| 0 <= i < j < after.len() implies (
        #[trigger] after[i]).percentage.rank() >= (#[trigger] after[j]).percentage.rank() by {
            assert(after[i] == inner[i]);
            if j < inner.len() {
                assert(after[j] == inner[j]);
            }
        }
        assert forall|i: int| 0 <= i < after.len() implies #[trigger] after[i] == share
            || sorted.contains(after[i]) by {
            if i < inner.len() {
                assert(after[i] == inner[i]);
            } else {
                assert(after[i] == sorted[sorted.len() - 1]);
            }
        }
    } else {
        assert(after.drop_last() =~= sorted);
        assert forall|i: int, j: int| 0 <= i < j < after.len() implies (
        #[trigger] after[i]).percentage.rank() >= (#[trigger] after[j]).percentage.rank() by {
            if j < sorted.len() {
                assert(sorted[i].percentage.rank() >= sorted[j].percentage.rank());
            } else if i < sorted.len() - 1 {
                assert(sorted[i].percentage.rank() >= sorted[sorted.len()
                    - 1].percentage.rank());
            }
        }
        assert forall|i: int| 0 <= i < after.len() implies #[trigger] after[i] == share
            || sorted.contains(after[i]) by {
            if i < sorted.len() {
                assert(after[i] == sorted[i]);
            }
        }
    }
}

/// Ranking a distribution puts the highest percentages first and does nothing else: for every
/// percentage, the values that have it are all there, in the order they were in.
pub proof fn law_ranking_sorts(distribution: Seq<ValueShare>)
    ensures
        ranked(distribution).len() == distribution.len(),
        falling(ranked(distribution)),
        forall|r: int| #[trigger] of_rank(ranked(distribution), r) == of_rank(distribution, r),
        forall|i: int|
            0 <= i < distribution.len() ==> distribution.contains(
                #[trigger] ranked(distribution)[i],
            ),
    decreases distribution.len(),
{
    if distribution.len() > 0 {
        let front = distribution.drop_last();
        law_ranking_sorts(front);
        lemma_placed(ranked(front), distribution.last());
        assert forall|i: int| 0 <= i < distribution.len() implies distribution.contains(
            #[trigger] ranked(distribution)[i],
        ) by {
            let item = ranked(distribution)[i];
            if item == distribution.last() {
                assert(distribution[distribution.len() - 1] == item);
            } else {
                let j = choose|j: int| 0 <= j < ranked(front).len() && ranked(front)[j] == item;
                assert(front.contains(ranked(front)[j]));
                let k = choose|k: int| 0 <= k < front.len() && front[k] == item;
                assert(distribution[k] == item);
            }
        }
    }
}

/// Percentages that make 100 are numbers, all of them.
pub(crate) proof fn lemma_adds_up_numbers(distribution: Seq<ValueShare>)
    requires
        adds_up(distribution),
    ensures
        all_numbers(distribution),
{
    assert forall|i: int| 0 <= i < distribution.len() implies (
    #[trigger] distribution[i]).percentage !is NotANumber by {
        lemma_finite_sum(percentages_of(distribution), distribution.len() as int, i);
    }
}

pub(crate) proof fn lemma_finite_sum(percentages: Seq<Binary64>, n: int, i: int)
    requires
        0 <= i < n <= percentages.len(),
        sum_of(percentages, n) is Finite,
    ensures
        percentages[i] is Finite,
    decreases n,
{
    assert(sum_of(percentages, n - 1) is Finite && percentages[n - 1] is Finite);
    if i < n - 1 {
        lemma_finite_sum(percentages, n - 1, i);
    }
}

/// The sum of the first `n` shares.
pub open spec fn share_sum(shares: Seq<Quota>, n: int) -> nat
    decreases n,
{
    if n <= 0 {
        0
    } else {
        share_sum(shares, n - 1) + shares[n - 1].count
    }
}

proof fn lemma_share_sum_monotonic(shares: Seq<Quota>, m: int, n: int)
    requires
        0 <= m <= n,
    ensures
        share_sum(shares, m) <= share_sum(shares, n),
    decreases n - m,
{
    if m < n {
        lemma_share_sum_monotonic(shares, m, n - 1);
    }
}

/// Shares that are no more than all of the pods are taken in full.
pub(crate) proof fn lemma_all_taken(shares: Seq<Quota>, n: nat, i: int)
    requires
        0 <= i <= shares.len(),
        share_sum(shares, shares.len() as int) <= n,
    ensures
        taken_by(shares, n, i) == share_sum(shares, i),
        i < shares.len() ==> taken_at(shares, n, i) == shares[i].count,
    decreases i,
{
    if i > 0 {
        lemma_all_taken(shares, n, i - 1);
    }
    if i < shares.len() {
        lemma_share_sum_monotonic(shares, i + 1, shares.len() as int);
    }
}

/// With distinct labels the numbers taken are those of the values, in order.
proof fn lemma_taken_counts(shares: Seq<Quota>, n: nat, i: int)
    requires
        distinct_labels(shares),
        0 <= i <= shares.len(),
    ensures
        taken_counts(shares, n, i) == Seq::new(
            i as nat,
            |j: int| Quota { label: shares[j].label, count: taken_at(shares, n, j) },
        ),
        total(taken_counts(shares, n, i)) == taken_by(shares, n, i),
    decreases i,
{
    let counts = taken_counts(shares, n, i);
    let expected = Seq::new(
        i as nat,
        |j: int| Quota { label: shares[j].label, count: taken_at(shares, n, j) },
    );
    if i == 0 {
        assert(counts =~= expected);
    } else {
        lemma_taken_counts(shares, n, i - 1);
        let before = taken_counts(shares, n, i - 1);
        assert(!has_label(before, shares[i - 1].label)) by {
            assert forall|e: int| 0 <= e < before.len() implies #[trigger] before[e].label
                != shares[i - 1].label by {
                assert(shares[e].label != shares[i - 1].label);
            }
        }
        assert(counts =~= expected);
        assert(counts.drop_last() =~= before);
    }
}

/// The numbers of distinct values are what the values take of the pods, in order, and what is
/// left over of the pods goes to the first value: the numbers never add up to less than the pods,
/// and to more exactly if the last value to find pods left takes more than there are.
pub proof fn law_numbers_are_taken(distribution: Seq<ValueShare>, n: nat)
    requires
        distinct_values(distribution),
        distribution.len() > 0,
        n > 0,
    ensures
        ({
            let parts = shares(distribution, n);
            let taken = taken_by(parts, n, parts.len() as int);
            let left = if taken < n {
                (n - taken) as nat
            } else {
                0
            };
            let numbers = pods_per_label(distribution, n);
            &&& distinct_labels(numbers)
            &&& numbers.len() == distribution.len()
            &&& forall|i: int|
                0 <= i < numbers.len() ==> #[trigger] numbers[i] == (Quota {
                    label: distribution[i].value,
                    count: taken_at(parts, n, i) + if i == 0 {
                        left
                    } else {
                        0
                    },
                })
            &&& total(numbers) == taken + left
        }),
{
    let parts = shares(distribution, n);
    let len = parts.len() as int;
    assert(distinct_labels(parts)) by {
        assert forall|i: int, j: int| 0 <= i < j < parts.len() implies #[trigger] parts[i].label
            != #[trigger] parts[j].label by {
            assert(distribution[i].value != distribution[j].value);
        }
    }
    lemma_taken_counts(parts, n, len);
    let counts = taken_counts(parts, n, len);
    let taken = taken_by(parts, n, len);
    assert(distinct_labels(counts)) by {
        assert forall|i: int, j: int| 0 <= i < j < counts.len() implies #[trigger] counts[i].label
            != #[trigger] counts[j].label by {
            assert(parts[i].label != parts[j].label);
        }
    }
    if taken < n {
        lemma_count_of(counts, 0);
        let first = Quota {
            label: parts[0].label,
            count: (counts[0].count + (n - taken)) as nat,
        };
        assert(with_count(counts, parts[0].label, first.count) =~= counts.update(0, first)) by {
            assert forall|e: int| 0 < e < len implies (#[trigger] counts[e]).label
                != parts[0].label by {
                assert(parts[0].label != parts[e].label);
            }
        }
        lemma_total_update(counts, 0, first);
    }
}

/// With distinct values whose shares are no more than all of the pods, the numbers add up to all
/// of the pods: every value gets its share, and the first one also what is left over.
pub proof fn law_numbers_are_the_shares(distribution: Seq<ValueShare>, n: nat)
    requires
        distinct_values(distribution),
        distribution.len() > 0,
        n > 0,
        share_sum(shares(distribution, n), distribution.len() as int) <= n,
    ensures
        pods_per_label(distribution, n).len() == distribution.len(),
        forall|i: int|
            0 <= i < distribution.len() ==> #[trigger] pods_per_label(distribution, n)[i] == (
            Quota {
                label: distribution[i].value,
                count: if i == 0 {
                    (shares(distribution, n)[i].count + n - share_sum(
                        shares(distribution, n),
                        distribution.len() as int,
                    )) as nat
                } else {
                    shares(distribution, n)[i].count
                },
            }),
        distinct_labels(pods_per_label(distribution, n)),
        total(pods_per_label(distribution, n)) == n,
{
    let parts = shares(distribution, n);
    law_numbers_are_taken(distribution, n);
    lemma_all_taken(parts, n, parts.len() as int);
    assert forall|i: int| 0 <= i < parts.len() implies #[trigger] taken_at(parts, n, i)
        == parts[i].count by {
        lemma_all_taken(parts, n, i);
    }
}

/// Whether `distribution` has the value `value`.
pub open spec fn has_value(distribution: Seq<ValueShare>, value: Seq<char>) -> bool {
    exists|i: int| 0 <= i < distribution.len() && (#[trigger] distribution[i]).value == value
}

proof fn lemma_placed_values(sorted: Seq<ValueShare>, share: ValueShare)
    requires
        distinct_values(sorted),
        !has_value(sorted, share.value),
    ensures
        distinct_values(placed(sorted, share)),
        forall|value: Seq<char>|
            has_value(placed(sorted, share), value) ==> value == share.value || #[trigger] has_value(
                sorted,
                value,
            ),
    decreases sorted.len(),
{
    let after = placed(sorted, share);
    if sorted.len() > 0 && share.percentage.rank() > sorted.last().percentage.rank() {
        let front = sorted.drop_last();
        let last = sorted.last();
        assert forall|i: int| 0 <= i < front.len() implies (#[trigger] front[i]).value
            != share.value && front[i].value != last.value by {
            assert(sorted[i].value != share.value);
            assert(sorted[i].value != sorted[sorted.len() - 1].value);
        }
        assert forall|i: int, j: int| 0 <= i < j < front.len() implies (#[trigger] front[i]).value
            != (#[trigger] front[j]).value by {
            assert(sorted[i].value != sorted[j].value);
        }
        lemma_placed_values(front, share);
        let inner = placed(front, share);
        assert(sorted[sorted.len() - 1].value != share.value);
        assert(!has_value(front, last.value));
        assert(!has_value(inner, last.value));
        assert forall|i: int, j: int| 0 <= i < j < after.len() implies (#[trigger] after[i]).value
            != (#[trigger] after[j]).value by {
            assert(after[i] == inner[i]);
            assert(has_value(inner, inner[i].value));
            if j < inner.len() {
                assert(after[j] == inner[j]);
            }
        }
        assert forall|value: Seq<char>| has_value(after, value) implies value == share.value
            || #[trigger] has_value(sorted, value) by {
            let i = choose|i: int| 0 <= i < after.len() && (#[trigger] after[i]).value == value;
            if i < inner.len() {
                assert(inner[i].value == value);
                assert(has_value(inner, value));
                if value != share.value {
                    assert(has_value(front, value));
                    let k = choose|k: int|
                        0 <= k < front.len() && (#[trigger] front[k]).value == value;
                    assert(sorted[k].value == value);
                }
            } else {
                assert(sorted[sorted.len() - 1].value == value);
            }
        }
    } else {
        assert forall|i: int, j: int| 0 <= i < j < after.len() implies (#[trigger] after[i]).value
            != (#[trigger] after[j]).value by {
            assert(sorted[i] == after[i]);
            assert(sorted[i].value != share.value);
            if j < sorted.len() {
                assert(sorted[i].value != sorted[j].value);
            }
        }
        assert forall|value: Seq<char>| has_value(after, value) implies value == share.value
            || #[trigger] has_value(sorted, value) by {
            let i = choose|i: int| 0 <= i < after.len() && (#[trigger] after[i]).value == value;
            if i < sorted.len() {
                assert(sorted[i].value == value);
            }
        }
    }
}

pub(crate) proof fn lemma_ranked_values(distribution: Seq<ValueShare>)
    requires
        distinct_values(distribution),
    ensures
        distinct_values(ranked(distribution)),
        forall|value: Seq<char>|
            has_value(ranked(distribution), value) ==> #[trigger] has_value(distribution, value),
    decreases distribution.len(),
{
    if distribution.len() > 0 {
        let front = distribution.drop_last();
        let last = distribution.last();
        assert forall|i: int, j: int| 0 <= i < j < front.len() implies (#[trigger] front[i]).value
            != (#[trigger] front[j]).value by {
            assert(distribution[i].value != distribution[j].value);
        }
        lemma_ranked_values(front);
        assert(!has_value(front, last.value)) by {
            assert forall|i: int| 0 <= i < front.len() implies (#[trigger] front[i]).value
                != last.value by {
                assert(distribution[i].value != distribution[distribution.len() - 1].value);
            }
        }
        lemma_placed_values(ranked(front), last);
        assert forall|value: Seq<char>| has_value(ranked(distribution), value) implies
            #[trigger] has_value(distribution, value) by {
            if value == last.value {
                assert(distribution[distribution.len() - 1].value == value);
            } else {
                assert(has_value(ranked(front), value));
                assert(has_value(front, value));
                let k = choose|k: int| 0 <= k < front.len() && (#[trigger] front[k]).value == value;
                assert(distribution[k].value == value);
            }
        }
    }
}

/// The integer part of a percentage.
pub open spec fn points(percentage: Binary64) -> nat {
    match percentage {
        Binary64::Finite(units) => if units < 0 {
            0
        } else {
            units as nat / units_per_one()
        },
        _ => 0,
    }
}

/// Whether all of the percentages are integers from 0 to 100.
pub open spec fn all_whole(distribution: Seq<ValueShare>) -> bool {
    forall|i: int|
        0 <= i < distribution.len() ==> {
            let percentage = (#[trigger] distribution[i]).percentage;
            points(percentage) <= 100 && percentage == whole(points(percentage))
        }
}

/// The sum of the integer parts of the percentages.
pub open spec fn points_sum(distribution: Seq<ValueShare>) -> nat
    decreases distribution.len(),
{
    if distribution.len() == 0 {
        0
    } else {
        points_sum(distribution.drop_last()) + points(distribution.last().percentage)
    }
}

proof fn lemma_placed_points(sorted: Seq<ValueShare>, share: ValueShare)
    ensures
        points_sum(placed(sorted, share)) == points_sum(sorted) + points(share.percentage),
    decreases sorted.len(),
{
    let after = placed(sorted, share);
    if sorted.len() > 0 && share.percentage.rank() > sorted.last().percentage.rank() {
        lemma_placed_points(sorted.drop_last(), share);
        assert(after.drop_last() =~= placed(sorted.drop_last(), share));
    } else {
        assert(after.drop_last() =~= sorted);
    }
}

proof fn lemma_ranked_points(distribution: Seq<ValueShare>)
    ensures
        points_sum(ranked(distribution)) == points_sum(distribution),
    decreases distribution.len(),
{
    if distribution.len() > 0 {
        lemma_ranked_points(distribution.drop_last());
        lemma_placed_points(ranked(distribution.drop_last()), distribution.last());
    }
}

proof fn lemma_points_integer_sum(distribution: Seq<ValueShare>, values: Seq<nat>, n: int)
    requires
        0 <= n <= distribution.len(),
        values == Seq::new(distribution.len(), |i: int| points(distribution[i].percentage)),
    ensures
        integer_sum(values, n) == points_sum(distribution.take(n)),
    decreases n,
{
    if n > 0 {
        lemma_points_integer_sum(distribution, values, n - 1);
        assert(distribution.take(n).drop_last() =~= distribution.take(n - 1));
    }
}

/// Integer percentages are accepted exactly if they add up to 100.
pub proof fn law_whole_percentages_make_hundred(distribution: Seq<ValueShare>)
    requires
        all_whole(distribution),
        points_sum(distribution) < SIGNIFICAND_LIMIT,
    ensures
        adds_up(distribution) <==> points_sum(distribution) == 100,
{
    let n = distribution.len() as int;
    let values = Seq::new(distribution.len(), |i: int| points(distribution[i].percentage));
    lemma_points_integer_sum(distribution, values, n);
    assert(distribution.take(n) =~= distribution);
    law_whole_percentages_add_up(values, n);
    assert(percentages_of(distribution) =~= Seq::new(values.len(), |i: int| whole(values[i])));
    let sum = points_sum(distribution);
    lemma_pow2_pos(1074);
    let one = units_per_one();
    assert(sum * one == 100 * one <==> sum == 100) by (nonlinear_arith)
        requires
            one > 0,
    ;
}

/// The shares of integer percentages that make 100 are no more than all of the pods.
proof fn lemma_whole_shares(distribution: Seq<ValueShare>, n: nat, i: int)
    requires
        all_whole(distribution),
        n < MANY_PODS,
        n <= usize::MAX,
        0 <= i <= distribution.len(),
    ensures
        100 * share_sum(shares(distribution, n), i) <= n * points_sum(distribution.take(i)),
    decreases i,
{
    let parts = shares(distribution, n);
    if i > 0 {
        lemma_whole_shares(distribution, n, i - 1);
        assert(distribution.take(i).drop_last() =~= distribution.take(i - 1));
        let c = points(distribution[i - 1].percentage);
        assert(distribution[i - 1].percentage == whole(c));
        law_whole_percentage_is_exact(n, c);
        let rest = points_sum(distribution.take(i - 1));
        assert(n * (rest + c) == n * rest + n * c) by (nonlinear_arith);
    } else {
        assert(n * points_sum(distribution.take(0)) >= 0) by (nonlinear_arith);
    }
}

/// Labels are applied by percentage: named pods can be labelled exactly if the values of the
/// distribution, from the highest percentage down, take no more than all of the pods; and
/// afterwards every value is on as many pods as it takes, except that the value with the highest
/// percentage, the first one of the ranking, also has the pods that are left over.
pub proof fn law_distribution_is_applied(
    pods: Seq<PodView>,
    name: Seq<char>,
    distribution: Seq<ValueShare>,
)
    requires
        distinct_values(distribution),
        distribution.len() > 0,
        pods.len() > 0,
        all_named(pods),
        distinct_names(pods),
    ensures
        ({
            let n = pods.len();
            let order = ranked(distribution);
            let parts = shares(order, n);
            let taken = taken_by(parts, n, parts.len() as int);
            let planned = resolution(pods, name, pods_per_label(order, n));
            &&& order.len() == distribution.len()
            &&& planned is Ok <==> taken <= n
            &&& planned is Ok ==> forall|i: int|
                0 <= i < order.len() ==> holders(
                    relabeled(pods, name, planned->Ok_0),
                    name,
                    (#[trigger] order[i]).value,
                    n as int,
                ) == taken_at(parts, n, i) + if i == 0 {
                    n - taken
                } else {
                    0
                }
        }),
{
    let n = pods.len();
    let order = ranked(distribution);
    law_ranking_sorts(distribution);
    lemma_ranked_values(distribution);
    law_numbers_are_taken(order, n);
    let counts = pods_per_label(order, n);
    law_distinct_names_resolve(pods, name, counts);
    let planned = resolution(pods, name, counts);
    if planned is Ok {
        law_numbers_are_reached(pods, name, counts, planned->Ok_0);
        assert forall|i: int| 0 <= i < order.len() implies count_of(
            counts,
            (#[trigger] order[i]).value,
        ) == counts[i].count by {
            lemma_count_of(counts, i);
            assert(counts[i].label == order[i].value);
        }
    }
}

/// Integer percentages are met exactly: distinct values with integer percentages that make 100 are
/// always given out to named pods, and afterwards every value is on its percentage of the pods,
/// rounded down, except that the value with the highest percentage, the first one of the ranking,
/// also has the pods that rounding leaves over.
pub proof fn law_integer_percentages_are_exact(
    pods: Seq<PodView>,
    name: Seq<char>,
    distribution: Seq<ValueShare>,
)
    requires
        distinct_values(distribution),
        all_whole(distribution),
        points_sum(distribution) == 100,
        0 < pods.len() < MANY_PODS,
        pods.len() <= usize::MAX,
        all_named(pods),
        distinct_names(pods),
    ensures
        ({
            let n = pods.len();
            let order = ranked(distribution);
            let planned = resolution(pods, name, pods_per_label(order, n));
            &&& planned is Ok
            &&& order.len() == distribution.len()
            &&& forall|i: int|
                0 < i < order.len() ==> holders(
                    relabeled(pods, name, planned->Ok_0),
                    name,
                    (#[trigger] order[i]).value,
                    n as int,
                ) == n * points(order[i].percentage) / 100
            &&& holders(relabeled(pods, name, planned->Ok_0), name, order[0].value, n as int)
                == n * points(order[0].percentage) / 100 + (n - share_sum(
                shares(order, n),
                order.len() as int,
            ))
        }),
{
    let n = pods.len();
    let order = ranked(distribution);
    law_ranking_sorts(distribution);
    lemma_ranked_values(distribution);
    lemma_ranked_points(distribution);
    assert(all_whole(order)) by {
        assert forall|i: int| 0 <= i < order.len() implies {
            let percentage = (#[trigger] order[i]).percentage;
            points(percentage) <= 100 && percentage == whole(points(percentage))
        } by {
            let k = choose|k: int| 0 <= k < distribution.len() && distribution[k] == order[i];
            assert(distribution.contains(ranked(distribution)[i]));
            assert(distribution[k].percentage == order[i].percentage);
        }
    }
    lemma_whole_shares(order, n, order.len() as int);
    assert(order.take(order.len() as int) =~= order);
    assert(n * points_sum(order) == 100 * n) by (nonlinear_arith)
        requires
            points_sum(order) == 100,
    ;
    assert(order.len() > 0);
    let parts = shares(order, n);
    law_distribution_is_applied(pods, name, distribution);
    lemma_all_taken(parts, n, parts.len() as int);
    assert forall|i: int| 0 <= i < order.len() implies taken_at(parts, n, i) == n * points(
        (#[trigger] order[i]).percentage,
    ) / 100 by {
        lemma_all_taken(parts, n, i);
        let c = points(order[i].percentage);
        assert(order[i].percentage == whole(c));
        law_whole_percentage_is_exact(n, c);
    }
}

} // verus!
