//! From the percentages of a label's values to numbers of pods.

use crate::binary64::{
    hundred, percentage_views, share_of, sum_of, sum_to_hundred, units_per_one, Binary64, Percentage,
};
use crate::config::{value_shares, PodLabelerValueDistributionSpec, ValueShare};
use crate::distribution::lemma_adds_up_numbers;
use crate::labels::{
    count_of, has_label, inserted, lemma_count_of, with_count, LabelCounts, Quota,
};
use crate::sums::lemma_fold;
use vstd::prelude::*;

verus! {

/// The percentages of a distribution, in its order.
pub open spec fn percentages_of(distribution: Seq<ValueShare>) -> Seq<Binary64> {
    Seq::new(distribution.len(), |i: int| distribution[i].percentage)
}

/// Whether the percentages, added up in order, make 100.
pub open spec fn adds_up(distribution: Seq<ValueShare>) -> bool {
    sum_of(percentages_of(distribution), distribution.len() as int) == hundred()
}

/// Whether all of the percentages are numbers.
pub open spec fn all_numbers(distribution: Seq<ValueShare>) -> bool {
    forall|i: int|
        0 <= i < distribution.len() ==> (#[trigger] distribution[i]).percentage !is NotANumber
}

/// `sorted` with `share` behind the last value that has no lower percentage.
pub open spec fn placed(sorted: Seq<ValueShare>, share: ValueShare) -> Seq<ValueShare>
    decreases sorted.len(),
{
    if sorted.len() > 0 && share.percentage.rank() > sorted.last().percentage.rank() {
        placed(sorted.drop_last(), share).push(sorted.last())
    } else {
        sorted.push(share)
    }
}

/// The distribution from the highest percentage to the lowest; equal percentages keep their
/// order.
pub open spec fn ranked(distribution: Seq<ValueShare>) -> Seq<ValueShare>
    decreases distribution.len(),
{
    if distribution.len() == 0 {
        Seq::empty()
    } else {
        placed(ranked(distribution.drop_last()), distribution.last())
    }
}

/// The share of `n` pods that each value's percentage makes up.
pub open spec fn shares(distribution: Seq<ValueShare>, n: nat) -> Seq<Quota> {
    Seq::new(
        distribution.len(),
        |i: int|
            Quota {
                label: distribution[i].value,
                count: share_of(n, distribution[i].percentage) as nat,
            },
    )
}

/// How many pods the first `i` values take: each its share, as long as not all of the `n` pods
/// have been taken.
pub open spec fn taken_by(shares: Seq<Quota>, n: nat, i: int) -> nat
    decreases i,
{
    if i <= 0 {
        0
    } else {
        let earlier = taken_by(shares, n, i - 1);
        if earlier >= n {
            earlier
        } else {
            earlier + shares[i - 1].count
        }
    }
}

/// How many pods the value at position `i` takes.
pub open spec fn taken_at(shares: Seq<Quota>, n: nat, i: int) -> nat {
    if taken_by(shares, n, i) >= n {
        0
    } else {
        shares[i].count
    }
}

/// The numbers that the first `i` values take, by value; of equal values the last one counts.
pub open spec fn taken_counts(shares: Seq<Quota>, n: nat, i: int) -> Seq<Quota>
    decreases i,
{
    if i <= 0 {
        Seq::empty()
    } else {
        inserted(
            taken_counts(shares, n, i - 1),
            shares[i - 1].label,
            taken_at(shares, n, i - 1),
        )
    }
}

/// How many of `n` pods each value of `distribution` is to have: its share, and the first value
/// also the pods that the shares leave over.
pub open spec fn pods_per_label(distribution: Seq<ValueShare>, n: nat) -> Seq<Quota> {
    let shares = shares(distribution, n);
    let taken = taken_by(shares, n, shares.len() as int);
    let counts = taken_counts(shares, n, shares.len() as int);
    let first = distribution[0].value;
    if distribution.len() == 0 || n == 0 {
        Seq::empty()
    } else if taken < n {
        with_count(counts, first, (count_of(counts, first) + (n - taken)) as nat)
    } else {
        counts
    }
}

/// Whether the percentages of the values, added up in order, make 100. Then all of them are
/// numbers.
pub fn percentages_add_up(distribution: &Vec<PodLabelerValueDistributionSpec>) -> (hundred: bool)
    ensures
        hundred == adds_up(value_shares(distribution@)),
        hundred ==> all_numbers(value_shares(distribution@)),
        hundred == (Seq::new(
            distribution@.len(),
            |i: int| distribution@[i].percentage@,
        ).fold_left(
            Binary64::Finite(0),
            |sum: Binary64, percentage: Binary64| sum.plus(percentage),
        ) == Binary64::Finite((100 * units_per_one()) as int)),
{
    let mut percentages: Vec<Percentage> = Vec::new();
    let mut i: usize = 0;
    while i < distribution.len()
        invariant
            i <= distribution@.len(),
            percentages@.len() == i,
            forall|j: int|
                0 <= j < i ==> #[trigger] percentages@[j] == distribution@[j].percentage,
        decreases distribution@.len() - i,
    {
        percentages.push(distribution[i].percentage);
        i = i + 1;
    }
    assert(percentage_views(percentages@) =~= percentages_of(value_shares(distribution@)));
    proof {
        let given = Seq::new(distribution@.len(), |i: int| distribution@[i].percentage@);
        assert(given =~= percentages_of(value_shares(distribution@)));
        lemma_fold(given, |sum: Binary64, percentage: Binary64| sum.plus(percentage));
        if adds_up(value_shares(distribution@)) {
            lemma_adds_up_numbers(value_shares(distribution@));
        }
    }
    sum_to_hundred(&percentages)
}

/// The distribution from the highest percentage to the lowest; equal percentages keep their
/// order.
pub fn sort_by_percentage(distribution: &Vec<PodLabelerValueDistributionSpec>) -> (sorted: Vec<
    PodLabelerValueDistributionSpec,
>)
    requires
        distribution@.len() > 1 ==> all_numbers(value_shares(distribution@)),
    ensures
        value_shares(sorted@) == ranked(value_shares(distribution@)),
{
    let ghost given = value_shares(distribution@);
    let mut sorted: Vec<PodLabelerValueDistributionSpec> = Vec::new();
    let mut i: usize = 0;
    assert(value_shares(sorted@) =~= ranked(given.take(0)));
    while i < distribution.len()
        invariant
            i <= distribution@.len(),
            given == value_shares(distribution@),
            distribution@.len() > 1 ==> all_numbers(given),
            value_shares(sorted@) == ranked(given.take(i as int)),
            sorted@.len() == i,
            i > 0 ==> distribution@.len() == 1 || all_numbers(value_shares(sorted@)),
        decreases distribution@.len() - i,
    {
        let ghost before = value_shares(sorted@);
        let ghost share = distribution@[i as int]@;
        let mut at: usize = sorted.len();
        assert(before.take(at as int) =~= before);
        assert(before.skip(at as int) =~= Seq::<ValueShare>::empty());
        assert(placed(before, share) + before.skip(at as int) =~= placed(before, share));
        assert(given[i as int] == share);
        while at > 0 && distribution[i].percentage.is_above(&sorted[at - 1].percentage)
            invariant
                at <= sorted@.len(),
                i < distribution@.len(),
                sorted@.len() == i,
                before == value_shares(sorted@),
                share == distribution@[i as int]@,
                i > 0 ==> all_numbers(before) && share.percentage !is NotANumber,
                placed(before, share) == placed(before.take(at as int), share) + before.skip(
                    at as int,
                ),
            decreases at,
        {
            assert(before.take(at as int).drop_last() =~= before.take(at - 1));
            assert(before.take(at as int).last() == before[at - 1]);
            at = at - 1;
            assert(placed(before.take(at as int), share).push(before[at as int]) + before.skip(
                at + 1,
            ) =~= placed(before.take(at as int), share) + before.skip(at as int));
        }
        proof {
            assert(placed(before.take(at as int), share) == before.take(at as int).push(share)) by {
                if at > 0 {
                    assert(before.take(at as int).last() == before[at - 1]);
                }
            }
        }
        sorted.insert(at, distribution[i].clone());
        i = i + 1;
        proof {
            assert(value_shares(sorted@) =~= before.take(at as int).push(share) + before.skip(
                at as int,
            ));
            assert(given.take(i as int).drop_last() =~= given.take(i - 1));
            if distribution@.len() > 1 {
                let after = value_shares(sorted@);
                assert forall|j: int| 0 <= j < after.len() implies (
                #[trigger] after[j]).percentage !is NotANumber by {
                    if j < at {
                        assert(after[j] == before[j]);
                    } else if j > at {
                        assert(after[j] == before[j - 1]);
                    } else {
                        assert(after[j] == given[i - 1]);
                    }
                }
            }
        }
    }
    assert(given.take(i as int) =~= given);
    sorted
}

/// How many of `pod_count` pods each value is to have.
///
/// `sorted_distr` starts with the highest percentage: the first value also gets the pods that
/// the shares, which are rounded down, leave over.
pub fn calculate_pods_per_label(
    sorted_distr: &Vec<PodLabelerValueDistributionSpec>,
    pod_count: usize,
) -> (counts: LabelCounts)
    ensures
        counts.wf(),
        counts@ == pods_per_label(value_shares(sorted_distr@), pod_count as nat),
{
    let mut counts = LabelCounts::new();
    if sorted_distr.len() == 0 || pod_count == 0 {
        return counts;
    }
    let ghost n = pod_count as nat;
    let ghost given = value_shares(sorted_distr@);
    let ghost parts = shares(given, n);
    let mut taken: u128 = 0;
    let mut i: usize = 0;
    while i < sorted_distr.len()
        invariant
            i <= sorted_distr@.len(),
            n == pod_count,
            given == value_shares(sorted_distr@),
            parts == shares(given, n),
            counts.wf(),
            counts@ == taken_counts(parts, n, i as int),
            taken == taken_by(parts, n, i as int),
            taken < pod_count as int + usize::MAX as int,
            forall|e: int| 0 <= e < counts@.len() ==> (#[trigger] counts@[e]).count <= taken,
            i > 0 ==> has_label(counts@, given[0].value),
        decreases sorted_distr@.len() - i,
    {
        let ghost before = counts@;
        let ghost label = given[i as int].value;
        let value = sorted_distr[i].value.clone();
        let share: usize = if taken >= pod_count as u128 {
            0
        } else {
            sorted_distr[i].percentage.share(pod_count)
        };
        taken = taken + share as u128;
        counts.insert(value, share);
        i = i + 1;
        proof {
            assert(parts[i - 1].label == label);
            lemma_inserted(before, label, share as nat);
            assert forall|e: int| 0 <= e < counts@.len() implies (
            #[trigger] counts@[e]).count <= taken by {
                if e < before.len() {
                    assert(before[e].count <= taken);
                }
            }
        }
    }
    if taken < pod_count as u128 {
        let first = &sorted_distr[0].value;
        match counts.position(first) {
            Some(e) => {
                let ghost before = counts@;
                let rest: usize = pod_count - taken as usize;
                let count: usize = counts.count(e);
                assert(counts@[e as int].count <= taken);
                proof {
                    lemma_count_of(before, e as int);
                }
                counts.set_count(e, count + rest);
                assert(counts@ =~= with_count(before, given[0].value, (count + rest) as nat));
            },
            None => {},
        }
    }
    counts
}

/// An inserted label is there, and so are all that were there before.
pub(crate) proof fn lemma_inserted(quotas: Seq<Quota>, label: Seq<char>, count: nat)
    ensures
        has_label(inserted(quotas, label, count), label),
        forall|other: Seq<char>|
            has_label(quotas, other) ==> has_label(inserted(quotas, label, count), other),
{
    let after = inserted(quotas, label, count);
    assert forall|other: Seq<char>| has_label(quotas, other) implies has_label(after, other) by {
        let e = choose|e: int| 0 <= e < quotas.len() && #[trigger] quotas[e].label == other;
        assert(after[e].label == other);
    }
    if !has_label(quotas, label) {
        assert(after[quotas.len() as int].label == label);
    }
}

} // verus!
