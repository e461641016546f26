//! What a reconciliation cycle comes to for one label of an application.

use crate::binary64::share_of;
use crate::config::ValueShare;
use crate::convergence::{
    distinct_names, law_labelling_is_stable, law_numbers_are_reached, relabeled,
};
use crate::distribution::{
    distinct_values, law_distribution_is_applied, law_ranking_sorts, lemma_all_taken, share_sum,
};
use crate::labeler::plan;
use crate::labels::{count_of, distinct_labels, has_label, inserted, with_count, Quota};
use crate::pod::PodView;
use crate::precision::{few, law_shares_fit, none_negative};
use crate::quota::{adds_up, pods_per_label, ranked, shares, taken_at, taken_by, taken_counts};
use crate::resolve::{all_named, holders, AssignmentView, ResolveError};
use vstd::arithmetic::power2::lemma_pow2_pos;
use vstd::prelude::*;

verus! {

proof fn lemma_with_count_distinct(quotas: Seq<Quota>, label: Seq<char>, count: nat)
    requires
        distinct_labels(quotas),
    ensures
        distinct_labels(with_count(quotas, label, count)),
{
    let after = with_count(quotas, label, count);
    assert forall|i: int, j: int| 0 <= i < j < after.len() implies #[trigger] after[i].label
        != #[trigger] after[j].label by {
        assert(quotas[i].label != quotas[j].label);
    }
}

pub(crate) proof fn lemma_taken_distinct(parts: Seq<Quota>, n: nat, i: int)
    requires
        0 <= i <= parts.len(),
    ensures
        distinct_labels(taken_counts(parts, n, i)),
    decreases i,
{
    if i > 0 {
        lemma_taken_distinct(parts, n, i - 1);
        let before = taken_counts(parts, n, i - 1);
        let label = parts[i - 1].label;
        let count = taken_at(parts, n, i - 1);
        if has_label(before, label) {
            lemma_with_count_distinct(before, label, count);
        } else {
            let after = inserted(before, label, count);
            assert forall|e: int, f: int| 0 <= e < f < after.len() implies #[trigger] after[e].label
                != #[trigger] after[f].label by {
                assert(before[e].label != label);
                if f < before.len() {
                    assert(before[e].label != before[f].label);
                }
            }
        }
    }
}

/// Each value has one number, even where a distribution names it twice.
pub(crate) proof fn lemma_numbers_distinct(distribution: Seq<ValueShare>, n: nat)
    ensures
        distinct_labels(pods_per_label(distribution, n)),
{
    let parts = shares(distribution, n);
    lemma_taken_distinct(parts, n, parts.len() as int);
    let counts = taken_counts(parts, n, parts.len() as int);
    lemma_with_count_distinct(
        counts,
        distribution[0].value,
        (count_of(counts, distribution[0].value) + (n - taken_by(
            parts,
            n,
            parts.len() as int,
        ))) as nat,
    );
}

/// Once a label has been applied, every value is on exactly as many pods as the distribution
/// comes to for the number of pods, whatever labels the pods had before: the distribution is kept
/// up when pods come and go.
pub proof fn law_applied_label_is_distributed(
    pods: Seq<PodView>,
    name: Seq<char>,
    distribution: Seq<ValueShare>,
    assignments: Seq<AssignmentView>,
)
    requires
        distinct_names(pods),
        plan(pods, name, distribution) == Ok::<_, ResolveError>(assignments),
    ensures
        forall|value: Seq<char>| #[trigger]
            holders(relabeled(pods, name, assignments), name, value, pods.len() as int) == count_of(
                pods_per_label(ranked(distribution), pods.len()),
                value,
            ),
{
    let numbers = pods_per_label(ranked(distribution), pods.len());
    lemma_numbers_distinct(ranked(distribution), pods.len());
    law_numbers_are_reached(pods, name, numbers, assignments);
}

/// Another cycle right after one in which a label was applied patches no pod.
pub proof fn law_next_cycle_changes_nothing(
    pods: Seq<PodView>,
    name: Seq<char>,
    distribution: Seq<ValueShare>,
    assignments: Seq<AssignmentView>,
)
    requires
        distinct_names(pods),
        plan(pods, name, distribution) == Ok::<_, ResolveError>(assignments),
    ensures
        plan(relabeled(pods, name, assignments), name, distribution) == Ok::<_, ResolveError>(
            Seq::<AssignmentView>::empty(),
        ),
{
    let numbers = pods_per_label(ranked(distribution), pods.len());
    lemma_numbers_distinct(ranked(distribution), pods.len());
    law_labelling_is_stable(pods, name, numbers, assignments);
}

/// A pod can have several labels: applying one leaves every value of another label on as many
/// pods as before.
pub proof fn law_labels_do_not_disturb_each_other(
    pods: Seq<PodView>,
    name: Seq<char>,
    assignments: Seq<AssignmentView>,
    other: Seq<char>,
    value: Seq<char>,
    n: int,
)
    requires
        other != name,
        0 <= n <= pods.len(),
    ensures
        holders(relabeled(pods, name, assignments), other, value, n) == holders(
            pods,
            other,
            value,
            n,
        ),
    decreases n,
{
    if n > 0 {
        law_labels_do_not_disturb_each_other(pods, name, assignments, other, value, n - 1);
        assert(relabeled(pods, name, assignments)[n - 1].label(other) == pods[n - 1].label(other));
    }
}

/// As long as the shares of distinct values make no more than all of the pods, they can be given
/// out to named pods. Afterwards every value is on its share of the pods, except that the value with
/// the highest percentage, the first one of the ranking, also has the pods that the shares, which
/// are rounded down, leave over.
pub proof fn law_shares_are_applied(
    pods: Seq<PodView>,
    name: Seq<char>,
    distribution: Seq<ValueShare>,
)
    requires
        distinct_values(distribution),
        distribution.len() > 0,
        pods.len() > 0,
        share_sum(shares(ranked(distribution), pods.len()), distribution.len() as int)
            <= pods.len(),
        all_named(pods),
        distinct_names(pods),
    ensures
        ({
            let n = pods.len();
            let order = ranked(distribution);
            let planned = plan(pods, name, distribution);
            let left = n - share_sum(shares(order, n), order.len() as int);
            &&& planned is Ok
            &&& order.len() == distribution.len()
            &&& left >= 0
            &&& forall|i: int|
                0 <= i < order.len() ==> holders(
                    relabeled(pods, name, planned->Ok_0),
                    name,
                    (#[trigger] order[i]).value,
                    n as int,
                ) == share_of(n, order[i].percentage) + if i == 0 {
                    left
                } else {
                    0
                }
        }),
{
    let n = pods.len();
    let order = ranked(distribution);
    let parts = shares(order, n);
    law_ranking_sorts(distribution);
    law_distribution_is_applied(pods, name, distribution);
    lemma_all_taken(parts, n, parts.len() as int);
    assert forall|i: int| 0 <= i < order.len() implies taken_at(parts, n, i) == share_of(
        n,
        (#[trigger] order[i]).percentage,
    ) by {
        lemma_all_taken(parts, n, i);
    }
}

/// Labels are applied by percentage: distinct values whose percentages are not negative and add
/// up to 100 can always be given out to named pods. Afterwards every value is on its share of the
/// pods, except that the value with the highest percentage, the first one of the ranking, also has
/// the pods that the shares, which are rounded down, leave over.
pub proof fn law_percentages_are_applied(
    pods: Seq<PodView>,
    name: Seq<char>,
    distribution: Seq<ValueShare>,
)
    requires
        distinct_values(distribution),
        none_negative(distribution),
        adds_up(distribution),
        pods.len() > 0,
        few(pods.len(), distribution.len()),
        all_named(pods),
        distinct_names(pods),
    ensures
        ({
            let n = pods.len();
            let order = ranked(distribution);
            let planned = plan(pods, name, distribution);
            let left = n - share_sum(shares(order, n), order.len() as int);
            &&& planned is Ok
            &&& order.len() == distribution.len()
            &&& left >= 0
            &&& forall|i: int|
                0 <= i < order.len() ==> holders(
                    relabeled(pods, name, planned->Ok_0),
                    name,
                    (#[trigger] order[i]).value,
                    n as int,
                ) == share_of(n, order[i].percentage) + if i == 0 {
                    left
                } else {
                    0
                }
        }),
{
    lemma_pow2_pos(1074);
    assert(distribution.len() > 0);
    law_shares_fit(distribution, pods.len());
    law_shares_are_applied(pods, name, distribution);
}

} // verus!
