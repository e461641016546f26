//! What is asked of the assignments, by counting pods: that the numbers come about, and that as
//! few pods as possible are touched.

use crate::config::ValueShare;
use crate::convergence::{
    distinct_names, law_numbers_are_reached, lemma_expanded_labels, lemma_pending_distinct,
    lemma_pending_prefix, lemma_pending_source, relabeled,
};
use crate::cycle::lemma_numbers_distinct;
use crate::economy::{changed, law_no_pod_is_relabelled_needlessly};
use crate::labeler::plan;
use crate::labels::{
    count_of, distinct_labels, has_label, lemma_count_of, lemma_count_of_absent, total, Quota,
};
use crate::pod::PodView;
use crate::quota::{pods_per_label, ranked};
use crate::resolve::{
    all_named, expanded, holders, keeps, lemma_expanded_len, lemma_vacant_total, pending,
    resolution, vacant, AssignmentView, ResolveError,
};
use vstd::prelude::*;

verus! {

/// How many of the pods carry the label `name` with this value.
pub open spec fn tally(pods: Seq<PodView>, name: Seq<char>, value: Seq<char>) -> nat {
    pods.filter(|pod: PodView| pod.label(name) == Some(value)).len()
}

/// The sum of all numbers.
pub open spec fn sum_of_counts(quotas: Seq<Quota>) -> nat {
    quotas.fold_left(0nat, |sum: nat, quota: Quota| sum + quota.count)
}

/// Whether the pod number `i` is among the first that carry its value, up to the number that
/// `quotas` has for the value.
pub open spec fn among_first(
    pods: Seq<PodView>,
    name: Seq<char>,
    quotas: Seq<Quota>,
    i: int,
) -> bool {
    exists|e: int|
        #![trigger quotas[e]]
        0 <= e < quotas.len() && pods[i].label(name) == Some(quotas[e].label) && tally(
            pods.take(i),
            name,
            quotas[e].label,
        ) < quotas[e].count
}

proof fn lemma_tally(pods: Seq<PodView>, name: Seq<char>, value: Seq<char>, n: int)
    requires
        0 <= n <= pods.len(),
    ensures
        tally(pods.take(n), name, value) == holders(pods, name, value, n),
    decreases n,
{
    reveal(Seq::filter);
    if n > 0 {
        lemma_tally(pods, name, value, n - 1);
        assert(pods.take(n).drop_last() =~= pods.take(n - 1));
        assert(pods.take(n).last() == pods[n - 1]);
    }
}

proof fn lemma_tally_all(pods: Seq<PodView>, name: Seq<char>, value: Seq<char>)
    ensures
        tally(pods, name, value) == holders(pods, name, value, pods.len() as int),
{
    lemma_tally(pods, name, value, pods.len() as int);
    assert(pods.take(pods.len() as int) =~= pods);
}

/// The total is the sum of the numbers.
pub proof fn law_total_is_the_sum(quotas: Seq<Quota>)
    ensures
        sum_of_counts(quotas) == total(quotas),
    decreases quotas.len(),
{
    if quotas.len() > 0 {
        law_total_is_the_sum(quotas.drop_last());
    }
}

proof fn lemma_among_first(pods: Seq<PodView>, name: Seq<char>, quotas: Seq<Quota>, i: int)
    requires
        distinct_labels(quotas),
        0 <= i < pods.len(),
    ensures
        among_first(pods, name, quotas, i) == keeps(pods, name, quotas, i),
{
    if among_first(pods, name, quotas, i) {
        let e = choose|e: int|
            #![trigger quotas[e]]
            0 <= e < quotas.len() && pods[i].label(name) == Some(quotas[e].label) && tally(
                pods.take(i),
                name,
                quotas[e].label,
            ) < quotas[e].count;
        lemma_count_of(quotas, e);
        lemma_tally(pods, name, quotas[e].label, i);
    }
    if keeps(pods, name, quotas, i) {
        let label = pods[i].label(name)->0;
        if !has_label(quotas, label) {
            lemma_count_of_absent(quotas, label);
        }
        let e = choose|e: int| 0 <= e < quotas.len() && #[trigger] quotas[e].label == label;
        lemma_count_of(quotas, e);
        lemma_tally(pods, name, label, i);
        assert(tally(pods.take(i), name, quotas[e].label) < quotas[e].count);
    }
}

/// Carrying out the assignments brings about the numbers: each value is then on as many pods as its
/// number says, and no pod has another value.
pub proof fn law_assignments_bring_about_the_numbers(
    pods: Seq<PodView>,
    name: Seq<char>,
    quotas: Seq<Quota>,
    assignments: Seq<AssignmentView>,
)
    requires
        distinct_labels(quotas),
        distinct_names(pods),
        resolution(pods, name, quotas) == Ok::<_, ResolveError>(assignments),
    ensures
        forall|e: int|
            0 <= e < quotas.len() ==> tally(
                relabeled(pods, name, assignments),
                name,
                (#[trigger] quotas[e]).label,
            ) == quotas[e].count,
        forall|i: int|
            0 <= i < pods.len() ==> exists|e: int|
                0 <= e < quotas.len() && (#[trigger] relabeled(pods, name, assignments)[i]).label(
                    name,
                ) == Some((#[trigger] quotas[e]).label),
{
    let after = relabeled(pods, name, assignments);
    law_numbers_are_reached(pods, name, quotas, assignments);
    assert forall|e: int| 0 <= e < quotas.len() implies tally(
        after,
        name,
        (#[trigger] quotas[e]).label,
    ) == quotas[e].count by {
        lemma_tally_all(after, name, quotas[e].label);
        lemma_count_of(quotas, e);
        assert(holders(after, name, quotas[e].label, pods.len() as int) == count_of(
            quotas,
            quotas[e].label,
        ));
    }
    assert forall|i: int| 0 <= i < pods.len() implies exists|e: int|
        0 <= e < quotas.len() && (#[trigger] relabeled(pods, name, assignments)[i]).label(name)
            == Some((#[trigger] quotas[e]).label) by {
        let label = after[i].label(name);
        let e = choose|e: int| 0 <= e < quotas.len() && #[trigger] quotas[e].label == label->0;
        assert(label == Some(quotas[e].label));
    }
}

/// No other labelling with as many pods for each value as the assignments bring about differs from
/// what the pods carry on fewer pods than there are assignments.
pub proof fn law_assignments_are_as_few_as_possible(
    pods: Seq<PodView>,
    name: Seq<char>,
    quotas: Seq<Quota>,
    assignments: Seq<AssignmentView>,
    after: Seq<PodView>,
)
    requires
        distinct_labels(quotas),
        distinct_names(pods),
        resolution(pods, name, quotas) == Ok::<_, ResolveError>(assignments),
        after.len() == pods.len(),
        forall|value: Seq<char>| #[trigger]
            tally(after, name, value) == tally(relabeled(pods, name, assignments), name, value),
    ensures
        assignments.len() <= changed(pods, after, name, pods.len() as int),
{
    law_numbers_are_reached(pods, name, quotas, assignments);
    assert forall|label: Seq<char>| #[trigger]
        holders(after, name, label, pods.len() as int) == count_of(quotas, label) by {
        lemma_tally_all(after, name, label);
        lemma_tally_all(relabeled(pods, name, assignments), name, label);
        assert(tally(after, name, label) == tally(
            relabeled(pods, name, assignments),
            name,
            label,
        ));
        assert(holders(relabeled(pods, name, assignments), name, label, pods.len() as int)
            == count_of(quotas, label));
    }
    law_no_pod_is_relabelled_needlessly(pods, name, quotas, assignments, after);
}

/// The first pods that carry a value, up to its number, are left alone; each of the other pods gets
/// one assignment, and there is no other assignment. What is assigned are values that have a
/// number.
pub proof fn law_first_holders_are_left_alone(
    pods: Seq<PodView>,
    name: Seq<char>,
    quotas: Seq<Quota>,
    assignments: Seq<AssignmentView>,
)
    requires
        distinct_labels(quotas),
        distinct_names(pods),
        resolution(pods, name, quotas) == Ok::<_, ResolveError>(assignments),
    ensures
        forall|i: int, k: int|
            0 <= i < pods.len() && 0 <= k < assignments.len() && among_first(pods, name, quotas, i)
                ==> Some((#[trigger] assignments[k]).pod_name) != (#[trigger] pods[i]).name,
        forall|i: int|
            0 <= i < pods.len() && !among_first(pods, name, quotas, i) ==> exists|k: int|
                0 <= k < assignments.len() && Some((#[trigger] assignments[k]).pod_name) == (
                #[trigger] pods[i]).name,
        forall|k: int|
            0 <= k < assignments.len() ==> exists|i: int|
                0 <= i < pods.len() && Some((#[trigger] assignments[k]).pod_name) == (
                #[trigger] pods[i]).name,
        forall|j: int, k: int|
            0 <= j < k < assignments.len() ==> (#[trigger] assignments[j]).pod_name != (
            #[trigger] assignments[k]).pod_name,
        forall|k: int|
            0 <= k < assignments.len() ==> exists|e: int|
                0 <= e < quotas.len() && (#[trigger] assignments[k]).label_value == (
                #[trigger] quotas[e]).label,
{
    let n = pods.len() as int;
    let names = pending(pods, name, quotas, n);
    let left = vacant(pods, name, quotas, n);
    lemma_vacant_total(pods, name, quotas, n);
    lemma_expanded_len(left);
    lemma_pending_distinct(pods, name, quotas);
    assert forall|i: int, k: int|
        0 <= i < pods.len() && 0 <= k < assignments.len() && among_first(
            pods,
            name,
            quotas,
            i,
        ) implies Some((#[trigger] assignments[k]).pod_name) != (#[trigger] pods[i]).name by {
        lemma_among_first(pods, name, quotas, i);
        let j = lemma_pending_source(pods, name, quotas, n, k);
        assert(pods[j].name is Some);
        if j < i {
            assert(pods[j].name != pods[i].name);
        } else {
            assert(pods[i].name != pods[j].name);
        }
    }
    assert forall|i: int|
        0 <= i < pods.len() && !among_first(pods, name, quotas, i) implies exists|k: int|
        0 <= k < assignments.len() && Some((#[trigger] assignments[k]).pod_name) == (
        #[trigger] pods[i]).name by {
        lemma_among_first(pods, name, quotas, i);
        let k = pending(pods, name, quotas, i).len() as int;
        lemma_pending_prefix(pods, name, quotas, i + 1, n);
        assert(pending(pods, name, quotas, i + 1)[k] == pods[i].name->0);
        assert(pods[i].name is Some);
        assert(assignments[k].pod_name == pods[i].name->0);
    }
    assert forall|k: int| 0 <= k < assignments.len() implies exists|i: int|
        0 <= i < pods.len() && Some((#[trigger] assignments[k]).pod_name) == (
        #[trigger] pods[i]).name by {
        let i = lemma_pending_source(pods, name, quotas, n, k);
        assert(pods[i].name is Some);
    }
    assert forall|j: int, k: int| 0 <= j < k < assignments.len() implies (
    #[trigger] assignments[j]).pod_name != (#[trigger] assignments[k]).pod_name by {
        assert(names[j] != names[k]);
    }
    assert forall|k: int| 0 <= k < assignments.len() implies exists|e: int|
        0 <= e < quotas.len() && (#[trigger] assignments[k]).label_value == (
        #[trigger] quotas[e]).label by {
        lemma_expanded_labels(left, k);
        let e = choose|e: int|
            0 <= e < left.len() && #[trigger] left[e].label == expanded(left)[k];
        assert(quotas[e].label == left[e].label);
    }
}

proof fn lemma_seq_to_set_len(names: Seq<Seq<char>>)
    ensures
        names.to_set().len() <= names.len(),
{
    names.lemma_cardinality_of_set();
}

/// The pods that wait for a value are those that are put on the list.
proof fn lemma_waiting(
    pods: Seq<PodView>,
    name: Seq<char>,
    quotas: Seq<Quota>,
    n: int,
    waits: spec_fn(int) -> bool,
    names_of: spec_fn(int) -> Seq<char>,
)
    requires
        distinct_labels(quotas),
        0 <= n <= pods.len(),
        forall|i: int| #[trigger] waits(i) == !among_first(pods, name, quotas, i),
        forall|i: int| #[trigger] names_of(i) == pods[i].name->0,
    ensures
        Seq::new(n as nat, |i: int| i).filter(waits).map_values(names_of) == pending(
            pods,
            name,
            quotas,
            n,
        ),
    decreases n,
{
    reveal(Seq::filter);
    let indices = Seq::new(n as nat, |i: int| i);
    if n > 0 {
        lemma_waiting(pods, name, quotas, n - 1, waits, names_of);
        lemma_among_first(pods, name, quotas, n - 1);
        let fewer = Seq::new((n - 1) as nat, |i: int| i);
        assert(indices.drop_last() =~= fewer);
        assert(waits(n - 1) == !keeps(pods, name, quotas, n - 1));
        assert(names_of(n - 1) == pods[n - 1].name->0);
        assert(indices.filter(waits).map_values(names_of) =~= pending(pods, name, quotas, n));
    } else {
        assert(indices.filter(waits).map_values(names_of) =~= pending(pods, name, quotas, n));
    }
}

/// Values can be given out exactly if their numbers add up to the pods, all pods have names, and no
/// two of the pods that get a value have the same one; and the first of these that does not hold is
/// the error.
pub proof fn law_resolution_fails_when_it_must(
    pods: Seq<PodView>,
    name: Seq<char>,
    quotas: Seq<Quota>,
)
    requires
        distinct_labels(quotas),
        pods.len() <= usize::MAX,
        sum_of_counts(quotas) <= u128::MAX,
    ensures
        ({
            let resolved = resolution(pods, name, quotas);
            let unnamed = exists|i: int| 0 <= i < pods.len() && (#[trigger] pods[i]).name is None;
            let twice = exists|i: int, j: int|
                0 <= i < j < pods.len() && (#[trigger] pods[i]).name == (#[trigger] pods[j]).name
                    && !among_first(pods, name, quotas, i) && !among_first(pods, name, quotas, j);
            if sum_of_counts(quotas) != pods.len() {
                resolved is Err && resolved->Err_0 is LabelTotal
                    && resolved->Err_0->LabelTotal_labels == sum_of_counts(quotas)
                    && resolved->Err_0->LabelTotal_pods == pods.len()
            } else if unnamed {
                resolved is Err && resolved->Err_0 is UnnamedPod
            } else if twice {
                let waiting = Seq::new(pods.len(), |i: int| i).filter(
                    |i: int| !among_first(pods, name, quotas, i),
                );
                resolved is Err && resolved->Err_0 is PendingTotal
                    && resolved->Err_0->PendingTotal_labels == waiting.len()
                    && resolved->Err_0->PendingTotal_pods == waiting.map_values(
                    |i: int| pods[i].name->0,
                ).to_set().len()
            } else {
                resolved is Ok
            }
        }),
{
    let n = pods.len() as int;
    let names = pending(pods, name, quotas, n);
    law_total_is_the_sum(quotas);
    assert(all_named(pods) == !(exists|i: int|
        0 <= i < pods.len() && (#[trigger] pods[i]).name is None));
    if total(quotas) == pods.len() && all_named(pods) {
        let waits = |i: int| !among_first(pods, name, quotas, i);
        let names_of = |i: int| pods[i].name->0;
        lemma_waiting(pods, name, quotas, n, waits, names_of);
        lemma_seq_to_set_len(names);
        if !names.no_duplicates() {
            let (j, k) = choose|j: int, k: int|
                0 <= j < names.len() && 0 <= k < names.len() && j != k && names[j] == names[k];
            let a = lemma_pending_source(pods, name, quotas, n, j);
            let b = lemma_pending_source(pods, name, quotas, n, k);
            lemma_among_first(pods, name, quotas, a);
            lemma_among_first(pods, name, quotas, b);
            assert(pods[a].name is Some && pods[b].name is Some);
            assert(a != b);
        }
        assert forall|i: int, j: int|
            0 <= i < j < pods.len() && (#[trigger] pods[i]).name == (#[trigger] pods[j]).name
                && !among_first(pods, name, quotas, i) && !among_first(
                pods,
                name,
                quotas,
                j,
            ) implies !names.no_duplicates() by {
            lemma_among_first(pods, name, quotas, i);
            lemma_among_first(pods, name, quotas, j);
            let a = pending(pods, name, quotas, i).len() as int;
            let b = pending(pods, name, quotas, j).len() as int;
            lemma_pending_prefix(pods, name, quotas, i + 1, n);
            lemma_pending_prefix(pods, name, quotas, j + 1, n);
            lemma_pending_prefix(pods, name, quotas, i + 1, j);
            assert(pending(pods, name, quotas, i + 1)[a] == pods[i].name->0);
            assert(pending(pods, name, quotas, j + 1)[b] == pods[j].name->0);
            assert(names[a] == names[b] && a < b);
        }
    }
}

/// Once a label has been applied, each value that the distribution has a number for is on exactly
/// that number of pods, and no pod has another value.
pub proof fn law_plan_brings_about_the_numbers(
    pods: Seq<PodView>,
    name: Seq<char>,
    distribution: Seq<ValueShare>,
    assignments: Seq<AssignmentView>,
)
    requires
        distinct_names(pods),
        plan(pods, name, distribution) == Ok::<_, ResolveError>(assignments),
    ensures
        ({
            let numbers = pods_per_label(ranked(distribution), pods.len());
            let after = relabeled(pods, name, assignments);
            &&& forall|e: int|
                0 <= e < numbers.len() ==> tally(after, name, (#[trigger] numbers[e]).label)
                    == numbers[e].count
            &&& forall|i: int|
                0 <= i < pods.len() ==> exists|e: int|
                    0 <= e < numbers.len() && (#[trigger] after[i]).label(name) == Some(
                        (#[trigger] numbers[e]).label,
                    )
        }),
{
    lemma_numbers_distinct(ranked(distribution), pods.len());
    law_assignments_bring_about_the_numbers(
        pods,
        name,
        pods_per_label(ranked(distribution), pods.len()),
        assignments,
    );
}

/// Applying a distribution patches as few pods as possible: no other labelling of the pods with as
/// many pods for each value differs from what the pods carry on fewer pods.
pub proof fn law_plan_touches_as_few_pods_as_possible(
    pods: Seq<PodView>,
    name: Seq<char>,
    distribution: Seq<ValueShare>,
    assignments: Seq<AssignmentView>,
    after: Seq<PodView>,
)
    requires
        distinct_names(pods),
        plan(pods, name, distribution) == Ok::<_, ResolveError>(assignments),
        after.len() == pods.len(),
        forall|value: Seq<char>| #[trigger]
            tally(after, name, value) == tally(relabeled(pods, name, assignments), name, value),
    ensures
        assignments.len() <= changed(pods, after, name, pods.len() as int),
{
    lemma_numbers_distinct(ranked(distribution), pods.len());
    law_assignments_are_as_few_as_possible(
        pods,
        name,
        pods_per_label(ranked(distribution), pods.len()),
        assignments,
        after,
    );
}

/// Applying a distribution leaves the pods alone that carry a value it wants: a pod with fewer pods
/// of its value before it than there are pods of that value in the end is not assigned anything.
/// Every other pod gets one assignment, and there are no more.
pub proof fn law_plan_leaves_holders_alone(
    pods: Seq<PodView>,
    name: Seq<char>,
    distribution: Seq<ValueShare>,
    assignments: Seq<AssignmentView>,
    i: int,
)
    requires
        distinct_names(pods),
        plan(pods, name, distribution) == Ok::<_, ResolveError>(assignments),
        0 <= i < pods.len(),
    ensures
        ({
            let after = relabeled(pods, name, assignments);
            let stays = pods[i].label(name) is Some && tally(
                pods.take(i),
                name,
                pods[i].label(name)->0,
            ) < tally(after, name, pods[i].label(name)->0);
            if stays {
                forall|k: int|
                    0 <= k < assignments.len() ==> Some((#[trigger] assignments[k]).pod_name)
                        != pods[i].name
            } else {
                exists|k: int|
                    0 <= k < assignments.len() && Some((#[trigger] assignments[k]).pod_name)
                        == pods[i].name
            }
        }),
        forall|j: int, k: int|
            0 <= j < k < assignments.len() ==> (#[trigger] assignments[j]).pod_name != (
            #[trigger] assignments[k]).pod_name,
        forall|k: int|
            0 <= k < assignments.len() ==> exists|j: int|
                0 <= j < pods.len() && Some((#[trigger] assignments[k]).pod_name) == (
                #[trigger] pods[j]).name,
{
    let numbers = pods_per_label(ranked(distribution), pods.len());
    let after = relabeled(pods, name, assignments);
    lemma_numbers_distinct(ranked(distribution), pods.len());
    law_first_holders_are_left_alone(pods, name, numbers, assignments);
    lemma_among_first(pods, name, numbers, i);
    if pods[i].label(name) is Some {
        let value = pods[i].label(name)->0;
        law_numbers_are_reached(pods, name, numbers, assignments);
        lemma_tally_all(after, name, value);
        lemma_tally(pods, name, value, i);
        assert(holders(after, name, value, pods.len() as int) == count_of(numbers, value));
    }
}

/// Applying a distribution succeeds exactly if its numbers add up to the pods, all pods have names,
/// and no two of the pods that need a value have the same one. Otherwise it fails with the first of
/// these that does not hold.
pub proof fn law_plan_fails_when_it_must(
    pods: Seq<PodView>,
    name: Seq<char>,
    distribution: Seq<ValueShare>,
)
    requires
        pods.len() <= usize::MAX,
        sum_of_counts(pods_per_label(ranked(distribution), pods.len())) <= u128::MAX,
    ensures
        ({
            let planned = plan(pods, name, distribution);
            let numbers = pods_per_label(ranked(distribution), pods.len());
            let unnamed = exists|i: int| 0 <= i < pods.len() && (#[trigger] pods[i]).name is None;
            let twice = exists|i: int, j: int|
                0 <= i < j < pods.len() && (#[trigger] pods[i]).name == (#[trigger] pods[j]).name
                    && !among_first(pods, name, numbers, i) && !among_first(pods, name, numbers, j);
            if sum_of_counts(numbers) != pods.len() {
                planned is Err && planned->Err_0 is LabelTotal && planned->Err_0->LabelTotal_labels
                    == sum_of_counts(numbers) && planned->Err_0->LabelTotal_pods == pods.len()
            } else if unnamed {
                planned is Err && planned->Err_0 is UnnamedPod
            } else if twice {
                let waiting = Seq::new(pods.len(), |i: int| i).filter(
                    |i: int| !among_first(pods, name, numbers, i),
                );
                planned is Err && planned->Err_0 is PendingTotal
                    && planned->Err_0->PendingTotal_labels == waiting.len()
                    && planned->Err_0->PendingTotal_pods == waiting.map_values(
                    |i: int| pods[i].name->0,
                ).to_set().len()
            } else {
                planned is Ok
            }
        }),
{
    lemma_numbers_distinct(ranked(distribution), pods.len());
    law_resolution_fails_when_it_must(
        pods,
        name,
        pods_per_label(ranked(distribution), pods.len()),
    );
}

} // verus!
