//! What the assignments of [`crate::resolve`] bring about once they are carried out.

use crate::labels::{
    count_of, distinct_labels, has_label, lemma_count_of, lemma_count_of_absent, total, Quota,
};
use crate::pod::PodView;
use crate::resolve::{
    all_named, expanded, holders, keeps, lemma_expanded_len, lemma_vacant_total, pending, repeated,
    resolution, vacant, vacancies, AssignmentView, ResolveError,
};
use vstd::prelude::*;

verus! {

/// The value that `assignments`, carried out in order, leave on the pod `pod_name`, if they
/// touch it.
pub open spec fn value_for(
    assignments: Seq<AssignmentView>,
    pod_name: Seq<char>,
) -> Option<Seq<char>>
    decreases assignments.len(),
{
    if assignments.len() == 0 {
        None
    } else if assignments.last().pod_name == pod_name {
        Some(assignments.last().label_value)
    } else {
        value_for(assignments.drop_last(), pod_name)
    }
}

/// `pod` after the label `name` has been merged into its labels as `assignments` say.
pub open spec fn patched(
    pod: PodView,
    name: Seq<char>,
    assignments: Seq<AssignmentView>,
) -> PodView {
    match pod.name {
        Some(pod_name) => match value_for(assignments, pod_name) {
            Some(value) => PodView { name: pod.name, labels: pod.labels.insert(name, value) },
            None => pod,
        },
        None => pod,
    }
}

/// `pods` after all of `assignments` have been carried out.
pub open spec fn relabeled(
    pods: Seq<PodView>,
    name: Seq<char>,
    assignments: Seq<AssignmentView>,
) -> Seq<PodView> {
    Seq::new(pods.len(), |i: int| patched(pods[i], name, assignments))
}

/// No two pods have the same name.
pub open spec fn distinct_names(pods: Seq<PodView>) -> bool {
    forall|i: int, j: int|
        0 <= i < j < pods.len() ==> #[trigger] pods[i].name != #[trigger] pods[j].name
}

/// How often `label` occurs in `labels`.
spec fn occurrences(labels: Seq<Seq<char>>, label: Seq<char>) -> nat
    decreases labels.len(),
{
    if labels.len() == 0 {
        0
    } else {
        occurrences(labels.drop_last(), label) + if labels.last() == label {
            1nat
        } else {
            0nat
        }
    }
}

proof fn lemma_occurrences_add(a: Seq<Seq<char>>, b: Seq<Seq<char>>, label: Seq<char>)
    ensures
        occurrences(a + b, label) == occurrences(a, label) + occurrences(b, label),
    decreases b.len(),
{
    if b.len() == 0 {
        assert(a + b =~= a);
    } else {
        lemma_occurrences_add(a, b.drop_last(), label);
        assert((a + b).drop_last() =~= a + b.drop_last());
        assert((a + b).last() == b.last());
    }
}

proof fn lemma_occurrences_repeated(value: Seq<char>, count: nat, label: Seq<char>)
    ensures
        occurrences(repeated(value, count), label) == if value == label {
            count
        } else {
            0
        },
    decreases count,
{
    if count > 0 {
        assert(repeated(value, count).drop_last() =~= repeated(value, (count - 1) as nat));
        lemma_occurrences_repeated(value, (count - 1) as nat, label);
    }
}

/// A label occurs among the expanded values as often as its number says.
proof fn lemma_occurrences_expanded(quotas: Seq<Quota>, label: Seq<char>)
    requires
        distinct_labels(quotas),
    ensures
        occurrences(expanded(quotas), label) == count_of(quotas, label),
    decreases quotas.len(),
{
    if quotas.len() > 0 {
        let front = quotas.drop_last();
        assert(distinct_labels(front)) by {
            assert forall|i: int, j: int| 0 <= i < j < front.len() implies #[trigger] front[i].label
                != #[trigger] front[j].label by {
                assert(quotas[i].label != quotas[j].label);
            }
        }
        lemma_occurrences_expanded(front, label);
        lemma_occurrences_add(
            expanded(front),
            repeated(quotas.last().label, quotas.last().count),
            label,
        );
        lemma_occurrences_repeated(quotas.last().label, quotas.last().count, label);
        if quotas.last().label == label {
            assert(!has_label(front, label)) by {
                assert forall|i: int| 0 <= i < front.len() implies #[trigger] front[i].label
                    != label by {
                    assert(quotas[i].label != quotas[quotas.len() - 1].label);
                }
            }
            lemma_count_of_absent(front, label);
        }
    }
}

pub(crate) proof fn lemma_expanded_labels(quotas: Seq<Quota>, k: int)
    requires
        0 <= k < expanded(quotas).len(),
    ensures
        has_label(quotas, expanded(quotas)[k]),
    decreases quotas.len(),
{
    let front = quotas.drop_last();
    if k < expanded(front).len() {
        lemma_expanded_labels(front, k);
        let i = choose|i: int|
            0 <= i < front.len() && #[trigger] front[i].label == expanded(front)[k];
        assert(quotas[i].label == expanded(quotas)[k]);
    } else {
        assert(quotas[quotas.len() - 1].label == expanded(quotas)[k]);
    }
}

/// The list of the first pods is a prefix of the list of more of them.
pub(crate) proof fn lemma_pending_prefix(
    pods: Seq<PodView>,
    name: Seq<char>,
    quotas: Seq<Quota>,
    m: int,
    n: int,
)
    requires
        0 <= m <= n,
    ensures
        pending(pods, name, quotas, m).len() <= pending(pods, name, quotas, n).len(),
        forall|k: int|
            0 <= k < pending(pods, name, quotas, m).len() ==> #[trigger] pending(
                pods,
                name,
                quotas,
                m,
            )[k] == pending(pods, name, quotas, n)[k],
    decreases n - m,
{
    if m < n {
        lemma_pending_prefix(pods, name, quotas, m, n - 1);
    }
}

/// Every entry of the list is the name of a pod that does not keep its value.
pub(crate) proof fn lemma_pending_source(
    pods: Seq<PodView>,
    name: Seq<char>,
    quotas: Seq<Quota>,
    n: int,
    k: int,
) -> (i: int)
    requires
        0 <= n <= pods.len(),
        0 <= k < pending(pods, name, quotas, n).len(),
    ensures
        0 <= i < n,
        !keeps(pods, name, quotas, i),
        pending(pods, name, quotas, i).len() == k,
        pods[i].name->0 == pending(pods, name, quotas, n)[k],
    decreases n,
{
    let shorter = pending(pods, name, quotas, n - 1);
    if k < shorter.len() {
        lemma_pending_source(pods, name, quotas, n - 1, k)
    } else {
        n - 1
    }
}

pub(crate) proof fn lemma_pending_distinct(pods: Seq<PodView>, name: Seq<char>, quotas: Seq<Quota>)
    requires
        all_named(pods),
        distinct_names(pods),
    ensures
        pending(pods, name, quotas, pods.len() as int).no_duplicates(),
{
    let n = pods.len() as int;
    let names = pending(pods, name, quotas, n);
    assert forall|j: int, k: int| 0 <= j < names.len() && 0 <= k < names.len() && j != k implies names[j]
        != names[k] by {
        let a = lemma_pending_source(pods, name, quotas, n, j);
        let b = lemma_pending_source(pods, name, quotas, n, k);
        assert(pods[a].name is Some && pods[b].name is Some);
        if a < b {
            assert(pods[a].name != pods[b].name);
        } else {
            assert(pods[b].name != pods[a].name);
        }
    }
}

proof fn lemma_value_for_absent(assignments: Seq<AssignmentView>, pod_name: Seq<char>)
    requires
        forall|k: int|
            0 <= k < assignments.len() ==> #[trigger] assignments[k].pod_name != pod_name,
    ensures
        value_for(assignments, pod_name) is None,
    decreases assignments.len(),
{
    if assignments.len() > 0 {
        let front = assignments.drop_last();
        assert(assignments[assignments.len() - 1].pod_name != pod_name);
        assert forall|k: int| 0 <= k < front.len() implies #[trigger] front[k].pod_name
            != pod_name by {
            assert(assignments[k].pod_name != pod_name);
        }
        lemma_value_for_absent(front, pod_name);
    }
}

proof fn lemma_value_for_present(assignments: Seq<AssignmentView>, k: int)
    requires
        0 <= k < assignments.len(),
        forall|i: int, j: int|
            0 <= i < j < assignments.len() ==> #[trigger] assignments[i].pod_name
                != #[trigger] assignments[j].pod_name,
    ensures
        value_for(assignments, assignments[k].pod_name) == Some(assignments[k].label_value),
    decreases assignments.len(),
{
    if k < assignments.len() - 1 {
        let front = assignments.drop_last();
        assert(assignments[k].pod_name != assignments[assignments.len() - 1].pod_name);
        assert(front[k] == assignments[k]);
        assert forall|i: int, j: int| 0 <= i < j < front.len() implies #[trigger] front[i].pod_name
            != #[trigger] front[j].pod_name by {
            assert(assignments[i].pod_name != assignments[j].pod_name);
        }
        lemma_value_for_present(front, k);
    }
}

/// A pod that keeps its value is not touched; any other gets the value at its place.
proof fn lemma_patched(
    pods: Seq<PodView>,
    name: Seq<char>,
    quotas: Seq<Quota>,
    assignments: Seq<AssignmentView>,
    i: int,
)
    requires
        distinct_labels(quotas),
        distinct_names(pods),
        resolution(pods, name, quotas) == Ok::<_, ResolveError>(assignments),
        0 <= i < pods.len(),
    ensures
        keeps(pods, name, quotas, i) ==> patched(pods[i], name, assignments) == pods[i],
        !keeps(pods, name, quotas, i) ==> {
            let place = pending(pods, name, quotas, i).len() as int;
            let values = expanded(vacant(pods, name, quotas, pods.len() as int));
            &&& place < values.len()
            &&& values.len() == pending(pods, name, quotas, pods.len() as int).len()
            &&& patched(pods[i], name, assignments).label(name) == Some(values[place])
        },
{
    let n = pods.len() as int;
    let names = pending(pods, name, quotas, n);
    let values = expanded(vacant(pods, name, quotas, n));
    lemma_vacant_total(pods, name, quotas, n);
    lemma_expanded_len(vacant(pods, name, quotas, n));
    let pod_name = pods[i].name->0;
    assert(pods[i].name is Some);
    if keeps(pods, name, quotas, i) {
        assert forall|k: int| 0 <= k < assignments.len() implies #[trigger] assignments[k].pod_name
            != pod_name by {
            let j = lemma_pending_source(pods, name, quotas, n, k);
            assert(pods[j].name is Some);
            if j < i {
                assert(pods[j].name != pods[i].name);
            } else {
                assert(pods[i].name != pods[j].name);
            }
        }
        lemma_value_for_absent(assignments, pod_name);
    } else {
        let place = pending(pods, name, quotas, i).len() as int;
        lemma_pending_prefix(pods, name, quotas, i + 1, n);
        assert(pending(pods, name, quotas, i + 1)[place] == pod_name);
        assert(assignments[place].pod_name == pod_name);
        lemma_value_for_present(assignments, place);
    }
}

spec fn smaller(a: nat, b: nat) -> nat {
    if a < b {
        a
    } else {
        b
    }
}

/// Among the first `m` pods a value is carried by those that kept it and by those it was given to.
proof fn lemma_holders_relabeled(
    pods: Seq<PodView>,
    name: Seq<char>,
    quotas: Seq<Quota>,
    assignments: Seq<AssignmentView>,
    label: Seq<char>,
    m: int,
)
    requires
        distinct_labels(quotas),
        distinct_names(pods),
        resolution(pods, name, quotas) == Ok::<_, ResolveError>(assignments),
        0 <= m <= pods.len(),
    ensures
        pending(pods, name, quotas, m).len() <= expanded(
            vacant(pods, name, quotas, pods.len() as int),
        ).len(),
        holders(relabeled(pods, name, assignments), name, label, m) == smaller(
            holders(pods, name, label, m),
            count_of(quotas, label),
        ) + occurrences(
            expanded(vacant(pods, name, quotas, pods.len() as int)).take(
                pending(pods, name, quotas, m).len() as int,
            ),
            label,
        ),
    decreases m,
{
    let n = pods.len() as int;
    let values = expanded(vacant(pods, name, quotas, n));
    lemma_vacant_total(pods, name, quotas, n);
    lemma_expanded_len(vacant(pods, name, quotas, n));
    lemma_pending_prefix(pods, name, quotas, m, n);
    if m > 0 {
        lemma_holders_relabeled(pods, name, quotas, assignments, label, m - 1);
        lemma_patched(pods, name, quotas, assignments, m - 1);
        let place = pending(pods, name, quotas, m - 1).len() as int;
        if !keeps(pods, name, quotas, m - 1) {
            assert(values.take(place + 1).drop_last() =~= values.take(place));
            assert(values.take(place + 1).last() == values[place]);
        }
    }
}

proof fn lemma_vacant_count(
    pods: Seq<PodView>,
    name: Seq<char>,
    quotas: Seq<Quota>,
    label: Seq<char>,
    n: int,
)
    requires
        distinct_labels(quotas),
    ensures
        distinct_labels(vacant(pods, name, quotas, n)),
        count_of(vacant(pods, name, quotas, n), label) == vacancies(
            count_of(quotas, label),
            holders(pods, name, label, n),
        ),
{
    let left = vacant(pods, name, quotas, n);
    assert(distinct_labels(left)) by {
        assert forall|i: int, j: int| 0 <= i < j < left.len() implies #[trigger] left[i].label
            != #[trigger] left[j].label by {
            assert(quotas[i].label != quotas[j].label);
        }
    }
    if has_label(quotas, label) {
        let e = choose|e: int| 0 <= e < quotas.len() && #[trigger] quotas[e].label == label;
        lemma_count_of(quotas, e);
        lemma_count_of(left, e);
        assert(left[e].label == label);
    } else {
        lemma_count_of_absent(quotas, label);
        assert(!has_label(left, label)) by {
            assert forall|e: int| 0 <= e < left.len() implies #[trigger] left[e].label != label by {
                assert(quotas[e].label != label);
            }
        }
        lemma_count_of_absent(left, label);
    }
}

proof fn lemma_holders_monotonic(
    pods: Seq<PodView>,
    name: Seq<char>,
    label: Seq<char>,
    m: int,
    n: int,
)
    requires
        0 <= m <= n,
    ensures
        holders(pods, name, label, m) <= holders(pods, name, label, n),
    decreases n - m,
{
    if m < n {
        lemma_holders_monotonic(pods, name, label, m, n - 1);
    }
}

/// Carrying out the assignments reaches the numbers: every value is then carried by exactly as
/// many pods as it was to have, and every pod carries one of the values.
pub proof fn law_numbers_are_reached(
    pods: Seq<PodView>,
    name: Seq<char>,
    quotas: Seq<Quota>,
    assignments: Seq<AssignmentView>,
)
    requires
        distinct_labels(quotas),
        distinct_names(pods),
        resolution(pods, name, quotas) == Ok::<_, ResolveError>(assignments),
    ensures
        forall|label: Seq<char>| #[trigger]
            holders(relabeled(pods, name, assignments), name, label, pods.len() as int) == count_of(
                quotas,
                label,
            ),
        forall|i: int|
            0 <= i < pods.len() ==> {
                let label = (#[trigger] relabeled(pods, name, assignments)[i]).label(name);
                label is Some && has_label(quotas, label->0)
            },
{
    let n = pods.len() as int;
    let values = expanded(vacant(pods, name, quotas, n));
    lemma_vacant_total(pods, name, quotas, n);
    lemma_expanded_len(vacant(pods, name, quotas, n));
    assert forall|label: Seq<char>| #[trigger]
        holders(relabeled(pods, name, assignments), name, label, n) == count_of(
            quotas,
            label,
        ) by {
        lemma_holders_relabeled(pods, name, quotas, assignments, label, n);
        assert(values.take(values.len() as int) =~= values);
        lemma_vacant_count(pods, name, quotas, label, n);
        lemma_occurrences_expanded(vacant(pods, name, quotas, n), label);
    }
    assert forall|i: int| 0 <= i < n implies {
        let label = (#[trigger] relabeled(pods, name, assignments)[i]).label(name);
        label is Some && has_label(quotas, label->0)
    } by {
        lemma_patched(pods, name, quotas, assignments, i);
        if keeps(pods, name, quotas, i) {
            let label = pods[i].label(name)->0;
            if !has_label(quotas, label) {
                lemma_count_of_absent(quotas, label);
            }
        } else {
            let place = pending(pods, name, quotas, i).len() as int;
            let left = vacant(pods, name, quotas, n);
            lemma_expanded_labels(left, place);
            let e = choose|e: int| 0 <= e < left.len() && #[trigger] left[e].label == values[place];
            assert(quotas[e].label == values[place]);
        }
    }
}

/// Once the assignments have been carried out there is nothing left to assign, as long as the
/// numbers stay the same.
pub proof fn law_labelling_is_stable(
    pods: Seq<PodView>,
    name: Seq<char>,
    quotas: Seq<Quota>,
    assignments: Seq<AssignmentView>,
)
    requires
        distinct_labels(quotas),
        distinct_names(pods),
        resolution(pods, name, quotas) == Ok::<_, ResolveError>(assignments),
    ensures
        resolution(relabeled(pods, name, assignments), name, quotas) == Ok::<_, ResolveError>(
            Seq::<AssignmentView>::empty(),
        ),
{
    let n = pods.len() as int;
    let after = relabeled(pods, name, assignments);
    law_numbers_are_reached(pods, name, quotas, assignments);
    assert forall|i: int| 0 <= i < n implies #[trigger] keeps(after, name, quotas, i) by {
        assert(after[i] == relabeled(pods, name, assignments)[i]);
        let label = after[i].label(name)->0;
        lemma_holders_monotonic(after, name, label, i + 1, n);
        assert(holders(after, name, label, n) == count_of(quotas, label));
    }
    assert(all_named(after)) by {
        assert forall|i: int| 0 <= i < n implies #[trigger] after[i].name is Some by {
            assert(pods[i].name is Some);
        }
    }
    lemma_nothing_pending(after, name, quotas, n);
    match resolution(after, name, quotas) {
        Ok(again) => {
            assert(again =~= Seq::<AssignmentView>::empty());
        },
        Err(_) => {},
    }
}

proof fn lemma_nothing_pending(pods: Seq<PodView>, name: Seq<char>, quotas: Seq<Quota>, n: int)
    requires
        0 <= n <= pods.len(),
        forall|i: int| 0 <= i < n ==> #[trigger] keeps(pods, name, quotas, i),
    ensures
        pending(pods, name, quotas, n).len() == 0,
    decreases n,
{
    if n > 0 {
        lemma_nothing_pending(pods, name, quotas, n - 1);
        assert(keeps(pods, name, quotas, n - 1));
    }
}

/// The assignments concern one label only, and only pods that do not keep their value: the names
/// and the other labels of all pods, and everything about a pod that keeps its value, stay as
/// they are.
pub proof fn law_everything_else_is_untouched(
    pods: Seq<PodView>,
    name: Seq<char>,
    quotas: Seq<Quota>,
    assignments: Seq<AssignmentView>,
)
    requires
        distinct_labels(quotas),
        distinct_names(pods),
        resolution(pods, name, quotas) == Ok::<_, ResolveError>(assignments),
    ensures
        forall|i: int|
            0 <= i < pods.len() ==> (#[trigger] relabeled(pods, name, assignments)[i]).name
                == pods[i].name,
        forall|i: int, other: Seq<char>|
            0 <= i < pods.len() && other != name ==> (#[trigger] relabeled(
                pods,
                name,
                assignments,
            )[i].label(other)) == pods[i].label(other),
        forall|i: int|
            0 <= i < pods.len() && keeps(pods, name, quotas, i) ==> #[trigger] relabeled(
                pods,
                name,
                assignments,
            )[i] == pods[i],
{
    assert forall|i: int| 0 <= i < pods.len() && keeps(pods, name, quotas, i) implies #[trigger]
        relabeled(pods, name, assignments)[i] == pods[i] by {
        lemma_patched(pods, name, quotas, assignments, i);
    }
}

/// Pods with names of their own can always be labelled when the numbers add up: the list of pods
/// to label and the list of values never differ in length.
pub proof fn law_distinct_names_resolve(pods: Seq<PodView>, name: Seq<char>, quotas: Seq<Quota>)
    requires
        distinct_labels(quotas),
        distinct_names(pods),
        all_named(pods),
    ensures
        resolution(pods, name, quotas) is Ok <==> total(quotas) == pods.len(),
{
    lemma_pending_distinct(pods, name, quotas);
}

} // verus!
