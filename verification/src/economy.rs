//! No pod is given another value without need.

use crate::labels::{count_of, distinct_labels, has_label, lemma_count_of, total, Quota};
use crate::pod::PodView;
use crate::resolve::{
    holders, lemma_vacant_total, pending, resolution, vacant, AssignmentView, ResolveError,
};
use vstd::prelude::*;

verus! {

/// How many of the first `n` pods have the label `name` with another value, or only now or no
/// longer, in `after`.
pub open spec fn changed(
    pods: Seq<PodView>,
    after: Seq<PodView>,
    name: Seq<char>,
    n: int,
) -> nat
    decreases n,
{
    if n <= 0 {
        0
    } else {
        changed(pods, after, name, n - 1) + if pods[n - 1].label(name) != after[n - 1].label(name) {
            1nat
        } else {
            0nat
        }
    }
}

/// How many of the first `n` pods have the value `label` in `after` and had not before.
spec fn gained(
    pods: Seq<PodView>,
    after: Seq<PodView>,
    name: Seq<char>,
    label: Seq<char>,
    n: int,
) -> nat
    decreases n,
{
    if n <= 0 {
        0
    } else {
        gained(pods, after, name, label, n - 1) + if after[n - 1].label(name) == Some(label)
            && pods[n - 1].label(name) != Some(label) {
            1nat
        } else {
            0nat
        }
    }
}

/// How many of the first `n` pods have a value of `quotas` in `after` that they had not before.
spec fn gains(
    pods: Seq<PodView>,
    after: Seq<PodView>,
    name: Seq<char>,
    quotas: Seq<Quota>,
    n: int,
) -> nat
    decreases quotas.len(),
{
    if quotas.len() == 0 {
        0
    } else {
        gains(pods, after, name, quotas.drop_last(), n) + gained(
            pods,
            after,
            name,
            quotas.last().label,
            n,
        )
    }
}

proof fn lemma_gained(
    pods: Seq<PodView>,
    after: Seq<PodView>,
    name: Seq<char>,
    label: Seq<char>,
    n: int,
)
    requires
        n >= 0,
    ensures
        holders(after, name, label, n) <= holders(pods, name, label, n) + gained(
            pods,
            after,
            name,
            label,
            n,
        ),
    decreases n,
{
    if n > 0 {
        lemma_gained(pods, after, name, label, n - 1);
    }
}

/// One more pod gains one value at most.
proof fn lemma_gains_step(
    pods: Seq<PodView>,
    after: Seq<PodView>,
    name: Seq<char>,
    quotas: Seq<Quota>,
    n: int,
)
    requires
        distinct_labels(quotas),
        n > 0,
    ensures
        ({
            let before = gains(pods, after, name, quotas, n - 1);
            let label = after[n - 1].label(name);
            &&& gains(pods, after, name, quotas, n) <= before + 1
            &&& pods[n - 1].label(name) == label ==> gains(pods, after, name, quotas, n) == before
            &&& label is None || !has_label(quotas, label->0) ==> gains(
                pods,
                after,
                name,
                quotas,
                n,
            ) == before
        }),
    decreases quotas.len(),
{
    if quotas.len() > 0 {
        let front = quotas.drop_last();
        let last = quotas.last().label;
        let label = after[n - 1].label(name);
        assert forall|i: int, j: int| 0 <= i < j < front.len() implies #[trigger] front[i].label
            != #[trigger] front[j].label by {
            assert(quotas[i].label != quotas[j].label);
        }
        lemma_gains_step(pods, after, name, front, n);
        assert(quotas[quotas.len() - 1].label == last);
        if label is Some && has_label(front, label->0) {
            let e = choose|e: int| 0 <= e < front.len() && #[trigger] front[e].label == label->0;
            assert(quotas[e].label != quotas[quotas.len() - 1].label);
            assert(quotas[e].label == label->0);
        }
    }
}

proof fn lemma_gains(
    pods: Seq<PodView>,
    after: Seq<PodView>,
    name: Seq<char>,
    quotas: Seq<Quota>,
    n: int,
)
    requires
        distinct_labels(quotas),
        n >= 0,
    ensures
        gains(pods, after, name, quotas, n) <= changed(pods, after, name, n),
    decreases n,
{
    if n > 0 {
        lemma_gains(pods, after, name, quotas, n - 1);
        lemma_gains_step(pods, after, name, quotas, n);
    } else {
        lemma_no_gains(pods, after, name, quotas);
    }
}

proof fn lemma_no_gains(
    pods: Seq<PodView>,
    after: Seq<PodView>,
    name: Seq<char>,
    quotas: Seq<Quota>,
)
    ensures
        gains(pods, after, name, quotas, 0) == 0,
    decreases quotas.len(),
{
    if quotas.len() > 0 {
        lemma_no_gains(pods, after, name, quotas.drop_last());
    }
}

/// What is vacant has to be gained.
proof fn lemma_vacancies_gained(
    pods: Seq<PodView>,
    after: Seq<PodView>,
    name: Seq<char>,
    quotas: Seq<Quota>,
    n: int,
)
    requires
        n >= 0,
        forall|e: int|
            0 <= e < quotas.len() ==> holders(after, name, (#[trigger] quotas[e]).label, n)
                == quotas[e].count,
    ensures
        total(vacant(pods, name, quotas, n)) <= gains(pods, after, name, quotas, n),
    decreases quotas.len(),
{
    let left = vacant(pods, name, quotas, n);
    if quotas.len() > 0 {
        let front = quotas.drop_last();
        assert forall|e: int| 0 <= e < front.len() implies holders(
            after,
            name,
            (#[trigger] front[e]).label,
            n,
        ) == front[e].count by {
            assert(front[e] == quotas[e]);
        }
        lemma_vacancies_gained(pods, after, name, front, n);
        assert(left.drop_last() =~= vacant(pods, name, front, n));
        lemma_gained(pods, after, name, quotas.last().label, n);
        assert(quotas[quotas.len() - 1] == quotas.last());
    }
}

/// Pods keep their values where they can: there is no way to bring the pods to the numbers that
/// changes the label on fewer pods than the assignments do.
pub proof fn law_no_pod_is_relabelled_needlessly(
    pods: Seq<PodView>,
    name: Seq<char>,
    quotas: Seq<Quota>,
    assignments: Seq<AssignmentView>,
    after: Seq<PodView>,
)
    requires
        distinct_labels(quotas),
        resolution(pods, name, quotas) == Ok::<_, ResolveError>(assignments),
        after.len() == pods.len(),
        forall|label: Seq<char>| #[trigger]
            holders(after, name, label, pods.len() as int) == count_of(quotas, label),
    ensures
        assignments.len() <= changed(pods, after, name, pods.len() as int),
{
    let n = pods.len() as int;
    lemma_vacant_total(pods, name, quotas, n);
    assert(assignments.len() == pending(pods, name, quotas, n).len());
    assert forall|e: int| 0 <= e < quotas.len() implies holders(
        after,
        name,
        (#[trigger] quotas[e]).label,
        n,
    ) == quotas[e].count by {
        lemma_count_of(quotas, e);
    }
    lemma_vacancies_gained(pods, after, name, quotas, n);
    lemma_gains(pods, after, name, quotas, n);
}

} // verus!
