//! Which pods get a new label value, and which value each of them gets.

use crate::labels::{
    count_of, distinct_labels, has_label, lemma_count_of, lemma_count_of_absent,
    lemma_total_update, total, LabelCounts, Quota,
};
use crate::pod::{pod_views, Pod, PodView};
use vstd::prelude::*;

verus! {

/// A label value for a pod.
#[derive(Debug, Clone)]
pub struct PodAssignment {
    pub pod_name: String,
    pub label_value: String,
}

/// What a [`PodAssignment`] stands for.
pub struct AssignmentView {
    pub pod_name: Seq<char>,
    pub label_value: Seq<char>,
}

impl View for PodAssignment {
    type V = AssignmentView;

    open spec fn view(&self) -> AssignmentView {
        AssignmentView { pod_name: self.pod_name@, label_value: self.label_value@ }
    }
}

/// The assignments of a list, in its order.
pub open spec fn assignment_views(assignments: Seq<PodAssignment>) -> Seq<AssignmentView> {
    Seq::new(assignments.len(), |i: int| assignments[i]@)
}

/// Why no values could be chosen.
#[derive(Debug, Clone, Copy)]
pub enum ResolveError {
    /// The numbers of pods per label do not add up to the number of pods.
    LabelTotal { labels: u128, pods: usize },
    /// A pod has no name.
    UnnamedPod,
    /// More values are to be given out than there are names of pods to give them to.
    PendingTotal { labels: u128, pods: usize },
}

/// How many of the first `n` pods carry the label `name` with the value `label`.
pub open spec fn holders(
    pods: Seq<PodView>,
    name: Seq<char>,
    label: Seq<char>,
    n: int,
) -> nat
    decreases n,
{
    if n <= 0 {
        0
    } else {
        holders(pods, name, label, n - 1) + if pods[n - 1].label(name) == Some(label) {
            1nat
        } else {
            0nat
        }
    }
}

/// Whether pod `i` keeps the value that it carries: the first pods that carry a value keep it,
/// as many as `quotas` has for that value.
pub open spec fn keeps(pods: Seq<PodView>, name: Seq<char>, quotas: Seq<Quota>, i: int) -> bool {
    match pods[i].label(name) {
        Some(label) => holders(pods, name, label, i) < count_of(quotas, label),
        None => false,
    }
}

/// The names of those of the first `n` pods that do not keep their value, in order.
pub open spec fn pending(
    pods: Seq<PodView>,
    name: Seq<char>,
    quotas: Seq<Quota>,
    n: int,
) -> Seq<Seq<char>>
    decreases n,
{
    if n <= 0 {
        Seq::empty()
    } else if keeps(pods, name, quotas, n - 1) {
        pending(pods, name, quotas, n - 1)
    } else {
        pending(pods, name, quotas, n - 1).push(pods[n - 1].name->0)
    }
}

/// What is left of `quotas` when the first `n` pods have kept what they may keep.
pub open spec fn vacant(
    pods: Seq<PodView>,
    name: Seq<char>,
    quotas: Seq<Quota>,
    n: int,
) -> Seq<Quota> {
    Seq::new(
        quotas.len(),
        |e: int|
            Quota {
                label: quotas[e].label,
                count: vacancies(quotas[e].count, holders(pods, name, quotas[e].label, n)),
            },
    )
}

/// How many of `count` places `holders` holders leave free.
pub open spec fn vacancies(count: nat, holders: nat) -> nat {
    if holders < count {
        (count - holders) as nat
    } else {
        0
    }
}

/// `count` times `label`.
pub open spec fn repeated(label: Seq<char>, count: nat) -> Seq<Seq<char>> {
    Seq::new(count, |i: int| label)
}

/// The labels of `quotas` in order, each as often as its number says.
pub open spec fn expanded(quotas: Seq<Quota>) -> Seq<Seq<char>>
    decreases quotas.len(),
{
    if quotas.len() == 0 {
        Seq::empty()
    } else {
        expanded(quotas.drop_last()) + repeated(quotas.last().label, quotas.last().count)
    }
}

/// Whether all of the pods have names.
pub open spec fn all_named(pods: Seq<PodView>) -> bool {
    forall|i: int| 0 <= i < pods.len() ==> #[trigger] pods[i].name is Some
}

/// The assignments that bring `pods` to `quotas`, or why there are none.
///
/// The pods that do not keep their value get, in order, the values that are left over.
pub open spec fn resolution(
    pods: Seq<PodView>,
    name: Seq<char>,
    quotas: Seq<Quota>,
) -> Result<Seq<AssignmentView>, ResolveError> {
    let n = pods.len() as int;
    let names = pending(pods, name, quotas, n);
    let values = expanded(vacant(pods, name, quotas, n));
    if total(quotas) != pods.len() {
        Err(ResolveError::LabelTotal { labels: total(quotas) as u128, pods: pods.len() as usize })
    } else if !all_named(pods) {
        Err(ResolveError::UnnamedPod)
    } else if !names.no_duplicates() {
        Err(
            ResolveError::PendingTotal {
                labels: names.len() as u128,
                pods: names.to_set().len() as usize,
            },
        )
    } else {
        Ok(
            Seq::new(
                names.len(),
                |i: int| AssignmentView { pod_name: names[i], label_value: values[i] },
            ),
        )
    }
}

proof fn lemma_holders_bounds(pods: Seq<PodView>, name: Seq<char>, label: Seq<char>, n: int)
    requires
        0 <= n,
    ensures
        holders(pods, name, label, n) <= n,
    decreases n,
{
    if n > 0 {
        lemma_holders_bounds(pods, name, label, n - 1);
    }
}

/// Whoever keeps a value takes one of its vacancies; nobody else takes any.
proof fn lemma_vacant_step(pods: Seq<PodView>, name: Seq<char>, quotas: Seq<Quota>, n: int)
    requires
        distinct_labels(quotas),
        0 <= n < pods.len(),
    ensures
        keeps(pods, name, quotas, n) ==> total(vacant(pods, name, quotas, n)) == total(
            vacant(pods, name, quotas, n + 1),
        ) + 1,
        !keeps(pods, name, quotas, n) ==> vacant(pods, name, quotas, n + 1) == vacant(
            pods,
            name,
            quotas,
            n,
        ),
        forall|e: int|
            0 <= e < quotas.len() && pods[n].label(name) == Some(quotas[e].label) ==> {
                &&& keeps(pods, name, quotas, n) <==> #[trigger] vacant(
                    pods,
                    name,
                    quotas,
                    n,
                )[e].count > 0
                &&& keeps(pods, name, quotas, n) ==> vacant(pods, name, quotas, n + 1) == vacant(
                    pods,
                    name,
                    quotas,
                    n,
                ).update(
                    e,
                    Quota {
                        label: quotas[e].label,
                        count: (vacant(pods, name, quotas, n)[e].count - 1) as nat,
                    },
                )
            },
        (forall|e: int|
            0 <= e < quotas.len() ==> pods[n].label(name) != Some(#[trigger] quotas[e].label))
            ==> !keeps(pods, name, quotas, n),
{
    let before = vacant(pods, name, quotas, n);
    let after = vacant(pods, name, quotas, n + 1);
    match pods[n].label(name) {
        None => {
            assert(after =~= before);
        },
        Some(label) => {
            if has_label(quotas, label) {
                let e = choose|e: int| 0 <= e < quotas.len() && #[trigger] quotas[e].label == label;
                lemma_count_of(quotas, e);
                assert forall|f: int| 0 <= f < quotas.len() && quotas[f].label == label implies f
                    == e by {}
                if keeps(pods, name, quotas, n) {
                    let less = Quota { label: quotas[e].label, count: (before[e].count - 1) as nat };
                    assert(after =~= before.update(e, less));
                    lemma_total_update(before, e, less);
                } else {
                    assert(after =~= before);
                }
            } else {
                lemma_count_of_absent(quotas, label);
                assert(after =~= before) by {
                    assert forall|e: int| 0 <= e < quotas.len() implies quotas[e].label != label by {}
                }
            }
        },
    }
}

/// While `n` pods are walked, every pod either takes a vacancy or is put on the list.
pub(crate) proof fn lemma_vacant_total(pods: Seq<PodView>, name: Seq<char>, quotas: Seq<Quota>, n: int)
    requires
        distinct_labels(quotas),
        0 <= n <= pods.len(),
    ensures
        total(vacant(pods, name, quotas, n)) + n == total(quotas) + pending(
            pods,
            name,
            quotas,
            n,
        ).len(),
    decreases n,
{
    if n == 0 {
        assert(vacant(pods, name, quotas, 0) =~= quotas);
    } else {
        lemma_vacant_total(pods, name, quotas, n - 1);
        lemma_vacant_step(pods, name, quotas, n - 1);
    }
}

pub(crate) proof fn lemma_expanded_len(quotas: Seq<Quota>)
    ensures
        expanded(quotas).len() == total(quotas),
    decreases quotas.len(),
{
    if quotas.len() > 0 {
        lemma_expanded_len(quotas.drop_last());
    }
}

/// The texts of a list of strings, in its order.
spec fn texts(strings: Seq<String>) -> Seq<Seq<char>> {
    Seq::new(strings.len(), |i: int| strings[i]@)
}

fn contains(strings: &Vec<String>, text: &String) -> (found: bool)
    ensures
        found == texts(strings@).contains(text@),
{
    let mut i: usize = 0;
    while i < strings.len()
        invariant
            i <= strings@.len(),
            forall|j: int| 0 <= j < i ==> #[trigger] texts(strings@)[j] != text@,
        decreases strings@.len() - i,
    {
        if strings[i] == *text {
            assert(texts(strings@)[i as int] == text@);
            return true;
        }
        i = i + 1;
    }
    false
}

/// Takes one of the places that `label` has left, if there is one.
fn take_place(counts: &mut LabelCounts, label: &String) -> (taken: bool)
    requires
        old(counts).wf(),
    ensures
        final(counts).wf(),
        taken ==> exists|e: int|
            #![trigger old(counts)@[e]]
            0 <= e < old(counts)@.len() && old(counts)@[e].label == label@ && old(
                counts,
            )@[e].count > 0 && final(counts)@ == old(counts)@.update(
                e,
                Quota { label: label@, count: (old(counts)@[e].count - 1) as nat },
            ),
        !taken ==> final(counts)@ == old(counts)@ && forall|e: int|
            0 <= e < old(counts)@.len() && #[trigger] old(counts)@[e].label == label@ ==> old(
                counts,
            )@[e].count == 0,
{
    match counts.position(label) {
        Some(e) => {
            let count: usize = counts.count(e);
            if count > 0 {
                counts.set_count(e, count - 1);
                assert(old(counts)@[e as int].label == label@);
                true
            } else {
                false
            }
        },
        None => false,
    }
}

/// Chooses the pods that get a new value of the label `applied_label_name`, and the value for
/// each, so that every value ends up on as many pods as `pods_per_label` says.
///
/// # Errors
///
/// - [`ResolveError::LabelTotal`] if the numbers do not add up to the number of pods;
/// - otherwise [`ResolveError::UnnamedPod`] if a pod has no name;
/// - otherwise [`ResolveError::PendingTotal`] if two of the pods that need a value have the same
///   name.
pub fn resolve_pods_to_label(
    pods: &Vec<Pod>,
    pods_per_label: LabelCounts,
    applied_label_name: &str,
) -> (resolved: Result<Vec<PodAssignment>, ResolveError>)
    requires
        pods_per_label.wf(),
    ensures
        match resolved {
            Ok(assignments) => resolution(
                pod_views(pods@),
                applied_label_name@,
                pods_per_label@,
            ) == Ok::<_, ResolveError>(assignment_views(assignments@)),
            Err(error) => resolution(pod_views(pods@), applied_label_name@, pods_per_label@)
                == Err::<Seq<AssignmentView>, _>(error),
        },
{
    let ghost views = pod_views(pods@);
    let ghost label_name = applied_label_name@;
    let ghost quotas = pods_per_label@;

    let labels: u128 = pods_per_label.total();
    if labels != pods.len() as u128 {
        return Err(ResolveError::LabelTotal { labels, pods: pods.len() });
    }
    let name: String = applied_label_name.to_owned();
    let mut counts = pods_per_label;
    let mut names: Vec<String> = Vec::new();
    let mut i: usize = 0;
    assert(vacant(views, label_name, quotas, 0) =~= quotas);
    while i < pods.len()
        invariant
            i <= pods@.len(),
            views == pod_views(pods@),
            label_name == applied_label_name@,
            quotas == pods_per_label@,
            name@ == label_name,
            distinct_labels(quotas),
            total(quotas) == pods@.len(),
            counts.wf(),
            counts@ == vacant(views, label_name, quotas, i as int),
            forall|j: int| 0 <= j < i ==> #[trigger] views[j].name is Some,
            texts(names@).no_duplicates(),
            texts(names@).to_set() == pending(views, label_name, quotas, i as int).to_set(),
            names@.len() == pending(views, label_name, quotas, i as int).len() ==> texts(names@)
                == pending(views, label_name, quotas, i as int),
            names@.len() < pending(views, label_name, quotas, i as int).len() ==> !pending(
                views,
                label_name,
                quotas,
                i as int,
            ).no_duplicates(),
            names@.len() <= pending(views, label_name, quotas, i as int).len(),
        decreases pods@.len() - i,
    {
        let ghost before = pending(views, label_name, quotas, i as int);
        let ghost after = pending(views, label_name, quotas, i + 1);
        proof {
            lemma_vacant_step(views, label_name, quotas, i as int);
            assert(views[i as int] == pods@[i as int]@);
        }
        let pod = &pods[i];
        match &pod.name {
            None => {
                assert(views[i as int].name is None);
                return Err(ResolveError::UnnamedPod);
            },
            Some(pod_name) => {
                let keeps_label = match pod.label(&name) {
                    Some(label) => take_place(&mut counts, label),
                    None => false,
                };
                proof {
                    let left = vacant(views, label_name, quotas, i as int);
                    assert forall|e: int|
                        0 <= e < quotas.len() && views[i as int].label(label_name) == Some(
                            #[trigger] quotas[e].label,
                        ) implies keeps_label == (left[e].count > 0) by {
                        assert(left[e].label == quotas[e].label);
                    }
                    if keeps_label {
                        let e = choose|e: int|
                            #![trigger left[e]]
                            0 <= e < left.len() && views[i as int].label(label_name) == Some(
                                left[e].label,
                            ) && left[e].count > 0;
                        assert(left[e].label == quotas[e].label);
                    }
                }
                assert(keeps_label == keeps(views, label_name, quotas, i as int));
                assert(counts@ == vacant(views, label_name, quotas, i + 1));
                if !keeps_label {
                    assert(after == before.push(pod_name@));
                    if contains(&names, pod_name) {
                        proof {
                            lemma_pushed_twice(before, pod_name@);
                        }
                    } else {
                        let ghost old_names = texts(names@);
                        names.push(pod_name.clone());
                        proof {
                            assert(texts(names@) =~= old_names.push(pod_name@));
                            lemma_pushed_once(old_names, before, pod_name@);
                        }
                    }
                }
            },
        }
        i = i + 1;
    }

    let pending_labels: u128 = counts.total();
    let ghost all_pending = pending(views, label_name, quotas, i as int);
    proof {
        lemma_vacant_total(views, label_name, quotas, i as int);
        texts(names@).unique_seq_to_set();
    }
    if pending_labels != names.len() as u128 {
        return Err(ResolveError::PendingTotal { labels: pending_labels, pods: names.len() });
    }
    assert(all_pending == texts(names@));

    let mut assignments: Vec<PodAssignment> = Vec::new();
    let mut e: usize = 0;
    assert(assignment_values(assignments@) =~= expanded(counts@.take(0)));
    while e < counts.len()
        invariant
            e <= counts@.len(),
            total(counts@) == names@.len(),
            assignment_values(assignments@) == expanded(counts@.take(e as int)),
            assignments@.len() == total(counts@.take(e as int)),
            assignments@.len() <= names@.len(),
            forall|k: int|
                0 <= k < assignments@.len() ==> #[trigger] assignments@[k].pod_name@ == names@[k]@,
        decreases counts@.len() - e,
    {
        let ghost before = counts@.take(e as int);
        let ghost after = counts@.take(e + 1);
        proof {
            assert(after.drop_last() =~= before);
            lemma_total_take(counts@, e + 1);
        }
        let places: usize = counts.count(e);
        let mut given: usize = 0;
        assert(expanded(before) + repeated(after.last().label, 0) =~= expanded(before));
        while given < places
            invariant
                given <= places,
                e < counts@.len(),
                places == counts@[e as int].count,
                after == counts@.take(e + 1),
                before == counts@.take(e as int),
                total(after) == total(before) + places,
                total(after) <= names@.len(),
                assignments@.len() == total(before) + given,
                assignment_values(assignments@) == expanded(before) + repeated(
                    counts@[e as int].label,
                    given as nat,
                ),
                forall|k: int|
                    0 <= k < assignments@.len() ==> #[trigger] assignments@[k].pod_name@
                        == names@[k]@,
            decreases places - given,
        {
            let ghost earlier = assignment_values(assignments@);
            let k: usize = assignments.len();
            assignments.push(
                PodAssignment {
                    pod_name: names[k].clone(),
                    label_value: counts.label(e).clone(),
                },
            );
            given = given + 1;
            proof {
                assert(assignment_values(assignments@) =~= earlier.push(counts@[e as int].label));
                assert(repeated(counts@[e as int].label, given as nat) =~= repeated(
                    counts@[e as int].label,
                    (given - 1) as nat,
                ).push(counts@[e as int].label));
                assert(assignment_values(assignments@) =~= expanded(before) + repeated(
                    counts@[e as int].label,
                    given as nat,
                ));
            }
        }
        e = e + 1;
    }
    proof {
        assert(counts@.take(e as int) =~= counts@);
        let values = expanded(vacant(views, label_name, quotas, i as int));
        assert(assignment_views(assignments@) =~= Seq::new(
            all_pending.len(),
            |k: int| AssignmentView { pod_name: all_pending[k], label_value: values[k] },
        )) by {
            assert forall|k: int| 0 <= k < assignments@.len() implies #[trigger] assignment_views(
                assignments@,
            )[k] == (AssignmentView { pod_name: all_pending[k], label_value: values[k] }) by {
                assert(assignments@[k].pod_name@ == names@[k]@);
                assert(assignment_values(assignments@)[k] == values[k]);
            }
        }
    }
    Ok(assignments)
}

/// The values of a list of assignments, in its order.
spec fn assignment_values(assignments: Seq<PodAssignment>) -> Seq<Seq<char>> {
    Seq::new(assignments.len(), |i: int| assignments[i].label_value@)
}

proof fn lemma_total_take(quotas: Seq<Quota>, n: int)
    requires
        0 <= n <= quotas.len(),
    ensures
        total(quotas.take(n)) <= total(quotas),
    decreases quotas.len() - n,
{
    if n < quotas.len() {
        lemma_total_take(quotas, n + 1);
        assert(quotas.take(n + 1).drop_last() =~= quotas.take(n));
    } else {
        assert(quotas.take(n) =~= quotas);
    }
}

/// Pushing what is there already makes a duplicate and adds nothing to the set.
proof fn lemma_pushed_twice(list: Seq<Seq<char>>, item: Seq<char>)
    requires
        list.to_set().contains(item),
    ensures
        !list.push(item).no_duplicates(),
        list.push(item).to_set() == list.to_set(),
{
    let i = choose|i: int| 0 <= i < list.len() && list[i] == item;
    let longer = list.push(item);
    assert(longer[i] == longer[list.len() as int]);
    assert forall|x: Seq<char>| #[trigger] longer.to_set().contains(x) implies list.to_set().contains(
        x,
    ) by {
        let j = choose|j: int| 0 <= j < longer.len() && longer[j] == x;
        if j < list.len() {
            assert(list[j] == x);
        }
    }
    assert forall|x: Seq<char>| #[trigger] list.to_set().contains(x) implies longer.to_set().contains(
        x,
    ) by {
        let j = choose|j: int| 0 <= j < list.len() && list[j] == x;
        assert(longer[j] == x);
    }
    assert(longer.to_set() =~= list.to_set());
}

/// Pushing something new keeps a list without duplicates so, and keeps its set that of `other`.
proof fn lemma_pushed_once(list: Seq<Seq<char>>, other: Seq<Seq<char>>, item: Seq<char>)
    requires
        list.no_duplicates(),
        !list.contains(item),
        list.to_set() == other.to_set(),
    ensures
        list.push(item).no_duplicates(),
        list.push(item).to_set() == other.push(item).to_set(),
        !other.no_duplicates() ==> !other.push(item).no_duplicates(),
{
    lemma_push_to_set(list, item);
    lemma_push_to_set(other, item);
    if !other.no_duplicates() {
        let (i, j) = choose|i: int, j: int|
            0 <= i < other.len() && 0 <= j < other.len() && i != j && other[i] == other[j];
        assert(other.push(item)[i] == other.push(item)[j]);
    }
}

proof fn lemma_push_to_set(list: Seq<Seq<char>>, item: Seq<char>)
    ensures
        list.push(item).to_set() == list.to_set().insert(item),
{
    let longer = list.push(item);
    assert forall|x: Seq<char>| #[trigger] list.to_set().insert(item).contains(x) implies longer.to_set().contains(
        x,
    ) by {
        if x == item {
            assert(longer[list.len() as int] == x);
        } else {
            let j = choose|j: int| 0 <= j < list.len() && list[j] == x;
            assert(longer[j] == x);
        }
    }
    assert forall|x: Seq<char>| #[trigger] longer.to_set().contains(x) implies list.to_set().insert(
        item,
    ).contains(x) by {
        let j = choose|j: int| 0 <= j < longer.len() && longer[j] == x;
        if j < list.len() {
            assert(list[j] == x);
        }
    }
    assert(longer.to_set() =~= list.to_set().insert(item));
}

} // verus!
