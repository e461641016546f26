//! How many pods each value of a label is to have.

use vstd::prelude::*;

verus! {

/// A label value and a number of pods.
#[derive(Debug, Clone)]
pub struct LabelCount {
    pub label: String,
    pub count: usize,
}

/// What a [`LabelCount`] stands for.
pub struct Quota {
    pub label: Seq<char>,
    pub count: nat,
}

/// Numbers of pods by label value. No value occurs twice; the values keep the order in which
/// they were first inserted.
#[derive(Debug)]
pub struct LabelCounts {
    entries: Vec<LabelCount>,
}

/// No two entries have the same label.
pub open spec fn distinct_labels(quotas: Seq<Quota>) -> bool {
    forall|i: int, j: int|
        0 <= i < j < quotas.len() ==> #[trigger] quotas[i].label != #[trigger] quotas[j].label
}

/// The number that `quotas` has for `label`: 0 where it has no such entry.
pub open spec fn count_of(quotas: Seq<Quota>, label: Seq<char>) -> nat
    decreases quotas.len(),
{
    if quotas.len() == 0 {
        0
    } else if quotas.last().label == label {
        quotas.last().count
    } else {
        count_of(quotas.drop_last(), label)
    }
}

/// Whether `quotas` has an entry for `label`.
pub open spec fn has_label(quotas: Seq<Quota>, label: Seq<char>) -> bool {
    exists|i: int| 0 <= i < quotas.len() && #[trigger] quotas[i].label == label
}

/// The sum of all the numbers.
pub open spec fn total(quotas: Seq<Quota>) -> nat
    decreases quotas.len(),
{
    if quotas.len() == 0 {
        0
    } else {
        total(quotas.drop_last()) + quotas.last().count
    }
}

/// `quotas` with `count` as the number for `label`: in the place of the entry for that label,
/// or in a new last entry where there is none.
pub open spec fn inserted(quotas: Seq<Quota>, label: Seq<char>, count: nat) -> Seq<Quota> {
    if has_label(quotas, label) {
        with_count(quotas, label, count)
    } else {
        quotas.push(Quota { label, count })
    }
}

/// `quotas` with the number of the entry for `label`, if any, replaced by `count`.
pub open spec fn with_count(quotas: Seq<Quota>, label: Seq<char>, count: nat) -> Seq<Quota> {
    Seq::new(
        quotas.len(),
        |i: int|
            if quotas[i].label == label {
                Quota { label, count }
            } else {
                quotas[i]
            },
    )
}

pub(crate) proof fn lemma_count_of(quotas: Seq<Quota>, i: int)
    requires
        distinct_labels(quotas),
        0 <= i < quotas.len(),
    ensures
        count_of(quotas, quotas[i].label) == quotas[i].count,
    decreases quotas.len(),
{
    if i < quotas.len() - 1 {
        assert(quotas.drop_last()[i] == quotas[i]);
        lemma_count_of(quotas.drop_last(), i);
    }
}

pub(crate) proof fn lemma_count_of_absent(quotas: Seq<Quota>, label: Seq<char>)
    requires
        !has_label(quotas, label),
    ensures
        count_of(quotas, label) == 0,
    decreases quotas.len(),
{
    if quotas.len() > 0 {
        assert(quotas[quotas.len() - 1].label != label);
        assert forall|i: int| 0 <= i < quotas.drop_last().len() implies #[trigger]
            quotas.drop_last()[i].label != label by {
            assert(quotas[i].label != label);
        }
        lemma_count_of_absent(quotas.drop_last(), label);
    }
}

/// Replacing one number changes the sum by the difference.
pub(crate) proof fn lemma_total_update(quotas: Seq<Quota>, i: int, quota: Quota)
    requires
        0 <= i < quotas.len(),
    ensures
        total(quotas.update(i, quota)) == total(quotas) - quotas[i].count + quota.count,
    decreases quotas.len(),
{
    let changed = quotas.update(i, quota);
    if i < quotas.len() - 1 {
        lemma_total_update(quotas.drop_last(), i, quota);
        assert(changed.drop_last() =~= quotas.drop_last().update(i, quota));
    } else {
        assert(changed.drop_last() =~= quotas.drop_last());
    }
}

impl View for LabelCounts {
    type V = Seq<Quota>;

    closed spec fn view(&self) -> Seq<Quota> {
        Seq::new(
            self.entries@.len(),
            |i: int| Quota { label: self.entries@[i].label@, count: self.entries@[i].count as nat },
        )
    }
}

impl LabelCounts {
    /// No label occurs twice.
    pub open spec fn wf(&self) -> bool {
        distinct_labels(self@)
    }

    /// No labels.
    pub fn new() -> (counts: LabelCounts)
        ensures
            counts.wf(),
            counts@ == Seq::<Quota>::empty(),
    {
        let counts = LabelCounts { entries: Vec::new() };
        assert(counts@ =~= Seq::<Quota>::empty());
        counts
    }

    /// The number of labels.
    pub fn len(&self) -> (len: usize)
        ensures
            len == self@.len(),
    {
        self.entries.len()
    }

    /// The label at position `i`.
    pub fn label(&self, i: usize) -> (label: &String)
        requires
            i < self@.len(),
        ensures
            label@ == self@[i as int].label,
    {
        &self.entries[i].label
    }

    /// The number of pods of the label at position `i`.
    pub fn count(&self, i: usize) -> (count: usize)
        requires
            i < self@.len(),
        ensures
            count == self@[i as int].count,
    {
        self.entries[i].count
    }

    /// Where `label` stands, if it is there.
    pub fn position(&self, label: &String) -> (at: Option<usize>)
        ensures
            match at {
                Some(i) => i < self@.len() && self@[i as int].label == label@,
                None => !has_label(self@, label@),
            },
    {
        let mut i: usize = 0;
        while i < self.entries.len()
            invariant
                i <= self.entries@.len(),
                forall|j: int| 0 <= j < i ==> #[trigger] self@[j].label != label@,
            decreases self.entries@.len() - i,
        {
            if self.entries[i].label == *label {
                return Some(i);
            }
            i = i + 1;
        }
        None
    }

    /// Replaces the number of the label at position `i`.
    pub fn set_count(&mut self, i: usize, count: usize)
        requires
            i < old(self)@.len(),
        ensures
            final(self)@ == old(self)@.update(
                i as int,
                Quota { label: old(self)@[i as int].label, count: count as nat },
            ),
    {
        let label = self.entries[i].label.clone();
        self.entries.set(i, LabelCount { label, count });
        assert(self@ =~= old(self)@.update(
            i as int,
            Quota { label: old(self)@[i as int].label, count: count as nat },
        ));
    }

    /// Sets the number of `label`, which becomes the last label if it is not there yet.
    pub fn insert(&mut self, label: String, count: usize)
        requires
            old(self).wf(),
        ensures
            final(self).wf(),
            final(self)@ == inserted(old(self)@, label@, count as nat),
    {
        match self.position(&label) {
            Some(i) => {
                self.set_count(i, count);
                assert(self@ =~= with_count(old(self)@, label@, count as nat));
            },
            None => {
                self.entries.push(LabelCount { label, count });
                assert(self@ =~= old(self)@.push(Quota { label: label@, count: count as nat }));
            },
        }
    }

    /// The sum of all the numbers.
    pub fn total(&self) -> (sum: u128)
        ensures
            sum == total(self@),
    {
        let mut sum: u128 = 0;
        let mut i: usize = 0;
        while i < self.entries.len()
            invariant
                i <= self.entries@.len(),
                sum == total(self@.take(i as int)),
                sum <= i * (usize::MAX as nat),
            decreases self.entries@.len() - i,
        {
            assert(self@.take(i + 1).drop_last() =~= self@.take(i as int));
            assert((i + 1) * (usize::MAX as nat) == i * (usize::MAX as nat) + usize::MAX as nat)
                by (nonlinear_arith);
            assert((i + 1) * (usize::MAX as nat) <= u128::MAX) by (nonlinear_arith)
                requires
                    i + 1 <= usize::MAX,
            ;
            sum = sum + self.entries[i].count as u128;
            i = i + 1;
        }
        assert(self@.take(i as int) =~= self@);
        sum
    }
}

/// After an insertion the label has the number, every other label has what it had, no label is lost,
/// and none is there twice if none was.
pub proof fn law_insertion_sets_one_number(quotas: Seq<Quota>, label: Seq<char>, count: nat)
    requires
        distinct_labels(quotas),
    ensures
        ({
            let after = inserted(quotas, label, count);
            &&& after.contains(Quota { label, count })
            &&& forall|quota: Quota|
                quota.label != label ==> (#[trigger] after.contains(quota) <==> quotas.contains(
                    quota,
                ))
            &&& forall|i: int, j: int|
                0 <= i < j < after.len() ==> (#[trigger] after[i]).label != (#[trigger] after[j]).label
        }),
{
    let after = inserted(quotas, label, count);
    if has_label(quotas, label) {
        let e = choose|e: int| 0 <= e < quotas.len() && #[trigger] quotas[e].label == label;
        assert(after[e] == (Quota { label, count }));
    } else {
        assert(after[quotas.len() as int] == (Quota { label, count }));
    }
    assert forall|quota: Quota| quota.label != label implies (#[trigger] after.contains(quota)
        <==> quotas.contains(quota)) by {
        if quotas.contains(quota) {
            let e = choose|e: int| 0 <= e < quotas.len() && quotas[e] == quota;
            assert(after[e] == quota);
        }
        if after.contains(quota) {
            let e = choose|e: int| 0 <= e < after.len() && after[e] == quota;
            assert(quotas[e] == quota);
        }
    }
    assert forall|i: int, j: int| 0 <= i < j < after.len() implies (#[trigger] after[i]).label != (
    #[trigger] after[j]).label by {
        if j < quotas.len() {
            assert(quotas[i].label != quotas[j].label);
        } else {
            assert(quotas[i].label != label);
        }
    }
}

} // verus!
