//! Pods, as far as labelling reads them.

use vstd::prelude::*;

verus! {

/// One entry of a pod's `metadata.labels`.
#[derive(Debug, Clone)]
pub struct PodLabel {
    pub name: String,
    pub value: String,
}

/// The name and the labels of a pod.
///
/// A pod that the API server returned without `metadata.labels` has no entries; where a name
/// occurs twice the later entry counts, as in a map that the entries are inserted into.
#[derive(Debug, Clone)]
pub struct Pod {
    pub name: Option<String>,
    pub labels: Vec<PodLabel>,
}

/// What a [`Pod`] stands for.
pub struct PodView {
    pub name: Option<Seq<char>>,
    pub labels: Map<Seq<char>, Seq<char>>,
}

/// The map that holds the entries of `labels`.
pub open spec fn label_map(labels: Seq<PodLabel>) -> Map<Seq<char>, Seq<char>>
    decreases labels.len(),
{
    if labels.len() == 0 {
        Map::empty()
    } else {
        label_map(labels.drop_last()).insert(labels.last().name@, labels.last().value@)
    }
}

impl View for Pod {
    type V = PodView;

    open spec fn view(&self) -> PodView {
        PodView {
            name: match self.name {
                Some(name) => Some(name@),
                None => None,
            },
            labels: label_map(self.labels@),
        }
    }
}

/// The pods of a list, in its order.
pub open spec fn pod_views(pods: Seq<Pod>) -> Seq<PodView> {
    Seq::new(pods.len(), |i: int| pods[i]@)
}

impl PodView {
    /// The value of the label `name`, if the pod has that label.
    pub open spec fn label(self, name: Seq<char>) -> Option<Seq<char>> {
        if self.labels.contains_key(name) {
            Some(self.labels[name])
        } else {
            None
        }
    }
}

impl Pod {
    /// The value of the label `name`, if the pod has that label.
    pub fn label(&self, name: &String) -> (value: Option<&String>)
        ensures
            match value {
                Some(value) => self@.label(name@) == Some(value@),
                None => self@.label(name@) is None,
            },
    {
        let mut i: usize = self.labels.len();
        assert(self.labels@.take(i as int) =~= self.labels@);
        while i > 0
            invariant
                i <= self.labels@.len(),
                label_map(self.labels@).contains_key(name@) == label_map(
                    self.labels@.take(i as int),
                ).contains_key(name@),
                label_map(self.labels@)[name@] == label_map(self.labels@.take(i as int))[name@],
            decreases i,
        {
            i = i - 1;
            assert(self.labels@.take(i + 1).drop_last() =~= self.labels@.take(i as int));
            assert(self.labels@.take(i + 1).last() == self.labels@[i as int]);
            if self.labels[i].name == *name {
                return Some(&self.labels[i].value);
            }
        }
        None
    }
}

/// A pod has a label exactly if one of its entries has that name, and the value is that of the last
/// such entry.
pub proof fn law_last_entry_is_the_label(pod: Pod, name: Seq<char>)
    ensures
        forall|i: int|
            0 <= i < pod.labels@.len() && (#[trigger] pod.labels@[i]).name@ == name && (forall|j: int|
                i < j < pod.labels@.len() ==> (#[trigger] pod.labels@[j]).name@ != name)
                ==> pod@.label(name) == Some(pod.labels@[i].value@),
        (forall|j: int|
            0 <= j < pod.labels@.len() ==> (#[trigger] pod.labels@[j]).name@ != name)
            ==> pod@.label(name) is None,
{
    if forall|j: int| 0 <= j < pod.labels@.len() ==> (#[trigger] pod.labels@[j]).name@ != name {
        lemma_no_entry(pod.labels@, name);
    }
    assert forall|i: int|
        0 <= i < pod.labels@.len() && (#[trigger] pod.labels@[i]).name@ == name && (forall|j: int|
            i < j < pod.labels@.len() ==> (#[trigger] pod.labels@[j]).name@
                != name) implies pod@.label(name) == Some(pod.labels@[i].value@) by {
        lemma_last_entry(pod.labels@, name, i);
    }
}

proof fn lemma_no_entry(labels: Seq<PodLabel>, name: Seq<char>)
    requires
        forall|j: int| 0 <= j < labels.len() ==> (#[trigger] labels[j]).name@ != name,
    ensures
        !label_map(labels).contains_key(name),
    decreases labels.len(),
{
    if labels.len() > 0 {
        let front = labels.drop_last();
        assert forall|j: int| 0 <= j < front.len() implies (#[trigger] front[j]).name@ != name by {
            assert(labels[j].name@ != name);
        }
        lemma_no_entry(front, name);
        assert(labels[labels.len() - 1].name@ != name);
    }
}

proof fn lemma_last_entry(labels: Seq<PodLabel>, name: Seq<char>, i: int)
    requires
        0 <= i < labels.len(),
        labels[i].name@ == name,
        forall|j: int| i < j < labels.len() ==> (#[trigger] labels[j]).name@ != name,
    ensures
        label_map(labels).contains_key(name),
        label_map(labels)[name] == labels[i].value@,
    decreases labels.len(),
{
    if i < labels.len() - 1 {
        let front = labels.drop_last();
        assert forall|j: int| i < j < front.len() implies (#[trigger] front[j]).name@ != name by {
            assert(labels[j].name@ != name);
        }
        assert(front[i] == labels[i]);
        lemma_last_entry(front, name, i);
        assert(labels[labels.len() - 1].name@ != name);
    }
}

} // verus!
