//! The configuration: which labels the pods of which applications are to carry.

use crate::binary64::{Binary64, Percentage};
use vstd::prelude::*;

verus! {

/// The `spec` of the configuration resource.
#[derive(Debug, Clone)]
pub struct KdynarollConfigSpec {
    pub pod_labeler: PodLabelerSpec,
}

/// The namespaces with applications to label.
#[derive(Debug, Clone)]
pub struct PodLabelerSpec {
    pub namespaces: Vec<PodLabelerNamespacesSpec>,
}

/// The applications to label in one namespace.
#[derive(Debug, Clone)]
pub struct PodLabelerNamespacesSpec {
    pub namespace: String,
    pub apps: Vec<PodLabelerAppSpec>,
}

/// The labels of one application, which is known by the `app` label of its pods.
#[derive(Debug, Clone)]
pub struct PodLabelerAppSpec {
    pub app: String,
    pub labels: Vec<PodLabelerLabelSpec>,
}

/// A label and the values that the pods are to carry it with.
#[derive(Debug, Clone)]
pub struct PodLabelerLabelSpec {
    pub label_name: String,
    pub label_value_distribution: Vec<PodLabelerValueDistributionSpec>,
}

/// A value of a label and the percentage of the pods that are to carry it.
#[derive(Debug)]
pub struct PodLabelerValueDistributionSpec {
    pub value: String,
    pub percentage: Percentage,
}

/// What a [`PodLabelerValueDistributionSpec`] stands for.
pub struct ValueShare {
    pub value: Seq<char>,
    pub percentage: Binary64,
}

impl View for PodLabelerValueDistributionSpec {
    type V = ValueShare;

    open spec fn view(&self) -> ValueShare {
        ValueShare { value: self.value@, percentage: self.percentage@ }
    }
}

impl Clone for PodLabelerValueDistributionSpec {
    fn clone(&self) -> (copy: PodLabelerValueDistributionSpec)
        ensures
            copy == *self,
    {
        PodLabelerValueDistributionSpec {
            value: self.value.clone(),
            percentage: self.percentage,
        }
    }
}

/// The values of a distribution, in its order.
pub open spec fn value_shares(distribution: Seq<PodLabelerValueDistributionSpec>) -> Seq<ValueShare> {
    Seq::new(distribution.len(), |i: int| distribution[i]@)
}

/// A distribution has the values that are configured, each with its percentage, in their order.
pub proof fn law_distribution_is_as_configured(
    distribution: Seq<PodLabelerValueDistributionSpec>,
)
    ensures
        value_shares(distribution).len() == distribution.len(),
        forall|i: int|
            0 <= i < distribution.len() ==> (#[trigger] value_shares(distribution)[i]).value
                == distribution[i].value@ && value_shares(distribution)[i].percentage
                == Binary64::from_bits(distribution[i].percentage.bits),
{
}

} // verus!
