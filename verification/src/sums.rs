//! When percentages make 100.

use crate::binary64::{
    hundred, lemma_nearest_representable, nearest, overflow_limit, rounded, sum_of, units_per_one,
    Binary64, SIGNIFICAND_LIMIT,
};
use crate::config::ValueShare;
use crate::distribution::lemma_adds_up_numbers;
use crate::labeler::{LabelErrorView, LabelingStepView, LabelingView, ListView, StageView};
use crate::quota::{adds_up, all_numbers, percentages_of};
use vstd::arithmetic::power2::pow2;
use vstd::prelude::*;

verus! {

/// Adding up from left to right is what a fold does.
pub(crate) proof fn lemma_fold(
    percentages: Seq<Binary64>,
    add_up: spec_fn(Binary64, Binary64) -> Binary64,
)
    requires
        forall|a: Binary64, b: Binary64| #[trigger] add_up(a, b) == a.plus(b),
    ensures
        percentages.fold_left(Binary64::Finite(0), add_up) == sum_of(
            percentages,
            percentages.len() as int,
        ),
    decreases percentages.len(),
{
    if percentages.len() > 0 {
        let front = percentages.drop_last();
        lemma_fold(front, add_up);
        lemma_sum_of_front(percentages, front, front.len() as int);
    }
}

proof fn lemma_sum_of_front(percentages: Seq<Binary64>, front: Seq<Binary64>, n: int)
    requires
        front == percentages.drop_last(),
        percentages.len() > 0,
        0 <= n <= front.len(),
    ensures
        sum_of(front, n) == sum_of(percentages, n),
    decreases n,
{
    if n > 0 {
        lemma_sum_of_front(percentages, front, n - 1);
    }
}

/// The sum of percentages is what comes of adding them to zero one after the other, and 100 is a
/// hundred times one.
pub proof fn law_sum_runs_from_left_to_right(percentages: Seq<Binary64>)
    ensures
        sum_of(percentages, percentages.len() as int) == percentages.fold_left(
            Binary64::Finite(0),
            |sum: Binary64, percentage: Binary64| sum.plus(percentage),
        ),
        hundred() == Binary64::Finite((100 * pow2(1074)) as int),
{
    lemma_fold(percentages, |sum: Binary64, percentage: Binary64| sum.plus(percentage));
}

/// A label begins with a request for the pods of the namespace with the `app` label of the
/// application exactly if its percentages, added to zero one after the other as double-precision
/// numbers, make 100; otherwise it fails with that error at once.
pub proof fn law_label_begins_if_percentages_make_hundred(
    namespace: Seq<char>,
    app: Seq<char>,
    label_name: Seq<char>,
    distribution: Seq<ValueShare>,
)
    ensures
        ({
            let percentages = Seq::new(distribution.len(), |i: int| distribution[i].percentage);
            let sum = percentages.fold_left(
                Binary64::Finite(0),
                |sum: Binary64, percentage: Binary64| sum.plus(percentage),
            );
            let step = LabelingView::begin(namespace, app, label_name, distribution);
            if sum == Binary64::Finite((100 * units_per_one()) as int) {
                step == LabelingStepView::List(
                    LabelingView {
                        namespace,
                        app,
                        label_name,
                        distribution,
                        stage: StageView::Listing,
                    },
                    ListView { namespace, selector: "app="@ + app },
                )
            } else {
                step == LabelingStepView::Done(Err(LabelErrorView::PercentageSum))
            }
        }),
{
    let percentages = Seq::new(distribution.len(), |i: int| distribution[i].percentage);
    assert(percentages =~= percentages_of(distribution));
    lemma_fold(
        percentages,
        |sum: Binary64, percentage: Binary64| sum.plus(percentage),
    );
}

/// The exact sum of the first `n` percentages, in units.
pub open spec fn exact_sum(distribution: Seq<ValueShare>, n: int) -> int
    decreases n,
{
    if n <= 0 {
        0
    } else {
        exact_sum(distribution, n - 1) + distribution[n - 1].percentage->Finite_0
    }
}

/// Whether a count of units, or its negative, is a significand of 53 bits times a power of two, and
/// not too large.
pub open spec fn representable(units: int) -> bool {
    let magnitude = if units < 0 {
        -units
    } else {
        units
    };
    magnitude < overflow_limit() && exists|significand: nat, exponent: nat|
        significand < SIGNIFICAND_LIMIT && magnitude == #[trigger] (significand * pow2(exponent))
}

proof fn lemma_rounded_exact(units: int)
    requires
        representable(units),
    ensures
        rounded(units, 1) == Binary64::Finite(units),
{
    let magnitude = if units < 0 {
        -units
    } else {
        units
    };
    let (significand, exponent) = choose|significand: nat, exponent: nat|
        significand < SIGNIFICAND_LIMIT && magnitude == #[trigger] (significand * pow2(exponent));
    lemma_nearest_representable(significand, exponent);
    assert(nearest(magnitude as nat, 1) == magnitude);
}

proof fn lemma_exact_sum(distribution: Seq<ValueShare>, n: int)
    requires
        0 <= n <= distribution.len(),
        forall|i: int|
            0 <= i < distribution.len() ==> (#[trigger] distribution[i]).percentage is Finite,
        forall|i: int| 0 < i <= distribution.len() ==> representable(
            #[trigger] exact_sum(distribution, i),
        ),
    ensures
        sum_of(percentages_of(distribution), n) == Binary64::Finite(exact_sum(distribution, n)),
    decreases n,
{
    if n > 0 {
        lemma_exact_sum(distribution, n - 1);
        assert(distribution[n - 1].percentage is Finite);
        lemma_rounded_exact(exact_sum(distribution, n));
    }
}

/// Finite percentages that add up without rounding are accepted exactly if their exact sum is 100.
pub proof fn law_exact_sums_decide(
    namespace: Seq<char>,
    app: Seq<char>,
    label_name: Seq<char>,
    distribution: Seq<ValueShare>,
)
    requires
        forall|i: int|
            0 <= i < distribution.len() ==> (#[trigger] distribution[i]).percentage is Finite,
        forall|i: int| 0 < i <= distribution.len() ==> representable(
            #[trigger] exact_sum(distribution, i),
        ),
    ensures
        adds_up(distribution) <==> exact_sum(distribution, distribution.len() as int) == 100
            * units_per_one(),
        LabelingView::begin(namespace, app, label_name, distribution) is List <==> exact_sum(
            distribution,
            distribution.len() as int,
        ) == 100 * units_per_one(),
{
    lemma_exact_sum(distribution, distribution.len() as int);
    assert(hundred() == Binary64::Finite((100 * units_per_one()) as int));
}

/// Every percentage but what is no number can be ranked, and percentages that make 100 hold no such.
pub proof fn law_numbers_can_be_ranked(distribution: Seq<ValueShare>)
    ensures
        all_numbers(distribution) <==> forall|i: int|
            0 <= i < distribution.len() ==> (#[trigger] distribution[i]).percentage is Finite
                || distribution[i].percentage is Infinite,
        adds_up(distribution) ==> all_numbers(distribution),
{
    if adds_up(distribution) {
        lemma_adds_up_numbers(distribution);
    }
}

} // verus!
