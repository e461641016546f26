//! How the values of a distribution take pods in turn.

use crate::binary64::share_of;
use crate::config::ValueShare;
use crate::cycle::{lemma_numbers_distinct, lemma_taken_distinct};
use crate::labels::{count_of, lemma_count_of, with_count, Quota};
use crate::quota::{lemma_inserted, pods_per_label, shares, taken_at, taken_by, taken_counts};
use vstd::prelude::*;

verus! {

/// The sum of the numbers.
pub open spec fn sum(numbers: Seq<nat>) -> nat {
    numbers.fold_left(0nat, |sum: nat, number: nat| sum + number)
}

/// Whether `taken` are the pods that the values take, one after the other: each its share, as long
/// as those before it have not taken all of the `n` pods.
pub open spec fn in_turn(order: Seq<ValueShare>, n: nat, taken: Seq<nat>) -> bool {
    &&& taken.len() == order.len()
    &&& forall|i: int|
        0 <= i < taken.len() ==> #[trigger] taken[i] == if sum(taken.take(i)) >= n {
            0
        } else {
            share_of(n, order[i].percentage) as nat
        }
}

proof fn lemma_sum_push(numbers: Seq<nat>, i: int)
    requires
        0 <= i < numbers.len(),
    ensures
        sum(numbers.take(i + 1)) == sum(numbers.take(i)) + numbers[i],
{
    assert(numbers.take(i + 1).drop_last() =~= numbers.take(i));
    assert(numbers.take(i + 1).last() == numbers[i]);
}

/// What the values take in turn.
proof fn lemma_in_turn(order: Seq<ValueShare>, n: nat, taken: Seq<nat>)
    requires
        taken == Seq::new(order.len(), |i: int| taken_at(shares(order, n), n, i)),
    ensures
        in_turn(order, n, taken),
{
    assert forall|i: int| 0 <= i < taken.len() implies #[trigger] taken[i] == if sum(
        taken.take(i),
    ) >= n {
        0
    } else {
        share_of(n, order[i].percentage) as nat
    } by {
        lemma_taken_sums(order, n, taken, i);
    }
}

proof fn lemma_taken_sums(order: Seq<ValueShare>, n: nat, taken: Seq<nat>, i: int)
    requires
        taken == Seq::new(order.len(), |i: int| taken_at(shares(order, n), n, i)),
        0 <= i <= order.len(),
    ensures
        sum(taken.take(i)) == taken_by(shares(order, n), n, i),
    decreases i,
{
    if i > 0 {
        lemma_taken_sums(order, n, taken, i - 1);
        lemma_sum_push(taken, i - 1);
    }
}

/// Of the entries for a value, that of its last turn counts.
proof fn lemma_last_turn(parts: Seq<Quota>, n: nat, i: int, m: int)
    requires
        0 <= i < m <= parts.len(),
        forall|j: int| i < j < m ==> (#[trigger] parts[j]).label != parts[i].label,
    ensures
        taken_counts(parts, n, m).contains(
            Quota { label: parts[i].label, count: taken_at(parts, n, i) },
        ),
    decreases m,
{
    let before = taken_counts(parts, n, m - 1);
    let after = taken_counts(parts, n, m);
    let entry = Quota { label: parts[i].label, count: taken_at(parts, n, i) };
    if m == i + 1 {
        lemma_inserted(before, parts[i].label, taken_at(parts, n, i));
        let e = choose|e: int| 0 <= e < after.len() && #[trigger] after[e].label == parts[i].label;
        assert(after[e] == entry);
    } else {
        lemma_last_turn(parts, n, i, m - 1);
        let e = choose|e: int| 0 <= e < before.len() && before[e] == entry;
        assert(parts[m - 1].label != parts[i].label);
        assert(after[e] == entry);
    }
}

proof fn lemma_only_values(parts: Seq<Quota>, n: nat, m: int, e: int)
    requires
        0 <= m <= parts.len(),
        0 <= e < taken_counts(parts, n, m).len(),
    ensures
        exists|i: int|
            0 <= i < m && (#[trigger] parts[i]).label == taken_counts(parts, n, m)[e].label,
    decreases m,
{
    let before = taken_counts(parts, n, m - 1);
    let after = taken_counts(parts, n, m);
    if e < before.len() {
        lemma_only_values(parts, n, m - 1, e);
        let i = choose|i: int|
            0 <= i < m - 1 && (#[trigger] parts[i]).label == before[e].label;
        assert(after[e].label == before[e].label);
        assert(parts[i].label == after[e].label);
    } else {
        assert(parts[m - 1].label == after[e].label);
    }
}

/// The numbers of a distribution: the values take their shares of the pods in turn, each as long as
/// pods are left before it, and what is left in the end goes to the first value. A value that occurs
/// more than once has the number of its last turn. There are no numbers for anything else, and none
/// at all without pods or values.
pub proof fn law_values_take_pods_in_turn(order: Seq<ValueShare>, n: nat) -> (taken: Seq<nat>)
    ensures
        in_turn(order, n, taken),
        order.len() == 0 || n == 0 ==> pods_per_label(order, n).len() == 0,
        order.len() > 0 && n > 0 ==> {
            let numbers = pods_per_label(order, n);
            let left = if sum(taken) < n {
                (n - sum(taken)) as nat
            } else {
                0
            };
            &&& forall|i: int|
                0 <= i < order.len() && (forall|j: int|
                    i < j < order.len() ==> (#[trigger] order[j]).value != order[i].value)
                    ==> numbers.contains(
                    Quota {
                        label: (#[trigger] order[i]).value,
                        count: taken[i] + if order[i].value == order[0].value {
                            left
                        } else {
                            0
                        },
                    },
                )
            &&& forall|e: int|
                0 <= e < numbers.len() ==> exists|i: int|
                    0 <= i < order.len() && (#[trigger] order[i]).value == (
                    #[trigger] numbers[e]).label
            &&& forall|e: int, f: int|
                0 <= e < f < numbers.len() ==> (#[trigger] numbers[e]).label != (
                #[trigger] numbers[f]).label
        },
{
    let parts = shares(order, n);
    let len = order.len() as int;
    let taken = Seq::new(order.len(), |i: int| taken_at(parts, n, i));
    lemma_in_turn(order, n, taken);
    lemma_taken_sums(order, n, taken, len);
    assert(taken.take(len) =~= taken);
    lemma_numbers_distinct(order, n);
    if order.len() > 0 && n > 0 {
        let numbers = pods_per_label(order, n);
        let counts = taken_counts(parts, n, len);
        let all = taken_by(parts, n, len);
        let first = order[0].value;
        let left = if sum(taken) < n {
            (n - sum(taken)) as nat
        } else {
            0
        };
        lemma_taken_distinct(parts, n, len);
        assert forall|i: int|
            0 <= i < order.len() && (forall|j: int|
                i < j < order.len() ==> (#[trigger] order[j]).value
                    != order[i].value) implies numbers.contains(
            Quota {
                label: (#[trigger] order[i]).value,
                count: taken[i] + if order[i].value == first {
                    left
                } else {
                    0
                },
            },
        ) by {
            assert forall|j: int| i < j < len implies (#[trigger] parts[j]).label
                != parts[i].label by {
                assert(order[j].value != order[i].value);
            }
            lemma_last_turn(parts, n, i, len);
            let entry = Quota { label: parts[i].label, count: taken_at(parts, n, i) };
            let e = choose|e: int| 0 <= e < counts.len() && counts[e] == entry;
            lemma_count_of(counts, e);
            if all < n {
                assert(numbers[e] == with_count(
                    counts,
                    first,
                    (count_of(counts, first) + (n - all)) as nat,
                )[e]);
            } else {
                assert(numbers[e] == counts[e]);
            }
        }
        assert forall|e: int| 0 <= e < numbers.len() implies exists|i: int|
            0 <= i < order.len() && (#[trigger] order[i]).value == (
            #[trigger] numbers[e]).label by {
            lemma_only_values(parts, n, len, e);
            let i = choose|i: int| 0 <= i < len && (#[trigger] parts[i]).label == counts[e].label;
            assert(order[i].value == numbers[e].label);
        }
    }
    taken
}

} // verus!
