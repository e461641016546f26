//! Distributing label values over pods.

use kdynaroll::binary64::Percentage;
use kdynaroll::config::PodLabelerValueDistributionSpec;
use kdynaroll::labeler::{apply_labels_to_pods, LabelError};
use kdynaroll::labels::LabelCounts;
use kdynaroll::pod::{Pod, PodLabel};
use kdynaroll::quota::{calculate_pods_per_label, percentages_add_up, sort_by_percentage};
use kdynaroll::resolve::{resolve_pods_to_label, PodAssignment, ResolveError};
use std::collections::HashMap;

const KDYNAROLL_LABEL_NAME: &str = "kdynaroll_label";

fn share(value: &str, percentage: f64) -> PodLabelerValueDistributionSpec {
    PodLabelerValueDistributionSpec {
        value: value.to_string(),
        percentage: Percentage::from_bits(percentage.to_bits()),
    }
}

fn as_map(counts: &LabelCounts) -> HashMap<String, usize> {
    let mut map = HashMap::new();
    for i in 0..counts.len() {
        map.insert(counts.label(i).to_string(), counts.count(i));
    }
    map
}

fn counts(entries: &[(&str, usize)]) -> LabelCounts {
    let mut counts = LabelCounts::new();
    for (label, count) in entries {
        counts.insert(label.to_string(), *count);
    }
    counts
}

fn expected(entries: &[(&str, usize)]) -> HashMap<String, usize> {
    entries
        .iter()
        .map(|(label, count)| (label.to_string(), *count))
        .collect()
}

fn labels(entries: &[(&str, &str)]) -> Vec<PodLabel> {
    entries
        .iter()
        .map(|(name, value)| PodLabel {
            name: name.to_string(),
            value: value.to_string(),
        })
        .collect()
}

fn make_test_pods(count: u16, label_count: u16) -> Vec<Pod> {
    let mut pods = Vec::new();
    for i in 1..count + 1 {
        let mut labels = Vec::new();
        for j in 1..label_count + 1 {
            labels.push(PodLabel {
                name: format!("anylabel{}", j),
                value: "value".to_string(),
            });
        }
        pods.push(Pod {
            name: Some(format!("pod{}", i)),
            labels,
        });
    }
    pods
}

fn names(pods: &[Pod]) -> Vec<String> {
    pods.iter().map(|pod| pod.name.clone().unwrap()).collect()
}

fn verify_resolve_pods_label_all(
    pods: &Vec<Pod>,
    pods_per_label: &[(&str, usize)],
    expected_labeled_pods: Vec<String>,
    expected_labeled_pod_count: &[(&str, usize)],
) {
    let resolved_pods =
        resolve_pods_to_label(pods, counts(pods_per_label), KDYNAROLL_LABEL_NAME).unwrap();

    assert_eq!(resolved_pods.len(), expected_labeled_pods.len());

    for labeled_pod in &expected_labeled_pods {
        assert!(resolved_pods
            .iter()
            .any(|assignment| &assignment.pod_name == labeled_pod));
    }

    let mut actual_labeled_pod_count: HashMap<String, usize> = HashMap::new();
    for assignment in resolved_pods {
        *actual_labeled_pod_count
            .entry(assignment.label_value)
            .or_insert(0) += 1;
    }
    assert_eq!(
        actual_labeled_pod_count,
        expected(expected_labeled_pod_count)
    );
}

fn relabel(pods: &mut Vec<Pod>, name: &str, assignments: &[PodAssignment]) {
    for assignment in assignments {
        for pod in pods.iter_mut() {
            if pod.name.as_ref() == Some(&assignment.pod_name) {
                pod.labels.push(PodLabel {
                    name: name.to_string(),
                    value: assignment.label_value.clone(),
                });
            }
        }
    }
}

fn holders(pods: &[Pod], name: &str) -> HashMap<String, usize> {
    let mut map = HashMap::new();
    for pod in pods {
        if let Some(value) = pod.label(&name.to_string()) {
            *map.entry(value.clone()).or_insert(0) += 1;
        }
    }
    map
}

#[test]
fn test_distribute_pods() {
    let distr = vec![share("A", 97.0), share("B", 2.0), share("C", 1.0)];

    let pod_len = 5;
    let assignments = calculate_pods_per_label(&distr, pod_len);

    assert_eq!(
        as_map(&assignments),
        HashMap::from([
            ("A".to_string(), 5),
            ("B".to_string(), 0),
            ("C".to_string(), 0),
        ])
    );
}

#[test]
fn test_distribute_pods_empty_percentages() {
    let distr = vec![];
    let pod_len = 500;
    let assignments = calculate_pods_per_label(&distr, pod_len);

    assert!(as_map(&assignments).is_empty());
}

#[test]
fn test_distribute_pods_no_pods() {
    let distr = vec![share("onlyone", 100.0)];

    let pod_len = 0;
    let assignments = calculate_pods_per_label(&distr, pod_len);

    assert!(as_map(&assignments).is_empty());
}

#[test]
fn test_distributed_pods_even_split() {
    let distr = vec![share("A", 50.0), share("B", 50.0)];

    let pod_len = 10;
    let assignments = calculate_pods_per_label(&distr, pod_len);

    assert_eq!(
        as_map(&assignments),
        HashMap::from([("A".to_string(), 5), ("B".to_string(), 5)])
    );
}

#[test]
fn test_resolve_pods_no_labels_in_meta() {
    let pods = make_test_pods(2, 0);
    let pods_per_label = [("labelA", 1usize), ("labelB", 1)];

    verify_resolve_pods_label_all(&pods, &pods_per_label, names(&pods), &pods_per_label);
}

#[test]
fn test_resolve_pods_with_other_labels_in_meta() {
    let pods = make_test_pods(4, 3);
    let pods_per_label = [("label1", 3usize), ("label2", 1)];

    verify_resolve_pods_label_all(&pods, &pods_per_label, names(&pods), &pods_per_label);
}

#[test]
fn test_resolve_pods_some_already_labeled_all_labels_applied() {
    let mut pods = make_test_pods(5, 1);
    let pods_per_label = [("label1", 3usize), ("label2", 2)];

    pods[0].labels = labels(&[(KDYNAROLL_LABEL_NAME, "label1")]);
    pods[2].labels = labels(&[(KDYNAROLL_LABEL_NAME, "label2")]);

    let expected_labeled_pods = pods
        .iter()
        .filter(|pod| pod.label(&KDYNAROLL_LABEL_NAME.to_string()).is_none())
        .map(|pod| pod.name.clone().unwrap())
        .collect::<Vec<String>>();

    verify_resolve_pods_label_all(
        &pods,
        &pods_per_label,
        expected_labeled_pods,
        &[("label1", 2usize), ("label2", 1)],
    );
}

#[test]
fn test_resolve_pods_some_already_labeled_some_labels_applied() {
    const UNLABELED_POD_COUNT: usize = 5;
    let mut pods = make_test_pods(11, 1);
    let pods_per_label = [
        ("label1", UNLABELED_POD_COUNT),
        ("label2", 2),
        ("label3", 4),
    ];

    for idx in 0..UNLABELED_POD_COUNT {
        pods[idx].labels = labels(&[(KDYNAROLL_LABEL_NAME, "label1")]);
    }

    let expected_labeled_pods = names(&pods[UNLABELED_POD_COUNT..]);

    verify_resolve_pods_label_all(
        &pods,
        &pods_per_label,
        expected_labeled_pods,
        &[("label2", 2usize), ("label3", 4)],
    );
}

#[test]
fn test_resolve_pods_all_already_labeled_multiple_labels() {
    let mut pods = make_test_pods(8, 1);
    let pods_per_label = [("label1", 2), ("label2", 2), ("label3", 2), ("label4", 2)];

    for idx in 0..pods.len() {
        let label_value = format!("label{}", idx / 2 + 1);
        pods[idx].labels = labels(&[(KDYNAROLL_LABEL_NAME, label_value.as_str())]);
    }

    verify_resolve_pods_label_all(&pods, &pods_per_label, vec![], &[]);
}

#[test]
fn test_resolve_pods_some_already_labeled_new_label() {
    let mut pods = make_test_pods(6, 2);
    let pods_per_label = [("label1", 1), ("label2", 3), ("label3", 2)];

    pods[0].labels = labels(&[(KDYNAROLL_LABEL_NAME, "label1")]);
    pods[1].labels = labels(&[(KDYNAROLL_LABEL_NAME, "label2")]);

    let expected_labeled_pods = names(&pods[2..]);

    verify_resolve_pods_label_all(
        &pods,
        &pods_per_label,
        expected_labeled_pods,
        &[("label2", 2usize), ("label3", 2)],
    );
}

#[test]
fn test_resolve_pods_all_already_labeled_new_label() {
    let mut pods = make_test_pods(2, 1);
    let pods_per_label = [("label1", 1), ("label4", 1)];

    pods[0].labels = labels(&[(KDYNAROLL_LABEL_NAME, "label1")]);
    pods[1].labels = labels(&[(KDYNAROLL_LABEL_NAME, "label2")]);

    verify_resolve_pods_label_all(
        &pods,
        &pods_per_label,
        vec!["pod2".to_string()],
        &[("label4", 1)],
    );
}

#[test]
fn test_resolve_pods_some_already_labeled_remove_label() {
    let mut pods = make_test_pods(3, 1);
    let pods_per_label = [("label1", 1), ("label2", 1), ("label3", 1)];

    pods[0].labels = labels(&[(KDYNAROLL_LABEL_NAME, "label7")]);
    pods[1].labels = labels(&[(KDYNAROLL_LABEL_NAME, "label5")]);
    pods[2].labels = labels(&[(KDYNAROLL_LABEL_NAME, "label6")]);

    verify_resolve_pods_label_all(
        &pods,
        &pods_per_label,
        vec!["pod1".to_string(), "pod2".to_string(), "pod3".to_string()],
        &[("label1", 1usize), ("label2", 1), ("label3", 1)],
    );
}

#[test]
fn test_resolve_pods_more_than_needed_already_labeled() {
    let mut pods = make_test_pods(5, 1);
    let pods_per_label = [("label1", 2), ("label2", 1), ("label3", 2)];

    for idx in 0..pods.len() {
        let label_value = format!("label{}", idx / 3 + 1);
        pods[idx].labels = labels(&[(KDYNAROLL_LABEL_NAME, label_value.as_str())]);
    }

    verify_resolve_pods_label_all(
        &pods,
        &pods_per_label,
        vec!["pod3".to_string(), "pod5".to_string()],
        &[("label3", 2)],
    );
}

#[test]
fn test_fail_if_fewer_labels_than_pods() {
    let pods = make_test_pods(5, 0);
    let pods_per_label = counts(&[("label1", 1usize), ("label2", 2)]);

    let resolved_pods = resolve_pods_to_label(&pods, pods_per_label, KDYNAROLL_LABEL_NAME);
    assert!(resolved_pods.is_err());
    assert!(matches!(
        resolved_pods,
        Err(ResolveError::LabelTotal { labels: 3, pods: 5 })
    ));
}

#[test]
fn test_fail_if_more_labels_than_pods() {
    let pods = make_test_pods(2, 0);
    let pods_per_label = counts(&[("label1", 7usize)]);

    let resolved_pods = resolve_pods_to_label(&pods, pods_per_label, KDYNAROLL_LABEL_NAME);
    assert!(resolved_pods.is_err());
    assert!(matches!(
        resolved_pods,
        Err(ResolveError::LabelTotal { labels: 7, pods: 2 })
    ));
}

#[test]
fn a_pod_without_a_name_is_an_error() {
    let mut pods = make_test_pods(2, 0);
    pods[1].name = None;

    let resolved = resolve_pods_to_label(&pods, counts(&[("A", 2)]), KDYNAROLL_LABEL_NAME);
    assert!(matches!(resolved, Err(ResolveError::UnnamedPod)));

    let resolved = resolve_pods_to_label(&pods, counts(&[("A", 1)]), KDYNAROLL_LABEL_NAME);
    assert!(matches!(resolved, Err(ResolveError::LabelTotal { .. })));
}

#[test]
fn two_pods_of_one_name_are_an_error() {
    let mut pods = make_test_pods(3, 0);
    pods[2].name = Some("pod1".to_string());

    let resolved = resolve_pods_to_label(&pods, counts(&[("A", 3)]), KDYNAROLL_LABEL_NAME);
    assert!(matches!(
        resolved,
        Err(ResolveError::PendingTotal { labels: 3, pods: 2 })
    ));
    assert_eq!(
        resolved.unwrap_err().message(),
        "The total number of labels 3 does not match the number of pods 2. \
         This should never happen and yet, it did."
    );
}

#[test]
fn totals_beyond_the_word_size_do_not_wrap() {
    let pods = make_test_pods(1, 0);
    let resolved = resolve_pods_to_label(
        &pods,
        counts(&[("A", usize::MAX), ("B", 2)]),
        KDYNAROLL_LABEL_NAME,
    );
    match resolved {
        Err(ResolveError::LabelTotal { labels, pods }) => {
            assert_eq!(labels, usize::MAX as u128 + 2);
            assert_eq!(pods, 1);
        }
        _ => panic!("the numbers do not add up"),
    }
}

#[test]
fn values_are_given_out_in_order() {
    let pods = make_test_pods(4, 0);
    let resolved = resolve_pods_to_label(
        &pods,
        counts(&[("A", 1), ("B", 0), ("C", 3)]),
        KDYNAROLL_LABEL_NAME,
    )
    .unwrap();
    let given: Vec<(&str, &str)> = resolved
        .iter()
        .map(|assignment| {
            (
                assignment.pod_name.as_str(),
                assignment.label_value.as_str(),
            )
        })
        .collect();
    assert_eq!(
        given,
        vec![("pod1", "A"), ("pod2", "C"), ("pod3", "C"), ("pod4", "C")]
    );
}

#[test]
fn a_later_label_of_one_name_counts() {
    let pod = Pod {
        name: Some("pod".to_string()),
        labels: labels(&[("a", "1"), ("b", "2"), ("a", "3")]),
    };
    assert_eq!(pod.label(&"a".to_string()), Some(&"3".to_string()));
    assert_eq!(pod.label(&"b".to_string()), Some(&"2".to_string()));
    assert_eq!(pod.label(&"c".to_string()), None);
}

#[test]
fn the_highest_percentage_comes_first() {
    let sorted = sort_by_percentage(&vec![
        share("a", 10.0),
        share("b", 40.0),
        share("c", 10.0),
        share("d", 40.0),
    ]);
    let order: Vec<&str> = sorted.iter().map(|entry| entry.value.as_str()).collect();
    assert_eq!(order, vec!["b", "d", "a", "c"]);
}

#[test]
fn a_single_value_needs_no_number_to_be_sorted() {
    let sorted = sort_by_percentage(&vec![share("a", f64::NAN)]);
    assert_eq!(sorted.len(), 1);
    assert_eq!(as_map(&calculate_pods_per_label(&sorted, 3)), expected(&[("a", 3)]));
}

#[test]
fn percentages_have_to_make_a_hundred() {
    assert!(percentages_add_up(&vec![share("a", 33.3), share("b", 66.7)]));
    assert!(percentages_add_up(&vec![share("a", 150.0), share("b", -50.0)]));
    assert!(!percentages_add_up(&vec![share("a", 50.0), share("b", 49.9)]));
    assert!(!percentages_add_up(&vec![share("a", f64::NAN)]));
    assert!(!percentages_add_up(&vec![share("a", f64::INFINITY)]));
    assert!(!percentages_add_up(&vec![]));
}

#[test]
fn what_shares_leave_over_goes_to_the_highest_percentage() {
    let distr = sort_by_percentage(&vec![
        share("a", 33.3),
        share("b", 33.3),
        share("c", 33.4),
    ]);
    assert_eq!(
        as_map(&calculate_pods_per_label(&distr, 10)),
        expected(&[("c", 4), ("a", 3), ("b", 3)])
    );
}

#[test]
fn values_after_the_last_pod_get_none() {
    let distr = vec![share("a", 100.0), share("b", 50.0), share("c", 10.0)];
    assert_eq!(
        as_map(&calculate_pods_per_label(&distr, 4)),
        expected(&[("a", 4), ("b", 0), ("c", 0)])
    );
}

#[test]
fn of_equal_values_the_last_one_counts() {
    let distr = vec![share("a", 50.0), share("a", 30.0), share("b", 20.0)];
    assert_eq!(
        as_map(&calculate_pods_per_label(&distr, 10)),
        expected(&[("a", 3), ("b", 2)])
    );
}

#[test]
fn percentages_outside_the_range_are_an_error_of_the_pods() {
    let pods = make_test_pods(2, 0);
    let planned = apply_labels_to_pods(
        &pods,
        KDYNAROLL_LABEL_NAME,
        &vec![share("a", -50.0), share("b", 150.0)],
    );
    match planned {
        Err(LabelError::Resolve(ResolveError::LabelTotal { labels, pods })) => {
            assert_eq!((labels, pods), (3, 2));
        }
        _ => panic!("three values for two pods"),
    }
}

#[test]
fn percentages_are_kept_up_when_pods_come_and_go() {
    let distr = vec![share("blue", 20.0), share("green", 70.0), share("red", 10.0)];
    let name = "color";
    let mut pods = make_test_pods(10, 2);
    let planned = apply_labels_to_pods(&pods, name, &distr).unwrap();
    assert_eq!(planned.len(), 10);
    relabel(&mut pods, name, &planned);
    assert_eq!(
        holders(&pods, name),
        expected(&[("blue", 2), ("green", 7), ("red", 1)])
    );

    assert_eq!(apply_labels_to_pods(&pods, name, &distr).unwrap().len(), 0);

    pods.truncate(5);
    let planned = apply_labels_to_pods(&pods, name, &distr).unwrap();
    relabel(&mut pods, name, &planned);
    assert_eq!(holders(&pods, name), expected(&[("blue", 1), ("green", 4)]));

    for i in 0..15 {
        pods.push(Pod {
            name: Some(format!("new{}", i)),
            labels: labels(&[(name, "purple")]),
        });
    }
    let planned = apply_labels_to_pods(&pods, name, &distr).unwrap();
    assert_eq!(planned.len(), 15);
    relabel(&mut pods, name, &planned);
    assert_eq!(
        holders(&pods, name),
        expected(&[("blue", 4), ("green", 14), ("red", 2)])
    );
}

#[test]
fn another_label_stays_as_it_is() {
    let mut pods = make_test_pods(4, 0);
    let first = apply_labels_to_pods(&pods, "a", &vec![share("x", 50.0), share("y", 50.0)]).unwrap();
    relabel(&mut pods, "a", &first);
    let second = apply_labels_to_pods(&pods, "b", &vec![share("z", 100.0)]).unwrap();
    relabel(&mut pods, "b", &second);
    assert_eq!(holders(&pods, "a"), expected(&[("x", 2), ("y", 2)]));
    assert_eq!(holders(&pods, "b"), expected(&[("z", 4)]));
}

#[test]
fn as_few_pods_as_possible_are_patched() {
    let mut pods = make_test_pods(6, 0);
    for (i, value) in ["x", "x", "x", "x", "y", "z"].iter().enumerate() {
        pods[i].labels = labels(&[(KDYNAROLL_LABEL_NAME, value)]);
    }
    let resolved =
        resolve_pods_to_label(&pods, counts(&[("x", 3), ("y", 3)]), KDYNAROLL_LABEL_NAME).unwrap();
    let given: Vec<&str> = resolved
        .iter()
        .map(|assignment| assignment.pod_name.as_str())
        .collect();
    assert_eq!(given, vec!["pod4", "pod6"]);
}

#[test]
fn integer_percentages_are_met_for_every_number_of_pods() {
    let distr = sort_by_percentage(&vec![share("a", 17.0), share("b", 29.0), share("c", 54.0)]);
    for n in 1..500usize {
        let numbers = as_map(&calculate_pods_per_label(&distr, n));
        assert_eq!(numbers["a"], n * 17 / 100);
        assert_eq!(numbers["b"], n * 29 / 100);
        assert_eq!(numbers["c"], n - n * 17 / 100 - n * 29 / 100);
    }
}

#[test]
fn more_pods_take_none_away() {
    let distr = sort_by_percentage(&vec![
        share("a", 12.5),
        share("b", 33.3),
        share("c", 20.9),
        share("d", 33.3),
    ]);
    assert!(percentages_add_up(&distr));
    let mut before = as_map(&calculate_pods_per_label(&distr, 1));
    for n in 2..2000usize {
        let after = as_map(&calculate_pods_per_label(&distr, n));
        for value in ["d", "c", "a"] {
            assert!(before[value] <= after[value]);
        }
        before = after;
    }
    // The first value has what is left over, which may become less.
    let halves = vec![share("a", 50.0), share("b", 25.0), share("c", 25.0)];
    assert_eq!(
        as_map(&calculate_pods_per_label(&halves, 3)),
        expected(&[("a", 3), ("b", 0), ("c", 0)])
    );
    assert_eq!(
        as_map(&calculate_pods_per_label(&halves, 4)),
        expected(&[("a", 2), ("b", 1), ("c", 1)])
    );
}
