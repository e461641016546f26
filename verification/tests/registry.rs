//! The counts as the registry of the process hands them out.

use kdynaroll::binary64::Percentage;
use kdynaroll::config::{
    KdynarollConfigSpec, PodLabelerAppSpec, PodLabelerLabelSpec, PodLabelerNamespacesSpec,
    PodLabelerSpec, PodLabelerValueDistributionSpec,
};
use kdynaroll::controller::{error_policy, reconcile, scan_apps, ScanAction, ScanEvent};
use kdynaroll::labeler::Reply;
use kdynaroll::metrics::{
    metrics_bind_addr, metrics_reply, metrics_reply_for, record_app_count, record_namespace_count, record_pod_count,
    record_reconcile_cycle, server_metrics, Count, Metrics, Registration,
};
use kdynaroll::pod::Pod;

fn text() -> String {
    let reply = server_metrics();
    assert_eq!(reply.status, 200);
    String::from_utf8(reply.body).unwrap()
}

fn has_line(line: &str) -> bool {
    text().lines().any(|other| other == line)
}

#[test]
fn counts_are_handed_out() {
    let mut metrics = Metrics::new();
    assert_eq!(text(), "");
    assert!(matches!(
        metrics.registration(Count::ReconcileCycles),
        Registration::Unused
    ));

    // A count is handed out once it has been used.
    error_policy(&mut metrics);
    assert_eq!(
        text(),
        "# HELP reconcile_cycle_completed Total number of completed reconciliation cycles\n\
         # TYPE reconcile_cycle_completed counter\n\
         reconcile_cycle_completed{result=\"error\"} 1\n"
    );
    assert!(matches!(
        metrics.registration(Count::ReconcileCycles),
        Registration::Registered
    ));
    for count in [Count::Namespaces, Count::Apps, Count::Pods] {
        assert!(matches!(metrics.registration(count), Registration::Unused));
    }

    record_reconcile_cycle(&mut metrics, "success");
    record_reconcile_cycle(&mut metrics, "success");
    record_namespace_count(&mut metrics, 0);
    assert!(has_line("namespaces_labeled 0"));
    record_namespace_count(&mut metrics, 3);
    record_app_count(&mut metrics, "ns1", 2);
    record_app_count(&mut metrics, "ns2", 5);
    record_app_count(&mut metrics, "ns1", 4);
    record_pod_count(&mut metrics, "ns1", "app1", 7);
    record_pod_count(&mut metrics, "ns1", "app2", 0);
    assert_eq!(
        text(),
        "# HELP apps_labeled Number of apps configured for labeling per namespace\n\
         # TYPE apps_labeled counter\n\
         apps_labeled{namespace=\"ns1\"} 6\n\
         apps_labeled{namespace=\"ns2\"} 5\n\
         # HELP namespaces_labeled Number of namespaces configured for labeling\n\
         # TYPE namespaces_labeled counter\n\
         namespaces_labeled 3\n\
         # HELP pods_labeled Number of pods effectively labeled per namespace and app\n\
         # TYPE pods_labeled counter\n\
         pods_labeled{app=\"app1\",namespace=\"ns1\"} 7\n\
         pods_labeled{app=\"app2\",namespace=\"ns1\"} 0\n\
         # HELP reconcile_cycle_completed Total number of completed reconciliation cycles\n\
         # TYPE reconcile_cycle_completed counter\n\
         reconcile_cycle_completed{result=\"error\"} 1\n\
         reconcile_cycle_completed{result=\"success\"} 2\n"
    );

    // Label values that read the same when they are written one after the other share a series.
    record_pod_count(&mut metrics, "ab", "c", 1);
    record_pod_count(&mut metrics, "a", "bc", 10);
    assert!(has_line("pods_labeled{app=\"c\",namespace=\"ab\"} 11"));
    assert!(!text().contains("app=\"bc\""));

    record_namespace_count(&mut metrics, u64::MAX);
    assert!(has_line("namespaces_labeled 2"));

    // The counts of a reconciliation.
    let config = KdynarollConfigSpec {
        pod_labeler: PodLabelerSpec {
            namespaces: vec![PodLabelerNamespacesSpec {
                namespace: "scanned".to_string(),
                apps: vec![
                    PodLabelerAppSpec {
                        app: "app".to_string(),
                        labels: vec![PodLabelerLabelSpec {
                            label_name: "label".to_string(),
                            label_value_distribution: vec![PodLabelerValueDistributionSpec {
                                value: "value".to_string(),
                                percentage: Percentage::from_bits(100f64.to_bits()),
                            }],
                        }],
                    },
                    PodLabelerAppSpec {
                        app: "other".to_string(),
                        labels: vec![],
                    },
                ],
            }],
        },
    };
    for attempt in ["fails", "works"] {
        for mut scan in reconcile(&mut metrics, &config).scans {
            let mut event = ScanEvent::Continue;
            loop {
                let (next, action) = scan_apps(&mut metrics, scan, event);
                scan = next;
                event = match action {
                    ScanAction::List(_) => ScanEvent::Reply(Reply::Listed(vec![
                        Pod {
                            name: Some("p1".to_string()),
                            labels: vec![],
                        },
                        Pod {
                            name: Some("p2".to_string()),
                            labels: vec![],
                        },
                    ])),
                    ScanAction::Patch(request) => {
                        ScanEvent::Reply(if attempt == "fails" && request.pod_name == "p2" {
                            Reply::PatchFailed("cause".to_string())
                        } else {
                            Reply::Patched
                        })
                    }
                    ScanAction::Applied { .. } | ScanAction::Failed { .. } => ScanEvent::Continue,
                    ScanAction::Finished => break,
                };
            }
        }
        let counted = has_line("pods_labeled{app=\"app\",namespace=\"scanned\"} 2");
        assert_eq!(counted, attempt == "works");
    }
    assert!(has_line("apps_labeled{namespace=\"scanned\"} 4"));
    assert!(has_line("namespaces_labeled 4"));
    assert!(has_line("reconcile_cycle_completed{result=\"success\"} 4"));

    error_policy(&mut metrics);
    assert!(has_line("reconcile_cycle_completed{result=\"error\"} 2"));

    // Other counts of the same names are refused, each on its first use.
    let mut other = Metrics::new();
    record_namespace_count(&mut other, 1);
    assert!(matches!(
        other.registration(Count::Namespaces),
        Registration::Refused
    ));
    assert!(matches!(
        other.registration(Count::Pods),
        Registration::Unused
    ));
    record_pod_count(&mut other, "ns", "app", 1);
    record_app_count(&mut other, "ns", 1);
    record_reconcile_cycle(&mut other, "success");
    for count in [Count::ReconcileCycles, Count::Apps, Count::Pods] {
        assert!(matches!(other.registration(count), Registration::Refused));
    }
    assert!(has_line("namespaces_labeled 4"));
    assert!(!text().contains("namespace=\"ns\""));
}

#[test]
fn a_text_is_the_body_of_the_reply() {
    let reply = metrics_reply(Ok(b"text".to_vec()));
    assert_eq!(reply.status, 200);
    assert_eq!(reply.cause, None);
    assert_eq!(reply.body, b"text".to_vec());
}

#[test]
fn without_a_text_the_reply_is_an_error() {
    let reply = metrics_reply(Err("cause".to_string()));
    assert_eq!(reply.status, 500);
    assert_eq!(reply.body, b"Internal Server Error".to_vec());
    assert_eq!(reply.cause, Some("cause".to_string()));
}

#[test]
fn the_address_can_be_configured() {
    assert_eq!(metrics_bind_addr(None), "0.0.0.0:5085");
    assert_eq!(
        metrics_bind_addr(Some("127.0.0.1:9".to_string())),
        "127.0.0.1:9"
    );
}

fn counter_family(name: &str, value: f64) -> prometheus::proto::MetricFamily {
    let mut counter = prometheus::proto::Counter::default();
    counter.set_value(value);
    let mut metric = prometheus::proto::Metric::default();
    metric.set_counter(counter);
    let mut family = prometheus::proto::MetricFamily::default();
    family.set_name(name.to_string());
    family.set_field_type(prometheus::proto::MetricType::COUNTER);
    family.mut_metric().push(metric);
    family
}

#[test]
fn the_reply_is_the_text_of_all_families() {
    let reply = metrics_reply_for(&vec![]);
    assert_eq!((reply.status, reply.body), (200, vec![]));

    let reply = metrics_reply_for(&vec![counter_family("b", 2.0), counter_family("a", 1.0)]);
    assert_eq!(reply.status, 200);
    assert_eq!(
        String::from_utf8(reply.body).unwrap(),
        "# TYPE b counter\nb 2\n# TYPE a counter\na 1\n"
    );
    assert_eq!(reply.cause, None);
}

#[test]
fn a_family_that_cannot_be_written_is_answered_with_an_error() {
    let mut empty = counter_family("empty", 0.0);
    empty.mut_metric().clear();
    assert_eq!(
        metrics_reply_for(&vec![empty.clone()]).cause,
        Some(format!("Error: MetricFamily has no metrics: {:?}", empty))
    );
    let mut untyped = counter_family("untyped", 0.0);
    untyped.set_field_type(prometheus::proto::MetricType::UNTYPED);
    assert_eq!(
        metrics_reply_for(&vec![untyped.clone()]).cause,
        Some("A metric is of no known type".to_string())
    );
    for bad in [empty, untyped] {
        let reply = metrics_reply_for(&vec![counter_family("good", 1.0), bad]);
        assert_eq!(reply.status, 500);
        assert_eq!(reply.body, b"Internal Server Error".to_vec());
        assert!(reply.cause.is_some());
    }
}
