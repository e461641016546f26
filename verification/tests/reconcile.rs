//! Reconciliations against a server that is written out.

use http::Method;
use kdynaroll::binary64::Percentage;
use kdynaroll::config::{
    KdynarollConfigSpec, PodLabelerAppSpec, PodLabelerLabelSpec, PodLabelerNamespacesSpec,
    PodLabelerSpec, PodLabelerValueDistributionSpec,
};
use kdynaroll::controller::{
    error_policy, reconcile, scan_apps, scan_namespaces, start_controller, NamespaceScan,
    ScanAction, ScanEvent,
};
use kdynaroll::labeler::{
    apply_labels_to_app, assign_label_to_pod, assign_labels, LabelError, LabelingStep, ListRequest,
    PatchRequest, Reply,
};
use kdynaroll::metrics::Metrics;
use kdynaroll::patch::label_patch;
use kdynaroll::pod::{Pod, PodLabel};
use kdynaroll::resolve::{PodAssignment, ResolveError};
use kube::api::{ListParams, Patch, PatchParams};
use std::collections::{HashMap, HashSet};

#[derive(PartialEq, Eq, Hash, Debug)]
struct RequestContent {
    body: String,
    method: Method,
}

#[derive(PartialEq, Eq, Hash, Debug)]
struct RequestResults {
    uri: String,
    body: String,
    method: Method,
}

fn sent(request: http::Request<Vec<u8>>) -> RequestResults {
    RequestResults {
        uri: request.uri().path_and_query().unwrap().to_string(),
        method: request.method().clone(),
        body: String::from_utf8(request.into_body()).unwrap(),
    }
}

fn pods_of(namespace: &str) -> kube::core::Request {
    kube::core::Request::new(format!("/api/v1/namespaces/{}/pods", namespace))
}

fn send_list(request: &ListRequest) -> RequestResults {
    let params = ListParams::default().labels(&request.selector);
    sent(pods_of(&request.namespace).list(&params).unwrap())
}

fn send_patch(request: &PatchRequest) -> RequestResults {
    let body: serde_json::Value = serde_json::from_str(&request.body).unwrap();
    let params = PatchParams::apply(&request.field_manager);
    sent(
        pods_of(&request.namespace)
            .patch(&request.pod_name, &params, &Patch::Merge(&body))
            .unwrap(),
    )
}

fn share(value: &str, percentage: f64) -> PodLabelerValueDistributionSpec {
    PodLabelerValueDistributionSpec {
        value: value.to_string(),
        percentage: Percentage::from_bits(percentage.to_bits()),
    }
}

fn label(name: &str, distribution: Vec<PodLabelerValueDistributionSpec>) -> PodLabelerLabelSpec {
    PodLabelerLabelSpec {
        label_name: name.to_string(),
        label_value_distribution: distribution,
    }
}

fn app(name: &str, labels: Vec<PodLabelerLabelSpec>) -> PodLabelerAppSpec {
    PodLabelerAppSpec {
        app: name.to_string(),
        labels,
    }
}

fn namespace(name: &str, apps: Vec<PodLabelerAppSpec>) -> PodLabelerNamespacesSpec {
    PodLabelerNamespacesSpec {
        namespace: name.to_string(),
        apps,
    }
}

fn config(namespaces: Vec<PodLabelerNamespacesSpec>) -> KdynarollConfigSpec {
    KdynarollConfigSpec {
        pod_labeler: PodLabelerSpec { namespaces },
    }
}

fn pod(name: &str) -> Pod {
    Pod {
        name: Some(name.to_string()),
        labels: vec![],
    }
}

fn make_full_reconcile_kdynaroll_test_spec() -> KdynarollConfigSpec {
    config(vec![
        namespace(
            "ns1",
            vec![
                app(
                    "app1",
                    vec![label("label1app1", vec![share("label1app1value", 100.0)])],
                ),
                app(
                    "app2",
                    vec![label("label2", vec![share("label2app2value", 100.0)])],
                ),
            ],
        ),
        namespace(
            "ns2",
            vec![
                app(
                    "app3",
                    vec![label("label3", vec![share("label3app3value", 100.0)])],
                ),
                app(
                    "app4",
                    vec![label("label4", vec![share("label4app4value", 100.0)])],
                ),
            ],
        ),
    ])
}

fn make_full_reconcile_response_content() -> HashMap<String, Vec<Pod>> {
    HashMap::from([
        (
            "/api/v1/namespaces/ns1/pods?&labelSelector=app%3Dapp1".to_string(),
            vec![pod("ns1app1pod1"), pod("ns1app1pod2")],
        ),
        (
            "/api/v1/namespaces/ns1/pods?&labelSelector=app%3Dapp2".to_string(),
            vec![pod("ns1app2pod3"), pod("ns1app2pod4")],
        ),
        (
            "/api/v1/namespaces/ns2/pods?&labelSelector=app%3Dapp3".to_string(),
            vec![pod("ns2app3pod5"), pod("ns2app3pod6")],
        ),
        (
            "/api/v1/namespaces/ns2/pods?&labelSelector=app%3Dapp4".to_string(),
            vec![pod("ns2app4pod7"), pod("ns2app4pod8")],
        ),
    ])
}

fn make_full_reconcile_expected_response() -> HashMap<String, RequestContent> {
    let list = |uri: &str| {
        (
            uri.to_string(),
            RequestContent {
                body: "".to_string(),
                method: Method::GET,
            },
        )
    };
    let patch = |uri: &str, body: &str| {
        (
            uri.to_string(),
            RequestContent {
                body: body.to_string(),
                method: Method::PATCH,
            },
        )
    };
    HashMap::from([
        list("/api/v1/namespaces/ns1/pods?&labelSelector=app%3Dapp1"),
        list("/api/v1/namespaces/ns1/pods?&labelSelector=app%3Dapp2"),
        list("/api/v1/namespaces/ns2/pods?&labelSelector=app%3Dapp3"),
        list("/api/v1/namespaces/ns2/pods?&labelSelector=app%3Dapp4"),
        patch(
            "/api/v1/namespaces/ns1/pods/ns1app1pod1?&fieldManager=kdynaroll_patch_call",
            "{\"metadata\":{\"labels\":{\"label1app1\":\"label1app1value\"}}}",
        ),
        patch(
            "/api/v1/namespaces/ns1/pods/ns1app1pod2?&fieldManager=kdynaroll_patch_call",
            "{\"metadata\":{\"labels\":{\"label1app1\":\"label1app1value\"}}}",
        ),
        patch(
            "/api/v1/namespaces/ns1/pods/ns1app2pod3?&fieldManager=kdynaroll_patch_call",
            "{\"metadata\":{\"labels\":{\"label2\":\"label2app2value\"}}}",
        ),
        patch(
            "/api/v1/namespaces/ns1/pods/ns1app2pod4?&fieldManager=kdynaroll_patch_call",
            "{\"metadata\":{\"labels\":{\"label2\":\"label2app2value\"}}}",
        ),
        patch(
            "/api/v1/namespaces/ns2/pods/ns2app3pod5?&fieldManager=kdynaroll_patch_call",
            "{\"metadata\":{\"labels\":{\"label3\":\"label3app3value\"}}}",
        ),
        patch(
            "/api/v1/namespaces/ns2/pods/ns2app3pod6?&fieldManager=kdynaroll_patch_call",
            "{\"metadata\":{\"labels\":{\"label3\":\"label3app3value\"}}}",
        ),
        patch(
            "/api/v1/namespaces/ns2/pods/ns2app4pod7?&fieldManager=kdynaroll_patch_call",
            "{\"metadata\":{\"labels\":{\"label4\":\"label4app4value\"}}}",
        ),
        patch(
            "/api/v1/namespaces/ns2/pods/ns2app4pod8?&fieldManager=kdynaroll_patch_call",
            "{\"metadata\":{\"labels\":{\"label4\":\"label4app4value\"}}}",
        ),
    ])
}

/// Runs a scan to its end and tells its actions in short.
fn run<L, P>(
    metrics: &mut Metrics,
    scan: NamespaceScan,
    mut on_list: L,
    mut on_patch: P,
) -> Vec<String>
where
    L: FnMut(&ListRequest) -> Reply,
    P: FnMut(&PatchRequest) -> Reply,
{
    let mut told = Vec::new();
    let mut scan = scan;
    let mut event = ScanEvent::Continue;
    loop {
        let (next, action) = scan_apps(metrics, scan, event);
        scan = next;
        event = match action {
            ScanAction::List(request) => {
                told.push(format!("list {} {}", request.namespace, request.selector));
                ScanEvent::Reply(on_list(&request))
            }
            ScanAction::Patch(request) => {
                told.push(format!("patch {} {}", request.pod_name, request.body));
                ScanEvent::Reply(on_patch(&request))
            }
            ScanAction::Applied { app } => {
                told.push(format!("applied {}", app));
                ScanEvent::Continue
            }
            ScanAction::Failed { app, error } => {
                told.push(format!("failed {}: {}", app, error.message()));
                ScanEvent::Continue
            }
            ScanAction::Finished => return told,
        };
    }
}

#[test]
fn test_full_reconcile() {
    let response_content = make_full_reconcile_response_content();
    let num_calls = 12;
    let mut requests_content: HashMap<String, RequestContent> = HashMap::new();
    let mut calls = 0;

    let mut metrics = Metrics::new();
    let reconciliation = reconcile(&mut metrics, &make_full_reconcile_kdynaroll_test_spec());
    assert_eq!(reconciliation.requeue_seconds, 300);

    for scan in reconciliation.scans {
        let mut sent = Vec::new();
        let mut patches = Vec::new();
        run(
            &mut metrics,
            scan,
            |request| {
                let result = send_list(request);
                let pods = response_content[&result.uri].clone();
                sent.push(result);
                Reply::Listed(pods)
            },
            |request| {
                patches.push(send_patch(request));
                Reply::Patched
            },
        );
        for result in sent.into_iter().chain(patches) {
            calls += 1;
            requests_content.insert(
                result.uri,
                RequestContent {
                    body: result.body,
                    method: result.method,
                },
            );
        }
    }

    assert_eq!(calls, num_calls);
    assert_eq!(requests_content.len(), num_calls);
    assert_eq!(make_full_reconcile_expected_response(), requests_content);
}

#[test]
fn test_apply_labels_to_app_percentages_not_equals_100() {
    let label_dist = vec![share("label50", 50.0), share("label49.9", 49.9)];

    let step = apply_labels_to_app("default", "app", "the-label-name", &label_dist);

    match step {
        LabelingStep::Done(Err(error)) => {
            assert!(matches!(error, LabelError::PercentageSum));
            assert_eq!(
                error.message(),
                "The sum of all percentages must be exactly 100"
            );
        }
        _ => panic!("the percentages do not add up"),
    }
}

#[test]
fn test_assign_labels_success() {
    let patch_pod1_uri =
        "/api/v1/namespaces/default/pods/pod1?&fieldManager=kdynaroll_patch_call".to_string();
    let patch_pod2_uri =
        "/api/v1/namespaces/default/pods/pod2?&fieldManager=kdynaroll_patch_call".to_string();

    let pod_labels = vec![
        PodAssignment {
            pod_name: "pod1".to_string(),
            label_value: "label-valueA".to_string(),
        },
        PodAssignment {
            pod_name: "pod2".to_string(),
            label_value: "label-valueB".to_string(),
        },
    ];

    let mut actual_results = HashSet::new();
    let mut assigned = 0;
    while let Some(request) = assign_labels("default", "labelname", &pod_labels, assigned) {
        actual_results.insert(send_patch(&request));
        assigned += 1;
    }
    assert_eq!(assigned, 2);

    let expected_results = HashSet::from([
        RequestResults {
            uri: patch_pod1_uri,
            body: "{\"metadata\":{\"labels\":{\"labelname\":\"label-valueA\"}}}".to_string(),
            method: Method::PATCH,
        },
        RequestResults {
            uri: patch_pod2_uri,
            body: "{\"metadata\":{\"labels\":{\"labelname\":\"label-valueB\"}}}".to_string(),
            method: Method::PATCH,
        },
    ]);
    assert_eq!(actual_results, expected_results);
}

#[test]
fn a_patch_request_names_the_field_manager() {
    let request = assign_label_to_pod("ns", "name", "pod".to_string(), "value".to_string());
    assert_eq!(request.namespace, "ns");
    assert_eq!(request.pod_name, "pod");
    assert_eq!(request.field_manager, "kdynaroll_patch_call");
    assert_eq!(request.body, "{\"metadata\":{\"labels\":{\"name\":\"value\"}}}");
}

#[test]
fn a_patch_says_what_it_sets() {
    let texts = [
        "",
        "plain",
        "quote \" and backslash \\",
        "\u{8}\t\n\u{c}\r",
        "\u{0}\u{1}\u{b}\u{1f}\u{20}\u{7f}",
        "slash / and \u{e9} \u{2028} \u{1f600}",
        "\":\"",
    ];
    for name in texts {
        for value in texts {
            let body: serde_json::Value =
                serde_json::from_str(&label_patch(name, value)).unwrap();
            let mut labels = serde_json::Map::new();
            labels.insert(name.to_string(), serde_json::Value::String(value.to_string()));
            let mut metadata = serde_json::Map::new();
            metadata.insert("labels".to_string(), serde_json::Value::Object(labels));
            let mut patch = serde_json::Map::new();
            patch.insert("metadata".to_string(), serde_json::Value::Object(metadata));
            let patch = serde_json::Value::Object(patch);
            assert_eq!(body, patch);
            assert_eq!(label_patch(name, value), serde_json::to_string(&patch).unwrap());
        }
    }
    assert_eq!(
        label_patch("a\"b", "c\\d\n\u{1}\u{1f}"),
        "{\"metadata\":{\"labels\":{\"a\\\"b\":\"c\\\\d\\n\\u0001\\u001f\"}}}"
    );
}

#[test]
fn a_label_goes_from_its_pods_to_its_patches() {
    let mut metrics = Metrics::new();
    let distribution = vec![share("x", 50.0), share("y", 50.0)];
    let (labeling, request) = match apply_labels_to_app("ns", "app", "l", &distribution) {
        LabelingStep::List(labeling, request) => (labeling, request),
        _ => panic!("the pods come first"),
    };
    assert_eq!(request.namespace, "ns");
    assert_eq!(request.selector, "app=app");
    let pods = vec![pod("p1"), pod("p2")];
    let (labeling, request) = match labeling.resume(&mut metrics, Reply::Listed(pods)) {
        LabelingStep::Patch(labeling, request) => (labeling, request),
        _ => panic!("a pod is to be patched"),
    };
    assert_eq!(request.pod_name, "p1");
    let (labeling, request) = match labeling.resume(&mut metrics, Reply::Patched) {
        LabelingStep::Patch(labeling, request) => (labeling, request),
        _ => panic!("another pod is to be patched"),
    };
    assert_eq!(request.pod_name, "p2");
    match labeling.resume(&mut metrics, Reply::Patched) {
        LabelingStep::Done(Ok(count)) => assert_eq!(count, 2),
        _ => panic!("all is done"),
    }
}

#[test]
fn a_failure_keeps_no_other_label_from_being_applied() {
    let spec = namespace(
        "ns",
        vec![
            app("sum", vec![label("l", vec![share("x", 99.0)])]),
            app("list", vec![label("l", vec![share("x", 100.0)])]),
            app("unnamed", vec![label("l", vec![share("x", 100.0)])]),
            app("patch", vec![label("l", vec![share("x", 100.0)])]),
            app(
                "good",
                vec![
                    label("l", vec![share("x", 100.0)]),
                    label("m", vec![share("y", 100.0)]),
                ],
            ),
        ],
    );
    let mut metrics = Metrics::new();
    let told = run(
        &mut metrics,
        NamespaceScan::new(&spec),
        |request| match request.selector.as_str() {
            "app=list" => Reply::ListFailed("no list".to_string()),
            "app=unnamed" => Reply::Listed(vec![Pod {
                name: None,
                labels: vec![],
            }]),
            "app=patch" => Reply::Listed(vec![pod("p1"), pod("p2"), pod("p3")]),
            _ => Reply::Listed(vec![
                Pod {
                    name: Some("g1".to_string()),
                    labels: vec![PodLabel {
                        name: "l".to_string(),
                        value: "x".to_string(),
                    }],
                },
                pod("g2"),
            ]),
        },
        |request| {
            if request.pod_name == "p2" {
                Reply::PatchFailed("no patch".to_string())
            } else {
                Reply::Patched
            }
        },
    );
    let patch_x = "{\"metadata\":{\"labels\":{\"l\":\"x\"}}}";
    let patch_y = "{\"metadata\":{\"labels\":{\"m\":\"y\"}}}";
    assert_eq!(
        told,
        vec![
            "failed sum: The sum of all percentages must be exactly 100".to_string(),
            "list ns app=list".to_string(),
            "failed list: Failed to list pods for app list: no list".to_string(),
            "list ns app=unnamed".to_string(),
            "failed unnamed: Failed to resolve pods to labels: Found pod without a name".to_string(),
            "list ns app=patch".to_string(),
            format!("patch p1 {}", patch_x),
            format!("patch p2 {}", patch_x),
            "failed patch: Failed to assign labels to pods: Error labeling pod: no patch"
                .to_string(),
            "list ns app=good".to_string(),
            format!("patch g2 {}", patch_x),
            "applied good".to_string(),
            "list ns app=good".to_string(),
            format!("patch g1 {}", patch_y),
            format!("patch g2 {}", patch_y),
            "applied good".to_string(),
        ]
    );
}

#[test]
fn an_application_without_pods_is_applied_at_once() {
    let spec = namespace(
        "ns",
        vec![app("empty", vec![label("l", vec![share("x", 100.0)])])],
    );
    let mut metrics = Metrics::new();
    let told = run(
        &mut metrics,
        NamespaceScan::new(&spec),
        |_| Reply::Listed(vec![]),
        |_| unreachable!(),
    );
    assert_eq!(told, vec!["list ns app=empty", "applied empty"]);
}

#[test]
fn a_namespace_without_labels_is_over_at_once() {
    let mut metrics = Metrics::new();
    let spec = namespace("ns", vec![app("bare", vec![])]);
    let told = run(
        &mut metrics,
        NamespaceScan::new(&spec),
        |_| unreachable!(),
        |_| unreachable!(),
    );
    assert!(told.is_empty());
}

#[test]
fn messages_tell_the_numbers() {
    assert_eq!(
        LabelError::Resolve(ResolveError::LabelTotal { labels: 12, pods: 305 }).message(),
        "Failed to resolve pods to labels: \
         The total number of labels 12 does not match the number of pods 305"
    );
}

#[test]
fn an_empty_configuration_has_no_scans() {
    let mut metrics = Metrics::new();
    assert!(scan_namespaces(&mut metrics, &config(vec![])).is_empty());
    assert_eq!(
        scan_namespaces(&mut metrics, &make_full_reconcile_kdynaroll_test_spec()).len(),
        2
    );
}

#[test]
fn a_failed_reconciliation_is_tried_again() {
    let mut metrics = Metrics::new();
    assert_eq!(error_policy(&mut metrics), 300);
}

#[test]
fn the_configuration_is_watched_by_its_name() {
    let watch = start_controller(None);
    assert_eq!(watch.namespace, "default");
    assert_eq!(
        watch.field_selector,
        "metadata.name=kdynaroll-controller-config"
    );
    assert_eq!(start_controller(Some("own".to_string())).namespace, "own");
}
