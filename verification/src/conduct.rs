//! What is asked of a label and of a scan, request by request.

use crate::binary64::{units_per_one, Binary64};
use crate::config::{PodLabelerAppSpec, PodLabelerNamespacesSpec};
use crate::controller::{
    all_jobs, app_jobs, JobView, ScanAction, ScanActionView, ScanEventView, ScanStageView, ScanView,
};
use crate::json::{only, parse, Json};
use crate::labeler::{
    patch_for, plan, LabelError, LabelErrorView, LabelingStepView, LabelingView, ListRequest, ListView,
    PatchRequest, PatchView, Reply, ReplyView, StageView,
};
use crate::metrics::{count_in, hashed, series_of, Count, MetricsView, Registrations};
use crate::patch::law_patch_sets_the_label;
use crate::pod::{pod_views, Pod, PodView};
use crate::quota::{adds_up, percentages_of};
use crate::resolve::{assignment_views, AssignmentView, PodAssignment};
use crate::scan::{
    assigning_actions, job_actions, job_counted, jobs_actions, jobs_counted,
    law_a_label_has_one_outcome, law_every_label_has_its_turn, Progress, Server,
};
use crate::sums::lemma_fold;
use vstd::prelude::*;
use vstd::utf8::encode_utf8;

verus! {

/// Whether a request asks for the pod of `assignment` to be patched so that its label `name` has
/// the value of the assignment, and nothing else changes.
pub open spec fn asks_for(
    request: PatchView,
    namespace: Seq<char>,
    name: Seq<char>,
    assignment: AssignmentView,
) -> bool {
    &&& request.namespace == namespace
    &&& request.pod_name == assignment.pod_name
    &&& request.field_manager == "kdynaroll_patch_call"@
    &&& parse(request.body) == Some(
        only("metadata"@, only("labels"@, only(name, Json::Text(assignment.label_value)))),
    )
}

/// The request for an assignment asks for the patch that sets the label of its pod to its value.
pub proof fn law_request_asks_for_the_assignment(
    namespace: Seq<char>,
    name: Seq<char>,
    assignment: AssignmentView,
)
    ensures
        asks_for(patch_for(namespace, name, assignment), namespace, name, assignment),
{
    law_patch_sets_the_label(name, assignment.label_value);
}

/// Whether, with `assigned` of `assignments` carried out, `step` asks for the next one, or is done
/// with as many pods as there are assignments if none is left.
pub open spec fn carries_on(
    labeling: LabelingView,
    assignments: Seq<AssignmentView>,
    assigned: nat,
    step: LabelingStepView,
) -> bool {
    if assigned < assignments.len() {
        match step {
            LabelingStepView::Patch(next, request) => {
                &&& next == (LabelingView {
                    stage: StageView::Assigning { assignments, assigned },
                    ..labeling
                })
                &&& asks_for(
                    request,
                    labeling.namespace,
                    labeling.label_name,
                    assignments[assigned as int],
                )
            },
            _ => false,
        }
    } else {
        step == LabelingStepView::Done(Ok(assignments.len()))
    }
}

/// A label goes on as its replies say: from the pods to the first assignment of the plan for them,
/// from one assignment to the next, and to the end with the first failure or when there is no
/// assignment left.
pub proof fn law_label_goes_on_as_replies_say(
    labeling: LabelingView,
    pods: Seq<PodView>,
    cause: Seq<char>,
)
    ensures
        labeling.stage is Listing ==> {
            &&& match plan(pods, labeling.label_name, labeling.distribution) {
                Ok(assignments) => carries_on(
                    labeling,
                    assignments,
                    0,
                    labeling.step(ReplyView::Listed(pods)),
                ),
                Err(error) => labeling.step(ReplyView::Listed(pods)) == LabelingStepView::Done(
                    Err(LabelErrorView::Resolve(error)),
                ),
            }
            &&& labeling.step(ReplyView::ListFailed(cause)) == LabelingStepView::Done(
                Err(LabelErrorView::ListPods { app: labeling.app, cause }),
            )
        },
        labeling.stage matches StageView::Assigning { assignments, assigned } ==> {
            &&& carries_on(
                labeling,
                assignments,
                assigned + 1,
                labeling.step(ReplyView::Patched),
            )
            &&& labeling.step(ReplyView::PatchFailed(cause)) == LabelingStepView::Done(
                Err(LabelErrorView::Assign { cause }),
            )
        },
{
    match labeling.stage {
        StageView::Listing => {
            match plan(pods, labeling.label_name, labeling.distribution) {
                Ok(assignments) => {
                    if assignments.len() > 0 {
                        law_patch_sets_the_label(labeling.label_name, assignments[0].label_value);
                    }
                },
                Err(_) => {},
            }
        },
        StageView::Assigning { assignments, assigned } => {
            if assigned + 1 < assignments.len() {
                law_patch_sets_the_label(
                    labeling.label_name,
                    assignments[(assigned + 1) as int].label_value,
                );
            }
        },
    }
}

/// How many labels the first `a` applications have.
pub open spec fn labels_before(apps: Seq<PodLabelerAppSpec>, a: int) -> nat
    decreases a,
{
    if a <= 0 {
        0
    } else {
        labels_before(apps, a - 1) + apps[a - 1].labels@.len()
    }
}

/// The position of the label number `l` of the application number `a` among all labels.
pub open spec fn position(apps: Seq<PodLabelerAppSpec>, a: int, l: int) -> int {
    labels_before(apps, a) + l
}

/// Whether a job is to apply the label number `l` of an application, as it is configured.
pub open spec fn applies(job: JobView, app: PodLabelerAppSpec, l: int) -> bool {
    let label = app.labels@[l];
    &&& job.app == app.app@
    &&& job.label_name == label.label_name@
    &&& job.distribution.len() == label.label_value_distribution@.len()
    &&& forall|i: int|
        #![trigger job.distribution[i]]
        0 <= i < job.distribution.len() ==> job.distribution[i].value
            == label.label_value_distribution@[i].value@ && job.distribution[i].percentage
            == Binary64::from_bits(label.label_value_distribution@[i].percentage.bits)
}

proof fn lemma_jobs_len(apps: Seq<PodLabelerAppSpec>, a: int)
    requires
        0 <= a <= apps.len(),
    ensures
        all_jobs(apps.take(a)).len() == labels_before(apps, a),
    decreases a,
{
    if a > 0 {
        lemma_jobs_len(apps, a - 1);
        assert(apps.take(a).drop_last() =~= apps.take(a - 1));
        assert(apps.take(a).last() == apps[a - 1]);
    }
}

proof fn lemma_job_at(apps: Seq<PodLabelerAppSpec>, n: int, a: int, l: int)
    requires
        0 <= a < n <= apps.len(),
        0 <= l < apps[a].labels@.len(),
    ensures
        labels_before(apps, a) + l < all_jobs(apps.take(n)).len(),
        applies(all_jobs(apps.take(n))[labels_before(apps, a) + l], apps[a], l),
    decreases n,
{
    lemma_jobs_len(apps, n - 1);
    assert(apps.take(n).drop_last() =~= apps.take(n - 1));
    assert(apps.take(n).last() == apps[n - 1]);
    if a < n - 1 {
        lemma_job_at(apps, n - 1, a, l);
    } else {
        assert(all_jobs(apps.take(n))[labels_before(apps, a) + l] == app_jobs(apps[a])[l]);
    }
}

/// A scan that has not begun is to apply every label of every application of the namespace, as they
/// are configured, in their order, and nothing else.
pub proof fn law_fresh_scan_has_every_label(namespace_spec: PodLabelerNamespacesSpec)
    ensures
        ({
            let scan = ScanView::fresh(namespace_spec);
            let apps = namespace_spec.apps@;
            &&& scan.namespace == namespace_spec.namespace@
            &&& scan.app_count == apps.len()
            &&& scan.next == 0
            &&& scan.stage is Start
            &&& scan.jobs.len() == labels_before(apps, apps.len() as int)
            &&& forall|a: int, l: int|
                0 <= a < apps.len() && 0 <= l < apps[a].labels@.len() ==> (#[trigger] position(
                    apps,
                    a,
                    l,
                )) < scan.jobs.len() && applies(scan.jobs[position(apps, a, l)], apps[a], l)
        }),
{
    let apps = namespace_spec.apps@;
    let n = apps.len() as int;
    assert(apps.take(n) =~= apps);
    lemma_jobs_len(apps, n);
    assert forall|a: int, l: int|
        0 <= a < n && 0 <= l < apps[a].labels@.len() implies (#[trigger] position(apps, a, l))
        < all_jobs(apps).len() && applies(all_jobs(apps)[position(apps, a, l)], apps[a], l) by {
        lemma_job_at(apps, n, a, l);
    }
}

/// When the scan of a namespace begins, the count of its applications grows by the number of
/// applications that are configured for it, and no other count changes.
pub proof fn law_scan_counts_the_configured_apps(
    namespace_spec: PodLabelerNamespacesSpec,
    metrics: MetricsView,
)
    requires
        namespace_spec.apps@.len() <= u64::MAX,
    ensures
        ({
            let after = ScanView::fresh(namespace_spec).counted(metrics, ScanEventView::Continue);
            let series = hashed(encode_utf8(namespace_spec.namespace@));
            &&& after.apps.contains_key(series)
            &&& after.apps[series] as int == (count_in(metrics.apps, series)
                + namespace_spec.apps@.len()) % 0x1_0000_0000_0000_0000
            &&& after.apps.remove(series) == metrics.apps.remove(series)
            &&& after == (MetricsView {
                apps: after.apps,
                app_labels: after.app_labels,
                ..metrics
            })
        }),
{
    let after = ScanView::fresh(namespace_spec).counted(metrics, ScanEventView::Continue);
    let series = series_of(namespace_spec.namespace@);
    assert(after.apps.remove(series) =~= metrics.apps.remove(series));
}

/// Whether `tail` is what is done from the assignment number `i` on: each assignment is asked for in
/// turn until one fails, and the outcome is told, which is success only if none is left.
pub open spec fn patches_in_turn(
    tail: Seq<ScanActionView>,
    server: Server,
    k: nat,
    namespace: Seq<char>,
    job: JobView,
    assignments: Seq<AssignmentView>,
    i: nat,
) -> bool {
    let sent = tail.len() - 1;
    &&& 0 <= sent <= assignments.len() - i
    &&& forall|a: int|
        0 <= a < sent ==> (#[trigger] tail[a]) is Patch && asks_for(
            tail[a]->Patch_0,
            namespace,
            job.label_name,
            assignments[i + a],
        )
    &&& forall|j: nat| i <= j < i + sent - 1 ==> (#[trigger] (server.failed)(k, j)) is None
    &&& if sent > 0 && (server.failed)(k, (i + sent - 1) as nat) is Some {
        tail.last() == (ScanActionView::Failed {
            app: job.app,
            error: LabelErrorView::Assign {
                cause: (server.failed)(k, (i + sent - 1) as nat)->0,
            },
        })
    } else {
        sent == assignments.len() - i && tail.last() == (ScanActionView::Applied { app: job.app })
    }
}

/// Whether `segment` is what is to be done for a label, given what the server replies: the label
/// fails at once if its percentages do not make 100; otherwise the pods of the application are
/// listed, and the assignments that the distribution comes to for them are asked for in turn.
pub open spec fn faithful(
    segment: Seq<ScanActionView>,
    server: Server,
    k: nat,
    namespace: Seq<char>,
    job: JobView,
) -> bool {
    let percentages = Seq::new(job.distribution.len(), |i: int| job.distribution[i].percentage);
    let sum = percentages.fold_left(
        Binary64::Finite(0),
        |sum: Binary64, percentage: Binary64| sum.plus(percentage),
    );
    let failed = |error: LabelErrorView| ScanActionView::Failed { app: job.app, error };
    if sum != Binary64::Finite((100 * units_per_one()) as int) {
        segment == seq![failed(LabelErrorView::PercentageSum)]
    } else {
        &&& segment.len() >= 2
        &&& segment[0] == ScanActionView::List(ListView { namespace, selector: "app="@ + job.app })
        &&& match (server.listed)(k) {
            Err(cause) => segment.skip(1) == seq![
                failed(LabelErrorView::ListPods { app: job.app, cause }),
            ],
            Ok(pods) => match plan(pods, job.label_name, job.distribution) {
                Err(error) => segment.skip(1) == seq![failed(LabelErrorView::Resolve(error))],
                Ok(assignments) => patches_in_turn(
                    segment.skip(1),
                    server,
                    k,
                    namespace,
                    job,
                    assignments,
                    0,
                ),
            },
        }
    }
}

proof fn lemma_patches_in_turn(
    server: Server,
    k: nat,
    namespace: Seq<char>,
    job: JobView,
    assignments: Seq<AssignmentView>,
    i: nat,
)
    requires
        i <= assignments.len(),
    ensures
        patches_in_turn(
            assigning_actions(server, k, namespace, job, assignments, i),
            server,
            k,
            namespace,
            job,
            assignments,
            i,
        ),
    decreases assignments.len() - i,
{
    let tail = assigning_actions(server, k, namespace, job, assignments, i);
    if i < assignments.len() {
        law_patch_sets_the_label(job.label_name, assignments[i as int].label_value);
        if (server.failed)(k, i) is None {
            let later = assigning_actions(server, k, namespace, job, assignments, i + 1);
            lemma_patches_in_turn(server, k, namespace, job, assignments, i + 1);
            let sent = tail.len() - 1;
            assert(tail.last() == later.last());
            assert forall|a: int| 0 <= a < sent implies (#[trigger] tail[a]) is Patch && asks_for(
                tail[a]->Patch_0,
                namespace,
                job.label_name,
                assignments[i + a],
            ) by {
                if a > 0 {
                    assert(tail[a] == later[a - 1]);
                }
            }
        }
    }
}

proof fn lemma_faithful(server: Server, k: nat, namespace: Seq<char>, job: JobView)
    ensures
        faithful(job_actions(server, k, namespace, job), server, k, namespace, job),
{
    let segment = job_actions(server, k, namespace, job);
    let percentages = Seq::new(job.distribution.len(), |i: int| job.distribution[i].percentage);
    assert(percentages =~= percentages_of(job.distribution));
    lemma_fold(percentages, |sum: Binary64, percentage: Binary64| sum.plus(percentage));
    if adds_up(job.distribution) {
        match (server.listed)(k) {
            Err(cause) => {
                assert(segment.skip(1) =~= seq![
                    ScanActionView::Failed {
                        app: job.app,
                        error: LabelErrorView::ListPods { app: job.app, cause },
                    },
                ]);
            },
            Ok(pods) => {
                match plan(pods, job.label_name, job.distribution) {
                    Err(error) => {
                        assert(segment.skip(1) =~= seq![
                            ScanActionView::Failed {
                                app: job.app,
                                error: LabelErrorView::Resolve(error),
                            },
                        ]);
                    },
                    Ok(assignments) => {
                        let tail = assigning_actions(server, k, namespace, job, assignments, 0);
                        assert(segment.skip(1) =~= tail);
                        lemma_patches_in_turn(server, k, namespace, job, assignments, 0);
                    },
                }
            },
        }
    }
}

/// The actions of all segments, one after the other.
pub open spec fn strung_together(segments: Seq<Seq<ScanActionView>>) -> Seq<ScanActionView> {
    segments.fold_left(
        Seq::empty(),
        |all: Seq<ScanActionView>, segment: Seq<ScanActionView>| all + segment,
    )
}

proof fn lemma_strung_together(
    server: Server,
    scan: ScanView,
    segments: Seq<Seq<ScanActionView>>,
    k: nat,
)
    requires
        k <= scan.jobs.len(),
        segments == Seq::new(
            k,
            |j: int| job_actions(server, j as nat, scan.namespace, scan.jobs[j]),
        ),
    ensures
        strung_together(segments) == jobs_actions(server, scan, k),
    decreases k,
{
    if k > 0 {
        let front = Seq::new(
            (k - 1) as nat,
            |j: int| job_actions(server, j as nat, scan.namespace, scan.jobs[j]),
        );
        assert(segments.drop_last() =~= front);
        lemma_strung_together(server, scan, front, (k - 1) as nat);
    }
}

/// A scan comes to an end whatever the server replies, and what it does until then falls into one
/// segment for each of its labels, in their order, each of which is what is to be done for that
/// label. The applications are counted first; then the pods of a label are counted if it has been
/// applied, as many as were patched, and nothing else is.
pub proof fn law_scan_serves_every_label(
    namespace_spec: PodLabelerNamespacesSpec,
    server: Server,
    metrics: MetricsView,
) -> (run: (nat, Seq<Seq<ScanActionView>>, Seq<MetricsView>))
    ensures
        ({
            let scan = ScanView::fresh(namespace_spec);
            let start = Progress { scan, metrics, actions: Seq::empty() };
            let (n, segments, counts) = run;
            let end = start.after(server, n);
            &&& end.scan.stage is Finished
            &&& end.actions == strung_together(segments).push(ScanActionView::Finished)
            &&& end.metrics == counts.last()
            &&& segments.len() == labels_before(namespace_spec.apps@, namespace_spec.apps@.len() as int)
            &&& forall|k: int|
                0 <= k < segments.len() ==> faithful(
                    #[trigger] segments[k],
                    server,
                    k as nat,
                    namespace_spec.namespace@,
                    scan.jobs[k],
                )
            &&& counts.len() == segments.len() + 1
            &&& counts[0] == metrics.apps_recorded(
                namespace_spec.namespace@,
                namespace_spec.apps@.len() as u64,
            )
            &&& forall|k: int|
                0 <= k < segments.len() ==> counts[k + 1] == if (
                #[trigger] segments[k]).last() is Applied {
                    counts[k].pods_recorded(
                        namespace_spec.namespace@,
                        scan.jobs[k].app,
                        (segments[k].len() - 2) as u64,
                    )
                } else {
                    counts[k]
                }
        }),
{
    let scan = ScanView::fresh(namespace_spec);
    let len = scan.jobs.len();
    let segments = Seq::new(
        len,
        |j: int| job_actions(server, j as nat, scan.namespace, scan.jobs[j]),
    );
    let begun = metrics.apps_recorded(scan.namespace, scan.app_count as u64);
    let counts = Seq::new(len + 1, |k: int| jobs_counted(server, scan, k as nat, begun));
    let n = law_every_label_has_its_turn(namespace_spec, server, metrics);
    law_fresh_scan_has_every_label(namespace_spec);
    lemma_strung_together(server, scan, segments, len);
    assert forall|k: int| 0 <= k < segments.len() implies faithful(
        #[trigger] segments[k],
        server,
        k as nat,
        namespace_spec.namespace@,
        scan.jobs[k],
    ) by {
        lemma_faithful(server, k as nat, scan.namespace, scan.jobs[k]);
    }
    assert forall|k: int| 0 <= k < segments.len() implies counts[k + 1] == if (
    #[trigger] segments[k]).last() is Applied {
        counts[k].pods_recorded(
            namespace_spec.namespace@,
            scan.jobs[k].app,
            (segments[k].len() - 2) as u64,
        )
    } else {
        counts[k]
    } by {
        law_a_label_has_one_outcome(server, k as nat, scan.namespace, scan.jobs[k]);
        assert(counts[k + 1] == job_counted(
            server,
            k as nat,
            scan.namespace,
            scan.jobs[k],
            counts[k],
        ));
    }
    (n, segments, counts)
}

/// Requests, replies and pods are what their fields say.
pub proof fn law_views_show_the_fields(
    list: ListRequest,
    patch: PatchRequest,
    reply: Reply,
    pod: Pod,
    pods: Seq<Pod>,
    assignment: PodAssignment,
    assignments: Seq<PodAssignment>,
)
    ensures
        list@ == (ListView { namespace: list.namespace@, selector: list.selector@ }),
        patch@.namespace == patch.namespace@,
        patch@.pod_name == patch.pod_name@,
        patch@.field_manager == patch.field_manager@,
        patch@.body == patch.body@,
        match reply {
            Reply::Listed(listed) => {
                &&& reply@ is Listed
                &&& reply@->Listed_0.len() == listed@.len()
                &&& forall|i: int|
                    0 <= i < listed@.len() ==> #[trigger] reply@->Listed_0[i] == listed@[i]@
            },
            Reply::ListFailed(cause) => reply@ == ReplyView::ListFailed(cause@),
            Reply::Patched => reply@ is Patched,
            Reply::PatchFailed(cause) => reply@ == ReplyView::PatchFailed(cause@),
        },
        pod.name is None <==> pod@.name is None,
        pod.name is Some ==> pod@.name == Some(pod.name->0@),
        pod_views(pods).len() == pods.len(),
        forall|i: int| 0 <= i < pods.len() ==> #[trigger] pod_views(pods)[i] == pods[i]@,
        assignment@.pod_name == assignment.pod_name@,
        assignment@.label_value == assignment.label_value@,
        assignment_views(assignments).len() == assignments.len(),
        forall|i: int|
            0 <= i < assignments.len() ==> #[trigger] assignment_views(assignments)[i]
                == assignments[i]@,
{
}

/// Actions and errors are what their fields say.
pub proof fn law_views_show_the_actions(action: ScanAction, error: LabelError)
    ensures
        match action {
            ScanAction::List(request) => action@ == ScanActionView::List(request@),
            ScanAction::Patch(request) => action@ == ScanActionView::Patch(request@),
            ScanAction::Applied { app } => action@ == (ScanActionView::Applied { app: app@ }),
            ScanAction::Failed { app, error } => action@ == (ScanActionView::Failed {
                app: app@,
                error: error@,
            }),
            ScanAction::Finished => action@ is Finished,
        },
        match error {
            LabelError::PercentageSum => error@ is PercentageSum,
            LabelError::ListPods { app, cause } => error@ == (LabelErrorView::ListPods {
                app: app@,
                cause: cause@,
            }),
            LabelError::Resolve(inner) => error@ == LabelErrorView::Resolve(inner),
            LabelError::Assign { cause } => error@ == (LabelErrorView::Assign { cause: cause@ }),
        },
{
}

/// Whatever the server replies to what was asked for, the label and the scan can go on with it; and
/// a scan that waits for no reply can go on without one.
pub proof fn law_every_reply_is_welcome(scan: ScanView, pods: Seq<PodView>, cause: Seq<char>)
    ensures
        match scan.stage {
            ScanStageView::Busy(labeling) => match labeling.stage {
                StageView::Listing => {
                    &&& labeling.awaits(ReplyView::Listed(pods))
                    &&& labeling.awaits(ReplyView::ListFailed(cause))
                    &&& scan.awaits(ScanEventView::Reply(ReplyView::Listed(pods)))
                    &&& scan.awaits(ScanEventView::Reply(ReplyView::ListFailed(cause)))
                },
                StageView::Assigning { .. } => {
                    &&& labeling.awaits(ReplyView::Patched)
                    &&& labeling.awaits(ReplyView::PatchFailed(cause))
                    &&& scan.awaits(ScanEventView::Reply(ReplyView::Patched))
                    &&& scan.awaits(ScanEventView::Reply(ReplyView::PatchFailed(cause)))
                },
            },
            _ => scan.awaits(ScanEventView::Continue),
        },
{
}

/// The registry is asked about a count once, when the count is first used: a registration that has
/// been settled stays, and so do those of the other counts.
pub proof fn law_registrations_are_settled_once(
    before: Registrations,
    count: Count,
    other: Count,
    after: Registrations,
)
    requires
        before.used(count, after),
    ensures
        after.of(count) !is Unused,
        before.of(count) !is Unused ==> after.of(count) == before.of(count),
        other != count ==> after.of(other) == before.of(other),
{
}

} // verus!
