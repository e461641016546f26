//! What a scan does in the end, whatever the API server replies.

use crate::config::PodLabelerNamespacesSpec;
use crate::controller::{JobView, ScanActionView, ScanEventView, ScanStageView, ScanView};
use crate::labeler::{
    patch_for, plan, LabelErrorView, LabelingView, ListView, ReplyView, StageView,
};
use crate::metrics::MetricsView;
use crate::pod::PodView;
use crate::quota::adds_up;
use crate::resolve::AssignmentView;
use vstd::prelude::*;

verus! {

/// The replies of the API server to the requests of a scan.
pub struct Server {
    /// The pods for the label of this number, or the cause why there are none.
    pub listed: spec_fn(nat) -> Result<Seq<PodView>, Seq<char>>,
    /// The cause why, for the label of this number, the assignment of that number failed, if it
    /// did.
    pub failed: spec_fn(nat, nat) -> Option<Seq<char>>,
}

impl Server {
    /// The reply that a labelling waits for, for the label number `k`.
    pub open spec fn reply(self, k: nat, labeling: LabelingView) -> ReplyView {
        match labeling.stage {
            StageView::Listing => match (self.listed)(k) {
                Ok(pods) => ReplyView::Listed(pods),
                Err(cause) => ReplyView::ListFailed(cause),
            },
            StageView::Assigning { assigned, .. } => match (self.failed)(k, assigned) {
                Some(cause) => ReplyView::PatchFailed(cause),
                None => ReplyView::Patched,
            },
        }
    }

    /// What the scan goes on with.
    pub open spec fn event(self, scan: ScanView) -> ScanEventView {
        match scan.stage {
            ScanStageView::Busy(labeling) => ScanEventView::Reply(self.reply(scan.next, labeling)),
            _ => ScanEventView::Continue,
        }
    }
}

/// A scan on its way: where it stands, what is counted, and what was done so far.
pub struct Progress {
    pub scan: ScanView,
    pub metrics: MetricsView,
    pub actions: Seq<ScanActionView>,
}

impl Progress {
    /// The progress after one more event.
    #[verifier::opaque]
    pub open spec fn advanced(self, server: Server) -> Progress {
        let event = server.event(self.scan);
        let (scan, action) = self.scan.step(event);
        Progress {
            scan,
            metrics: self.scan.counted(self.metrics, event),
            actions: self.actions.push(action),
        }
    }

    /// The progress after `n` more events.
    pub open spec fn after(self, server: Server, n: nat) -> Progress
        decreases n,
    {
        if n == 0 {
            self
        } else {
            self.after(server, (n - 1) as nat).advanced(server)
        }
    }
}

/// What is done for a label from the assignment number `i` on.
pub open spec fn assigning_actions(
    server: Server,
    k: nat,
    namespace: Seq<char>,
    job: JobView,
    assignments: Seq<AssignmentView>,
    i: nat,
) -> Seq<ScanActionView>
    decreases assignments.len() - i,
{
    if i >= assignments.len() {
        seq![ScanActionView::Applied { app: job.app }]
    } else {
        seq![ScanActionView::Patch(patch_for(namespace, job.label_name, assignments[i as int]))]
            + match (server.failed)(k, i) {
            Some(cause) => seq![
                ScanActionView::Failed { app: job.app, error: LabelErrorView::Assign { cause } },
            ],
            None => assigning_actions(server, k, namespace, job, assignments, i + 1),
        }
    }
}

/// What is done for the label `job`, which is the label number `k`: its pods are asked for and,
/// as long as nothing fails, patched one after the other, and the outcome is noted.
pub open spec fn job_actions(server: Server, k: nat, namespace: Seq<char>, job: JobView) -> Seq<
    ScanActionView,
> {
    if !adds_up(job.distribution) {
        seq![ScanActionView::Failed { app: job.app, error: LabelErrorView::PercentageSum }]
    } else {
        seq![ScanActionView::List(ListView { namespace, selector: "app="@ + job.app })] + match (
        server.listed)(k) {
            Err(cause) => seq![
                ScanActionView::Failed {
                    app: job.app,
                    error: LabelErrorView::ListPods { app: job.app, cause },
                },
            ],
            Ok(pods) => match plan(pods, job.label_name, job.distribution) {
                Err(error) => seq![
                    ScanActionView::Failed { app: job.app, error: LabelErrorView::Resolve(error) },
                ],
                Ok(assignments) => assigning_actions(server, k, namespace, job, assignments, 0),
            },
        }
    }
}

/// Whether, for the label number `k`, none of the assignments from `i` to `n` fails.
pub open spec fn none_fails(server: Server, k: nat, i: nat, n: nat) -> bool {
    forall|j: nat| i <= j < n ==> (#[trigger] (server.failed)(k, j)) is None
}

/// The assignments that apply the label number `k`, if nothing fails.
pub open spec fn applied(server: Server, k: nat, job: JobView) -> Option<Seq<AssignmentView>> {
    if !adds_up(job.distribution) || (server.listed)(k) is Err {
        None
    } else {
        match plan((server.listed)(k)->Ok_0, job.label_name, job.distribution) {
            Err(_) => None,
            Ok(assignments) => if none_fails(server, k, 0, assignments.len()) {
                Some(assignments)
            } else {
                None
            },
        }
    }
}

/// What is counted for the label number `k`: its assignments, if they have all been carried out.
pub open spec fn job_counted(
    server: Server,
    k: nat,
    namespace: Seq<char>,
    job: JobView,
    metrics: MetricsView,
) -> MetricsView {
    match applied(server, k, job) {
        Some(assignments) => metrics.pods_recorded(namespace, job.app, assignments.len() as u64),
        None => metrics,
    }
}

/// What is done for the first `k` labels.
pub open spec fn jobs_actions(server: Server, scan: ScanView, k: nat) -> Seq<ScanActionView>
    decreases k,
{
    if k == 0 {
        Seq::empty()
    } else {
        jobs_actions(server, scan, (k - 1) as nat) + job_actions(
            server,
            (k - 1) as nat,
            scan.namespace,
            scan.jobs[k - 1],
        )
    }
}

/// What is counted for the first `k` labels.
pub open spec fn jobs_counted(
    server: Server,
    scan: ScanView,
    k: nat,
    metrics: MetricsView,
) -> MetricsView
    decreases k,
{
    if k == 0 {
        metrics
    } else {
        job_counted(
            server,
            (k - 1) as nat,
            scan.namespace,
            scan.jobs[k - 1],
            jobs_counted(server, scan, (k - 1) as nat, metrics),
        )
    }
}

proof fn lemma_after_add(from: Progress, server: Server, m: nat, n: nat)
    ensures
        from.after(server, m).after(server, n) == from.after(server, m + n),
    decreases n,
{
    if n > 0 {
        lemma_after_add(from, server, m, (n - 1) as nat);
        assert((m + n - 1) as nat == m + (n - 1) as nat);
    }
}

/// The progress one event on, as the first of `n` more.
proof fn lemma_after_one(from: Progress, server: Server)
    ensures
        from.after(server, 1) == from.advanced(server),
{
    reveal_with_fuel(Progress::after, 2);
}

/// The reply to a request for a pod to be patched takes the scan to the next one, or ends the
/// label.
proof fn lemma_patch_reply(
    from: Progress,
    server: Server,
    labeling: LabelingView,
    assignments: Seq<AssignmentView>,
    i: nat,
)
    requires
        from.scan.stage == ScanStageView::Busy(labeling),
        labeling.stage == (StageView::Assigning { assignments, assigned: i }),
        i < assignments.len(),
    ensures
        ({
            let k = from.scan.next;
            let app = from.scan.jobs[k as int].app;
            let ended = ScanView { next: k + 1, stage: ScanStageView::Ready, ..from.scan };
            let next = LabelingView {
                stage: StageView::Assigning { assignments, assigned: i + 1 },
                ..labeling
            };
            from.advanced(server) == match (server.failed)(k, i) {
                Some(cause) => Progress {
                    scan: ended,
                    metrics: from.metrics,
                    actions: from.actions.push(
                        ScanActionView::Failed { app, error: LabelErrorView::Assign { cause } },
                    ),
                },
                None => if i + 1 < assignments.len() {
                    Progress {
                        scan: ScanView { stage: ScanStageView::Busy(next), ..from.scan },
                        metrics: from.metrics,
                        actions: from.actions.push(
                            ScanActionView::Patch(
                                patch_for(
                                    labeling.namespace,
                                    labeling.label_name,
                                    assignments[(i + 1) as int],
                                ),
                            ),
                        ),
                    }
                } else {
                    Progress {
                        scan: ended,
                        metrics: from.metrics.pods_recorded(
                            labeling.namespace,
                            labeling.app,
                            assignments.len() as u64,
                        ),
                        actions: from.actions.push(ScanActionView::Applied { app }),
                    }
                },
            }
        }),
{
    reveal(Progress::advanced);
}

/// From the request for the assignment number `i` the scan goes on to the next label.
proof fn lemma_assigning(
    from: Progress,
    server: Server,
    labeling: LabelingView,
    assignments: Seq<AssignmentView>,
    i: nat,
) -> (n: nat)
    requires
        from.scan.stage == ScanStageView::Busy(labeling),
        labeling.stage == (StageView::Assigning { assignments, assigned: i }),
        i < assignments.len(),
        from.scan.next < from.scan.jobs.len(),
        labeling.namespace == from.scan.namespace,
        labeling.app == from.scan.jobs[from.scan.next as int].app,
        labeling.label_name == from.scan.jobs[from.scan.next as int].label_name,
        from.actions.len() > 0,
        from.actions.last() == ScanActionView::Patch(
            patch_for(labeling.namespace, labeling.label_name, assignments[i as int]),
        ),
    ensures
        ({
            let k = from.scan.next;
            let to = from.after(server, n);
            &&& to.scan == (ScanView { next: k + 1, stage: ScanStageView::Ready, ..from.scan })
            &&& to.actions == from.actions.drop_last() + assigning_actions(
                server,
                k,
                from.scan.namespace,
                from.scan.jobs[k as int],
                assignments,
                i,
            )
            &&& to.metrics == if none_fails(server, k, i, assignments.len()) {
                from.metrics.pods_recorded(
                    labeling.namespace,
                    labeling.app,
                    assignments.len() as u64,
                )
            } else {
                from.metrics
            }
        }),
    decreases assignments.len() - i,
{
    let k = from.scan.next;
    let job = from.scan.jobs[k as int];
    let to = from.advanced(server);
    lemma_after_one(from, server);
    lemma_patch_reply(from, server, labeling, assignments, i);
    let actions = assigning_actions(server, k, from.scan.namespace, job, assignments, i);
    let later = assigning_actions(server, k, from.scan.namespace, job, assignments, i + 1);
    if (server.failed)(k, i) is Some {
        assert(to.actions =~= from.actions.drop_last() + actions);
        assert(!none_fails(server, k, i, assignments.len()));
        1
    } else {
        assert(actions == seq![from.actions.last()] + later);
        assert(none_fails(server, k, i, assignments.len()) == none_fails(
            server,
            k,
            i + 1,
            assignments.len(),
        )) by {
            if none_fails(server, k, i + 1, assignments.len()) {
                assert forall|j: nat| i <= j < assignments.len() implies (
                #[trigger] (server.failed)(k, j)) is None by {
                    if j > i {
                        assert((server.failed)(k, j) is None);
                    }
                }
            }
        }
        if i + 1 < assignments.len() {
            let next = to.scan.stage->Busy_0;
            let n = lemma_assigning(to, server, next, assignments, i + 1);
            lemma_after_add(from, server, 1, n);
            assert(to.actions.drop_last() =~= from.actions);
            assert(from.actions + later =~= from.actions.drop_last() + actions);
            1 + n
        } else {
            assert(to.actions =~= from.actions.drop_last() + actions);
            1
        }
    }
}

/// What is counted once a scan has begun.
spec fn begun(from: Progress) -> MetricsView {
    match from.scan.stage {
        ScanStageView::Start => from.metrics.apps_recorded(
            from.scan.namespace,
            from.scan.app_count as u64,
        ),
        _ => from.metrics,
    }
}

/// A label whose percentages do not add up ends at once, and for another one the pods are asked
/// for.
proof fn lemma_begin(from: Progress, server: Server)
    requires
        from.scan.stage is Start || from.scan.stage is Ready,
        from.scan.next < from.scan.jobs.len(),
    ensures
        ({
            let k = from.scan.next;
            let job = from.scan.jobs[k as int];
            let labeling = LabelingView {
                namespace: from.scan.namespace,
                app: job.app,
                label_name: job.label_name,
                distribution: job.distribution,
                stage: StageView::Listing,
            };
            let request = ListView { namespace: from.scan.namespace, selector: "app="@ + job.app };
            from.advanced(server) == if adds_up(job.distribution) {
                Progress {
                    scan: ScanView { stage: ScanStageView::Busy(labeling), ..from.scan },
                    metrics: begun(from),
                    actions: from.actions.push(ScanActionView::List(request)),
                }
            } else {
                Progress {
                    scan: ScanView { next: k + 1, stage: ScanStageView::Ready, ..from.scan },
                    metrics: begun(from),
                    actions: from.actions.push(
                        ScanActionView::Failed {
                            app: job.app,
                            error: LabelErrorView::PercentageSum,
                        },
                    ),
                }
            }
        }),
{
    reveal(Progress::advanced);
}

/// The reply to a request for the pods takes the scan to the first assignment, or ends the label.
proof fn lemma_list_reply(from: Progress, server: Server, labeling: LabelingView)
    requires
        from.scan.stage == ScanStageView::Busy(labeling),
        labeling.stage is Listing,
    ensures
        ({
            let k = from.scan.next;
            let app = from.scan.jobs[k as int].app;
            let ended = ScanView { next: k + 1, stage: ScanStageView::Ready, ..from.scan };
            from.advanced(server) == match (server.listed)(k) {
                Err(cause) => Progress {
                    scan: ended,
                    metrics: from.metrics,
                    actions: from.actions.push(
                        ScanActionView::Failed {
                            app,
                            error: LabelErrorView::ListPods { app: labeling.app, cause },
                        },
                    ),
                },
                Ok(pods) => match plan(pods, labeling.label_name, labeling.distribution) {
                    Err(error) => Progress {
                        scan: ended,
                        metrics: from.metrics,
                        actions: from.actions.push(
                            ScanActionView::Failed { app, error: LabelErrorView::Resolve(error) },
                        ),
                    },
                    Ok(assignments) => if assignments.len() > 0 {
                        let next = LabelingView {
                            stage: StageView::Assigning { assignments, assigned: 0 },
                            ..labeling
                        };
                        Progress {
                            scan: ScanView { stage: ScanStageView::Busy(next), ..from.scan },
                            metrics: from.metrics,
                            actions: from.actions.push(
                                ScanActionView::Patch(
                                    patch_for(
                                        labeling.namespace,
                                        labeling.label_name,
                                        assignments[0],
                                    ),
                                ),
                            ),
                        }
                    } else {
                        Progress {
                            scan: ended,
                            metrics: from.metrics.pods_recorded(
                                labeling.namespace,
                                labeling.app,
                                0,
                            ),
                            actions: from.actions.push(ScanActionView::Applied { app }),
                        }
                    },
                },
            }
        }),
{
    reveal(Progress::advanced);
}

/// From one label the scan goes on to the next one, whatever the server replies.
proof fn lemma_job(from: Progress, server: Server) -> (n: nat)
    requires
        from.scan.stage is Start || from.scan.stage is Ready,
        from.scan.next < from.scan.jobs.len(),
    ensures
        ({
            let k = from.scan.next;
            let job = from.scan.jobs[k as int];
            from.after(server, n) == (Progress {
                scan: ScanView { next: k + 1, stage: ScanStageView::Ready, ..from.scan },
                metrics: job_counted(server, k, from.scan.namespace, job, begun(from)),
                actions: from.actions + job_actions(server, k, from.scan.namespace, job),
            })
        }),
{
    let k = from.scan.next;
    let namespace = from.scan.namespace;
    let job = from.scan.jobs[k as int];
    let actions = job_actions(server, k, namespace, job);
    let asked = from.advanced(server);
    lemma_after_one(from, server);
    lemma_begin(from, server);
    if !adds_up(job.distribution) {
        assert(asked.actions =~= from.actions + actions);
        1
    } else {
        let labeling = asked.scan.stage->Busy_0;
        let told = asked.advanced(server);
        lemma_list_reply(asked, server, labeling);
        lemma_after_one(asked, server);
        lemma_after_add(from, server, 1, 1);
        match (server.listed)(k) {
            Err(_) => {
                assert(told.actions =~= from.actions + actions);
                2
            },
            Ok(pods) => match plan(pods, job.label_name, job.distribution) {
                Err(_) => {
                    assert(told.actions =~= from.actions + actions);
                    2
                },
                Ok(assignments) => {
                    let rest = assigning_actions(server, k, namespace, job, assignments, 0);
                    assert(from.actions + actions =~= asked.actions + rest);
                    if assignments.len() > 0 {
                        let n = lemma_assigning(
                            told,
                            server,
                            told.scan.stage->Busy_0,
                            assignments,
                            0,
                        );
                        lemma_after_add(from, server, 2, n);
                        assert(told.actions.drop_last() =~= asked.actions);
                        2 + n
                    } else {
                        assert(told.actions =~= from.actions + actions);
                        2
                    }
                },
            },
        }
    }
}

/// The first `k` labels of a fresh scan are gone through.
proof fn lemma_jobs(from: Progress, server: Server, k: nat) -> (n: nat)
    requires
        from.scan.stage is Start,
        from.scan.next == 0,
        0 < k <= from.scan.jobs.len(),
    ensures
        from.after(server, n) == (Progress {
            scan: ScanView { next: k, stage: ScanStageView::Ready, ..from.scan },
            metrics: jobs_counted(server, from.scan, k, begun(from)),
            actions: from.actions + jobs_actions(server, from.scan, k),
        }),
    decreases k,
{
    if k == 1 {
        reveal_with_fuel(jobs_actions, 2);
        reveal_with_fuel(jobs_counted, 2);
        let n = lemma_job(from, server);
        assert(from.after(server, n).actions =~= from.actions + jobs_actions(server, from.scan, k));
        n
    } else {
        let m = lemma_jobs(from, server, (k - 1) as nat);
        let there = from.after(server, m);
        let n = lemma_job(there, server);
        lemma_after_add(from, server, m, n);
        assert(there.after(server, n).actions =~= from.actions + jobs_actions(
            server,
            from.scan,
            k,
        ));
        m + n
    }
}

/// A scan goes through all labels of the namespace in their order and comes to an end, whatever
/// the server replies: what fails for one label keeps no other label from being applied. The
/// applications are counted once, and the pods of a label exactly if all its assignments have
/// been carried out.
pub proof fn law_every_label_has_its_turn(
    namespace_spec: PodLabelerNamespacesSpec,
    server: Server,
    metrics: MetricsView,
) -> (n: nat)
    ensures
        ({
            let scan = ScanView::fresh(namespace_spec);
            let start = Progress { scan, metrics, actions: Seq::empty() };
            start.after(server, n) == (Progress {
                scan: ScanView {
                    next: scan.jobs.len(),
                    stage: ScanStageView::Finished,
                    ..scan
                },
                metrics: jobs_counted(
                    server,
                    scan,
                    scan.jobs.len(),
                    metrics.apps_recorded(scan.namespace, scan.app_count as u64),
                ),
                actions: jobs_actions(server, scan, scan.jobs.len()).push(ScanActionView::Finished),
            })
        }),
{
    let scan = ScanView::fresh(namespace_spec);
    let start = Progress { scan, metrics, actions: Seq::empty() };
    let actions = jobs_actions(server, scan, scan.jobs.len());
    let m = if scan.jobs.len() == 0 {
        0
    } else {
        lemma_jobs(start, server, scan.jobs.len())
    };
    let last = start.after(server, m);
    assert(last.actions =~= actions);
    lemma_after_one(last, server);
    lemma_after_add(start, server, m, 1);
    reveal(Progress::advanced);
    m + 1
}

/// What is done to a label when nothing fails: its pods are asked for, each assignment is asked for
/// in turn, and the label is noted as applied.
pub open spec fn applied_actions(
    namespace: Seq<char>,
    job: JobView,
    assignments: Seq<AssignmentView>,
) -> Seq<ScanActionView> {
    seq![ScanActionView::List(ListView { namespace, selector: "app="@ + job.app })] + Seq::new(
        assignments.len(),
        |i: int| ScanActionView::Patch(patch_for(namespace, job.label_name, assignments[i])),
    ) + seq![ScanActionView::Applied { app: job.app }]
}

/// Whether an action tells the outcome of a label of `app`.
pub open spec fn tells(action: ScanActionView, app: Seq<char>) -> bool {
    match action {
        ScanActionView::Applied { app: applied } => applied == app,
        ScanActionView::Failed { app: failed, .. } => failed == app,
        _ => false,
    }
}

proof fn lemma_assigning_outcome(
    server: Server,
    k: nat,
    namespace: Seq<char>,
    job: JobView,
    assignments: Seq<AssignmentView>,
    i: nat,
)
    requires
        i <= assignments.len(),
    ensures
        ({
            let actions = assigning_actions(server, k, namespace, job, assignments, i);
            &&& actions.len() > 0
            &&& tells(actions.last(), job.app)
            &&& forall|a: int|
                0 <= a < actions.len() - 1 ==> (#[trigger] actions[a]) is Patch
            &&& if none_fails(server, k, i, assignments.len()) {
                actions == Seq::new(
                    (assignments.len() - i) as nat,
                    |a: int|
                        ScanActionView::Patch(
                            patch_for(namespace, job.label_name, assignments[i + a]),
                        ),
                ).push(ScanActionView::Applied { app: job.app })
            } else {
                actions.last() is Failed
            }
        }),
    decreases assignments.len() - i,
{
    let actions = assigning_actions(server, k, namespace, job, assignments, i);
    let all = Seq::new(
        (assignments.len() - i) as nat,
        |a: int|
            ScanActionView::Patch(patch_for(namespace, job.label_name, assignments[i + a])),
    ).push(ScanActionView::Applied { app: job.app });
    if i < assignments.len() {
        if (server.failed)(k, i) is Some {
            assert(!none_fails(server, k, i, assignments.len()));
        } else {
            lemma_assigning_outcome(server, k, namespace, job, assignments, i + 1);
            let later = assigning_actions(server, k, namespace, job, assignments, i + 1);
            assert(actions.last() == later.last());
            assert forall|a: int| 0 <= a < actions.len() - 1 implies (
            #[trigger] actions[a]) is Patch by {
                if a > 0 {
                    assert(actions[a] == later[a - 1]);
                }
            }
            assert(none_fails(server, k, i, assignments.len()) == none_fails(
                server,
                k,
                i + 1,
                assignments.len(),
            )) by {
                if none_fails(server, k, i + 1, assignments.len()) {
                    assert forall|j: nat| i <= j < assignments.len() implies (
                    #[trigger] (server.failed)(k, j)) is None by {
                        if j > i {
                            assert((server.failed)(k, j) is None);
                        }
                    }
                }
            }
            if none_fails(server, k, i, assignments.len()) {
                assert(actions =~= all);
            }
        }
    } else {
        assert(none_fails(server, k, i, assignments.len()));
        assert(actions =~= all);
    }
}

/// A label has one outcome, which is told last, after nothing but requests. It is that the label
/// has been applied exactly if nothing failed, and every assignment was then asked for once and in
/// its order.
pub proof fn law_a_label_has_one_outcome(server: Server, k: nat, namespace: Seq<char>, job: JobView)
    ensures
        ({
            let actions = job_actions(server, k, namespace, job);
            &&& actions.len() > 0
            &&& tells(actions.last(), job.app)
            &&& forall|a: int|
                0 <= a < actions.len() - 1 ==> (#[trigger] actions[a]) is List || actions[a] is Patch
            &&& match applied(server, k, job) {
                Some(assignments) => actions == applied_actions(namespace, job, assignments),
                None => actions.last() is Failed,
            }
        }),
{
    let actions = job_actions(server, k, namespace, job);
    if adds_up(job.distribution) && (server.listed)(k) is Ok {
        let pods = (server.listed)(k)->Ok_0;
        if plan(pods, job.label_name, job.distribution) is Ok {
            let assignments = plan(pods, job.label_name, job.distribution)->Ok_0;
            lemma_assigning_outcome(server, k, namespace, job, assignments, 0);
            let later = assigning_actions(server, k, namespace, job, assignments, 0);
            assert(actions.last() == later.last());
            assert forall|a: int| 0 <= a < actions.len() - 1 implies (
            #[trigger] actions[a]) is List || actions[a] is Patch by {
                if a > 0 {
                    assert(actions[a] == later[a - 1]);
                }
            }
            if none_fails(server, k, 0, assignments.len()) {
                assert(actions =~= applied_actions(namespace, job, assignments));
            }
        }
    }
}

} // verus!
