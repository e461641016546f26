//! What the controller does with its configuration.
//!
//! A reconciliation scans the configured namespaces, each on its own. A [`NamespaceScan`] goes
//! through the labels of a namespace one after the other; [`scan_apps`] says what to do next.

use crate::config::{
    value_shares, KdynarollConfigSpec, PodLabelerAppSpec, PodLabelerNamespacesSpec,
    PodLabelerValueDistributionSpec, ValueShare,
};
use crate::labeler::{
    apply_labels_to_app, LabelError, LabelErrorView, Labeling, LabelingStep, LabelingStepView,
    LabelingView, ListRequest, ListView, PatchRequest, PatchView, Reply, ReplyView,
};
use crate::metrics::{
    count_in, law_results_are_counted_apart, record_app_count, record_namespace_count,
    record_reconcile_cycle, series_of, settled, Count, Metrics, MetricsView, Registrations,
};
use vstd::pervasive::unreached;
use vstd::prelude::*;

verus! {

/// After how many seconds a configuration is reconciled again.
pub const REQUEUE_SECONDS: u64 = 300;

/// Where the controller finds its configuration.
#[derive(Debug)]
pub struct ControllerWatch {
    pub namespace: String,
    pub field_selector: String,
}

/// The configuration to watch: the one of the controller's name, in the namespace of the
/// controller if that is known and in the default one otherwise.
pub fn start_controller(pod_namespace: Option<String>) -> (watch: ControllerWatch)
    ensures
        watch.namespace@ == match pod_namespace {
            Some(namespace) => namespace@,
            None => "default"@,
        },
        watch.field_selector@ == "metadata.name=kdynaroll-controller-config"@,
{
    ControllerWatch {
        namespace: match pod_namespace {
            Some(namespace) => namespace,
            None => "default".to_owned(),
        },
        field_selector: "metadata.name=kdynaroll-controller-config".to_owned(),
    }
}

/// A label to apply to an application.
#[derive(Debug)]
struct LabelJob {
    app: String,
    label_name: String,
    distribution: Vec<PodLabelerValueDistributionSpec>,
}

/// How far the scan of a namespace has come.
#[derive(Debug)]
pub struct NamespaceScan {
    namespace: String,
    app_count: usize,
    jobs: Vec<LabelJob>,
    next: usize,
    stage: ScanStage,
}

#[derive(Debug)]
enum ScanStage {
    /// Nothing has been done yet.
    Start,
    /// The next label is to begin.
    Ready,
    /// The next label is being applied.
    Busy(Labeling),
    /// There are no more labels.
    Finished,
}

/// What a scan goes on with.
#[derive(Debug)]
pub enum ScanEvent {
    /// The last action asked for nothing, or there was none.
    Continue,
    /// The reply to the request that was the last action.
    Reply(Reply),
}

/// What is to be done for a scan.
#[derive(Debug)]
pub enum ScanAction {
    /// Ask for pods, and go on with the reply.
    List(ListRequest),
    /// Ask for a pod to be patched, and go on with the reply.
    Patch(PatchRequest),
    /// Note that a label of the application has been applied, and continue.
    Applied { app: String },
    /// Note that a label of the application has failed, and continue.
    Failed { app: String, error: LabelError },
    /// Nothing: the scan is over.
    Finished,
}

/// What a scan knows of a label to apply.
pub struct JobView {
    pub app: Seq<char>,
    pub label_name: Seq<char>,
    pub distribution: Seq<ValueShare>,
}

/// What a [`NamespaceScan`] stands at.
pub struct ScanView {
    pub namespace: Seq<char>,
    pub app_count: nat,
    pub jobs: Seq<JobView>,
    pub next: nat,
    pub stage: ScanStageView,
}

/// What a scan is about to do or waits for.
pub enum ScanStageView {
    Start,
    Ready,
    Busy(LabelingView),
    Finished,
}

/// What a [`ScanEvent`] says.
pub enum ScanEventView {
    Continue,
    Reply(ReplyView),
}

/// What a [`ScanAction`] says.
pub enum ScanActionView {
    List(ListView),
    Patch(PatchView),
    Applied { app: Seq<char> },
    Failed { app: Seq<char>, error: LabelErrorView },
    Finished,
}

impl View for LabelJob {
    type V = JobView;

    closed spec fn view(&self) -> JobView {
        JobView {
            app: self.app@,
            label_name: self.label_name@,
            distribution: value_shares(self.distribution@),
        }
    }
}

impl View for ScanStage {
    type V = ScanStageView;

    closed spec fn view(&self) -> ScanStageView {
        match self {
            ScanStage::Start => ScanStageView::Start,
            ScanStage::Ready => ScanStageView::Ready,
            ScanStage::Busy(labeling) => ScanStageView::Busy(labeling@),
            ScanStage::Finished => ScanStageView::Finished,
        }
    }
}

impl View for NamespaceScan {
    type V = ScanView;

    closed spec fn view(&self) -> ScanView {
        ScanView {
            namespace: self.namespace@,
            app_count: self.app_count as nat,
            jobs: job_views(self.jobs@),
            next: self.next as nat,
            stage: self.stage@,
        }
    }
}

impl View for ScanEvent {
    type V = ScanEventView;

    open spec fn view(&self) -> ScanEventView {
        match self {
            ScanEvent::Continue => ScanEventView::Continue,
            ScanEvent::Reply(reply) => ScanEventView::Reply(reply@),
        }
    }
}

impl View for ScanAction {
    type V = ScanActionView;

    open spec fn view(&self) -> ScanActionView {
        match self {
            ScanAction::List(request) => ScanActionView::List(request@),
            ScanAction::Patch(request) => ScanActionView::Patch(request@),
            ScanAction::Applied { app } => ScanActionView::Applied { app: app@ },
            ScanAction::Failed { app, error } => ScanActionView::Failed { app: app@, error: error@ },
            ScanAction::Finished => ScanActionView::Finished,
        }
    }
}

closed spec fn job_views(jobs: Seq<LabelJob>) -> Seq<JobView> {
    Seq::new(jobs.len(), |i: int| jobs[i]@)
}

/// The labels of one application, in order.
pub open spec fn app_jobs(app: PodLabelerAppSpec) -> Seq<JobView> {
    Seq::new(
        app.labels@.len(),
        |i: int|
            JobView {
                app: app.app@,
                label_name: app.labels@[i].label_name@,
                distribution: value_shares(app.labels@[i].label_value_distribution@),
            },
    )
}

/// The labels of applications, in order.
pub open spec fn all_jobs(apps: Seq<PodLabelerAppSpec>) -> Seq<JobView>
    decreases apps.len(),
{
    if apps.len() == 0 {
        Seq::empty()
    } else {
        all_jobs(apps.drop_last()) + app_jobs(apps.last())
    }
}

impl ScanView {
    /// The scan of a namespace before anything has been done.
    pub open spec fn fresh(namespace_spec: PodLabelerNamespacesSpec) -> ScanView {
        ScanView {
            namespace: namespace_spec.namespace@,
            app_count: namespace_spec.apps@.len(),
            jobs: all_jobs(namespace_spec.apps@),
            next: 0,
            stage: ScanStageView::Start,
        }
    }

    /// The label that is being applied is one of the labels, and well-formed.
    pub open spec fn wf(self) -> bool {
        &&& self.next <= self.jobs.len()
        &&& match self.stage {
            ScanStageView::Busy(labeling) => {
                &&& self.next < self.jobs.len()
                &&& labeling.wf()
                &&& labeling.namespace == self.namespace
                &&& labeling.app == self.jobs[self.next as int].app
            },
            _ => true,
        }
    }

    /// Whether the scan can go on with `event`.
    pub open spec fn awaits(self, event: ScanEventView) -> bool {
        match self.stage {
            ScanStageView::Busy(labeling) => event is Reply && labeling.awaits(event->Reply_0),
            _ => event is Continue,
        }
    }

    /// The first step for the next label.
    pub open spec fn first_step(self) -> LabelingStepView {
        let job = self.jobs[self.next as int];
        LabelingView::begin(self.namespace, job.app, job.label_name, job.distribution)
    }

    /// The scan and the action after a step for the next label.
    pub open spec fn took(self, step: LabelingStepView) -> (ScanView, ScanActionView) {
        let app = self.jobs[self.next as int].app;
        match step {
            LabelingStepView::List(labeling, request) => (
                ScanView { stage: ScanStageView::Busy(labeling), ..self },
                ScanActionView::List(request),
            ),
            LabelingStepView::Patch(labeling, request) => (
                ScanView { stage: ScanStageView::Busy(labeling), ..self },
                ScanActionView::Patch(request),
            ),
            LabelingStepView::Done(Ok(_)) => (
                ScanView { next: self.next + 1, stage: ScanStageView::Ready, ..self },
                ScanActionView::Applied { app },
            ),
            LabelingStepView::Done(Err(error)) => (
                ScanView { next: self.next + 1, stage: ScanStageView::Ready, ..self },
                ScanActionView::Failed { app, error },
            ),
        }
    }

    /// The scan and the action after `event`.
    pub open spec fn step(self, event: ScanEventView) -> (ScanView, ScanActionView) {
        match (self.stage, event) {
            (ScanStageView::Busy(labeling), ScanEventView::Reply(reply)) => self.took(
                labeling.step(reply),
            ),
            _ => if self.next < self.jobs.len() {
                self.took(self.first_step())
            } else {
                (
                    ScanView { stage: ScanStageView::Finished, ..self },
                    ScanActionView::Finished,
                )
            },
        }
    }

    /// Whether `event` takes the registrations from `before` to `after`: the count of applications
    /// is used when the scan begins, and the count of pods when a label has been applied.
    pub open spec fn registered(
        self,
        before: Registrations,
        event: ScanEventView,
        after: Registrations,
    ) -> bool {
        match (self.stage, event) {
            (ScanStageView::Start, _) => before.used(Count::Apps, after),
            (ScanStageView::Busy(labeling), ScanEventView::Reply(reply)) => labeling.registered(
                before,
                labeling.step(reply),
                after,
            ),
            _ => after == before,
        }
    }

    /// What is counted after `event`: the applications when the scan begins, and the pods of a
    /// label that has been applied.
    pub open spec fn counted(self, metrics: MetricsView, event: ScanEventView) -> MetricsView {
        match (self.stage, event) {
            (ScanStageView::Start, _) => metrics.apps_recorded(
                self.namespace,
                self.app_count as u64,
            ),
            (ScanStageView::Busy(labeling), ScanEventView::Reply(reply)) => labeling.counted(
                metrics,
                labeling.step(reply),
            ),
            _ => metrics,
        }
    }
}

impl NamespaceScan {
    /// The scan of a namespace, with nothing done yet.
    pub fn new(namespace_spec: &PodLabelerNamespacesSpec) -> (scan: NamespaceScan)
        ensures
            scan@ == ScanView::fresh(*namespace_spec),
            scan@.wf(),
    {
        let apps = &namespace_spec.apps;
        let mut jobs: Vec<LabelJob> = Vec::new();
        let mut a: usize = 0;
        assert(job_views(jobs@) =~= all_jobs(apps@.take(0)));
        while a < apps.len()
            invariant
                a <= apps@.len(),
                job_views(jobs@) == all_jobs(apps@.take(a as int)),
            decreases apps@.len() - a,
        {
            let app = &apps[a];
            let ghost before = job_views(jobs@);
            let mut l: usize = 0;
            assert(job_views(jobs@) =~= before + app_jobs(*app).take(0));
            while l < app.labels.len()
                invariant
                    l <= app.labels@.len(),
                    job_views(jobs@) == before + app_jobs(*app).take(l as int),
                decreases app.labels@.len() - l,
            {
                let label = &app.labels[l];
                let ghost listed = jobs@;
                let distribution = label.label_value_distribution.clone();
                assert(value_shares(distribution@) =~= value_shares(
                    label.label_value_distribution@,
                ));
                jobs.push(
                    LabelJob {
                        app: app.app.clone(),
                        label_name: label.label_name.clone(),
                        distribution,
                    },
                );
                assert(job_views(jobs@) =~= job_views(listed).push(app_jobs(*app)[l as int]));
                assert(app_jobs(*app).take(l + 1) =~= app_jobs(*app).take(l as int).push(
                    app_jobs(*app)[l as int],
                ));
                l = l + 1;
            }
            assert(app_jobs(*app).take(l as int) =~= app_jobs(*app));
            assert(apps@.take(a + 1).drop_last() =~= apps@.take(a as int));
            a = a + 1;
        }
        assert(apps@.take(a as int) =~= apps@);
        NamespaceScan {
            namespace: namespace_spec.namespace.clone(),
            app_count: namespace_spec.apps.len(),
            jobs,
            next: 0,
            stage: ScanStage::Start,
        }
    }

    /// Goes on after a step for the next label.
    fn take_step(self, step: LabelingStep) -> (next: (NamespaceScan, ScanAction))
        requires
            self@.next < self@.jobs.len(),
            step@.wf(),
        ensures
            (next.0@, next.1@) == self@.took(step@),
    {
        assert(self.jobs.len() == self@.jobs.len());
        match step {
            LabelingStep::List(labeling, request) => (
                NamespaceScan { stage: ScanStage::Busy(labeling), ..self },
                ScanAction::List(request),
            ),
            LabelingStep::Patch(labeling, request) => (
                NamespaceScan { stage: ScanStage::Busy(labeling), ..self },
                ScanAction::Patch(request),
            ),
            LabelingStep::Done(Ok(_)) => {
                let app = self.jobs[self.next].app.clone();
                (
                    NamespaceScan { next: self.next + 1, stage: ScanStage::Ready, ..self },
                    ScanAction::Applied { app },
                )
            },
            LabelingStep::Done(Err(error)) => {
                let app = self.jobs[self.next].app.clone();
                (
                    NamespaceScan { next: self.next + 1, stage: ScanStage::Ready, ..self },
                    ScanAction::Failed { app, error },
                )
            },
        }
    }

    /// Begins with the next label, if there is one.
    fn begin_next(self) -> (next: (NamespaceScan, ScanAction))
        requires
            self@.wf(),
        ensures
            (next.0@, next.1@) == if self@.next < self@.jobs.len() {
                self@.took(self@.first_step())
            } else {
                (
                    (ScanView { stage: ScanStageView::Finished, ..self@ }),
                    ScanActionView::Finished,
                )
            },
            next.0@.wf(),
    {
        if self.next < self.jobs.len() {
            let job = &self.jobs[self.next];
            let step = apply_labels_to_app(
                self.namespace.as_str(),
                job.app.as_str(),
                job.label_name.as_str(),
                &job.distribution,
            );
            assert(job_views(self.jobs@)[self.next as int] == job@);
            self.take_step(step)
        } else {
            (NamespaceScan { stage: ScanStage::Finished, ..self }, ScanAction::Finished)
        }
    }
}

/// Goes on with the scan of a namespace after `event`.
///
/// The labels are applied one after the other, whether or not those before were.
pub fn scan_apps(metrics: &mut Metrics, scan: NamespaceScan, event: ScanEvent) -> (next: (
    NamespaceScan,
    ScanAction,
))
    requires
        old(metrics).wf(),
        scan@.wf(),
        scan@.awaits(event@),
    ensures
        (next.0@, next.1@) == scan@.step(event@),
        next.0@.wf(),
        final(metrics).wf(),
        final(metrics)@ == scan@.counted(old(metrics)@, event@),
        scan@.registered(old(metrics).registrations(), event@, final(metrics).registrations()),
{
    match (scan.stage, event) {
        (ScanStage::Busy(labeling), ScanEvent::Reply(reply)) => {
            let step = labeling.resume(metrics, reply);
            NamespaceScan { stage: ScanStage::Ready, ..scan }.take_step(step)
        },
        (ScanStage::Start, ScanEvent::Continue) => {
            record_app_count(metrics, scan.namespace.as_str(), scan.app_count as u64);
            NamespaceScan { stage: ScanStage::Ready, ..scan }.begin_next()
        },
        (ScanStage::Ready, ScanEvent::Continue) => {
            NamespaceScan { stage: ScanStage::Ready, ..scan }.begin_next()
        },
        (ScanStage::Finished, ScanEvent::Continue) => {
            NamespaceScan { stage: ScanStage::Finished, ..scan }.begin_next()
        },
        _ => unreached(),
    }
}

/// Whether `scans` are the scans of `namespaces`, in order, with nothing done yet.
pub open spec fn fresh_scans(
    scans: Seq<NamespaceScan>,
    namespaces: Seq<PodLabelerNamespacesSpec>,
) -> bool {
    &&& scans.len() == namespaces.len()
    &&& forall|i: int|
        0 <= i < scans.len() ==> (#[trigger] scans[i])@ == ScanView::fresh(namespaces[i])
            && scans[i]@.wf()
}

/// The scans of all configured namespaces, to be carried out independently of each other.
pub fn scan_namespaces(metrics: &mut Metrics, ctrl_config: &KdynarollConfigSpec) -> (scans: Vec<
    NamespaceScan,
>)
    requires
        old(metrics).wf(),
    ensures
        fresh_scans(scans@, ctrl_config.pod_labeler.namespaces@),
        scans@.len() == ctrl_config.pod_labeler.namespaces@.len(),
        forall|i: int|
            0 <= i < scans@.len() ==> (#[trigger] scans@[i])@ == ScanView::fresh(
                ctrl_config.pod_labeler.namespaces@[i],
            ),
        final(metrics).wf(),
        final(metrics)@ == old(metrics)@.namespaces_recorded(
            ctrl_config.pod_labeler.namespaces@.len() as u64,
        ),
        old(metrics).registrations().used(Count::Namespaces, final(metrics).registrations()),
{
    let namespaces = &ctrl_config.pod_labeler.namespaces;
    record_namespace_count(metrics, namespaces.len() as u64);
    let mut scans: Vec<NamespaceScan> = Vec::new();
    let mut i: usize = 0;
    while i < namespaces.len()
        invariant
            i <= namespaces@.len(),
            fresh_scans(scans@, namespaces@.take(i as int)),
        decreases namespaces@.len() - i,
    {
        let ghost before = scans@;
        scans.push(NamespaceScan::new(&namespaces[i]));
        i = i + 1;
        assert forall|j: int| 0 <= j < scans@.len() implies (#[trigger] scans@[j])@
            == ScanView::fresh(namespaces@.take(i as int)[j]) && scans@[j]@.wf() by {
            if j < before.len() {
                assert(scans@[j] == before[j]);
            }
        }
    }
    assert(namespaces@.take(i as int) =~= namespaces@);
    scans
}

/// What a reconciliation comes to.
#[derive(Debug)]
pub struct Reconciliation {
    /// The scans to carry out.
    pub scans: Vec<NamespaceScan>,
    /// After how many seconds to reconcile again.
    pub requeue_seconds: u64,
}

/// Reconciles the configuration: scans its namespaces, and comes back after a while.
///
/// A reconciliation counts as a success, whatever becomes of its scans; the count of failures
/// stays.
pub fn reconcile(metrics: &mut Metrics, config: &KdynarollConfigSpec) -> (reconciliation:
    Reconciliation)
    requires
        old(metrics).wf(),
    ensures
        fresh_scans(reconciliation.scans@, config.pod_labeler.namespaces@),
        reconciliation.scans@.len() == config.pod_labeler.namespaces@.len(),
        forall|i: int|
            0 <= i < reconciliation.scans@.len() ==> (#[trigger] reconciliation.scans@[i])@
                == ScanView::fresh(config.pod_labeler.namespaces@[i]),
        reconciliation.requeue_seconds == REQUEUE_SECONDS,
        reconciliation.requeue_seconds == 300,
        final(metrics).wf(),
        final(metrics)@ == old(metrics)@.cycle_recorded("success"@).namespaces_recorded(
            config.pod_labeler.namespaces@.len() as u64,
        ),
        settled(
            old(metrics).registrations().reconcile_cycles,
            final(metrics).registrations().reconcile_cycles,
        ),
        settled(
            old(metrics).registrations().namespaces,
            final(metrics).registrations().namespaces,
        ),
        final(metrics).registrations().apps == old(metrics).registrations().apps,
        final(metrics).registrations().pods == old(metrics).registrations().pods,
        count_in(final(metrics)@.reconcile_cycles, series_of("error"@)) == count_in(
            old(metrics)@.reconcile_cycles,
            series_of("error"@),
        ),
{
    proof {
        law_results_are_counted_apart(metrics@);
    }
    record_reconcile_cycle(metrics, "success");
    let scans = scan_namespaces(metrics, config);
    Reconciliation { scans, requeue_seconds: REQUEUE_SECONDS }
}

/// After how many seconds to reconcile again when a reconciliation has failed. The failure is
/// counted, and the count of successes stays.
pub fn error_policy(metrics: &mut Metrics) -> (requeue_seconds: u64)
    requires
        old(metrics).wf(),
    ensures
        requeue_seconds == REQUEUE_SECONDS,
        requeue_seconds == 300,
        final(metrics).wf(),
        final(metrics)@ == old(metrics)@.cycle_recorded("error"@),
        old(metrics).registrations().used(Count::ReconcileCycles, final(metrics).registrations()),
        count_in(final(metrics)@.reconcile_cycles, series_of("success"@)) == count_in(
            old(metrics)@.reconcile_cycles,
            series_of("success"@),
        ),
{
    proof {
        law_results_are_counted_apart(metrics@);
    }
    record_reconcile_cycle(metrics, "error");
    REQUEUE_SECONDS
}

} // verus!
