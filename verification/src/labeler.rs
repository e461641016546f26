//! Applies a label to the pods of an application.
//!
//! The pods are known to the API server only. [`apply_labels_to_app`] begins with a request for
//! them; with every reply, [`Labeling::resume`] says what to ask for next, until the label is
//! applied or has failed.

use crate::binary64::{units_per_one, Binary64};
use crate::config::{value_shares, PodLabelerValueDistributionSpec, ValueShare};
use crate::json::{only, parse, Json};
use crate::metrics::{record_pod_count, Count, Metrics, MetricsView, Registrations};
use crate::patch::{label_patch, label_patch_text};
use crate::pod::{pod_views, Pod, PodView};
use crate::quota::{
    adds_up, all_numbers, calculate_pods_per_label, percentages_add_up, pods_per_label, ranked,
    sort_by_percentage,
};
use crate::resolve::{
    assignment_views, resolution, resolve_pods_to_label, AssignmentView, PodAssignment,
    ResolveError,
};
use crate::text::{decimal, decimal_text};
use vstd::pervasive::unreached;
use vstd::prelude::*;
use vstd::string::*;

verus! {

/// A request for the pods of a namespace that a label selector picks.
#[derive(Debug)]
pub struct ListRequest {
    pub namespace: String,
    pub selector: String,
}

/// A request to merge a patch into a pod.
#[derive(Debug)]
pub struct PatchRequest {
    pub namespace: String,
    pub pod_name: String,
    pub field_manager: String,
    /// The merge patch, as JSON text.
    pub body: String,
}

/// Why a label was not applied.
#[derive(Debug)]
pub enum LabelError {
    /// The percentages of the values do not add up to 100.
    PercentageSum,
    /// The pods of the application `app` could not be listed.
    ListPods { app: String, cause: String },
    /// The values could not be given out to the pods.
    Resolve(ResolveError),
    /// A pod could not be patched.
    Assign { cause: String },
}

/// What a [`ListRequest`] asks for.
pub struct ListView {
    pub namespace: Seq<char>,
    pub selector: Seq<char>,
}

/// What a [`PatchRequest`] asks for.
pub struct PatchView {
    pub namespace: Seq<char>,
    pub pod_name: Seq<char>,
    pub field_manager: Seq<char>,
    pub body: Seq<char>,
}

/// What a [`LabelError`] says.
pub enum LabelErrorView {
    PercentageSum,
    ListPods { app: Seq<char>, cause: Seq<char> },
    Resolve(ResolveError),
    Assign { cause: Seq<char> },
}

impl View for ListRequest {
    type V = ListView;

    open spec fn view(&self) -> ListView {
        ListView { namespace: self.namespace@, selector: self.selector@ }
    }
}

impl View for PatchRequest {
    type V = PatchView;

    open spec fn view(&self) -> PatchView {
        PatchView {
            namespace: self.namespace@,
            pod_name: self.pod_name@,
            field_manager: self.field_manager@,
            body: self.body@,
        }
    }
}

impl View for LabelError {
    type V = LabelErrorView;

    open spec fn view(&self) -> LabelErrorView {
        match self {
            LabelError::PercentageSum => LabelErrorView::PercentageSum,
            LabelError::ListPods { app, cause } => LabelErrorView::ListPods {
                app: app@,
                cause: cause@,
            },
            LabelError::Resolve(error) => LabelErrorView::Resolve(*error),
            LabelError::Assign { cause } => LabelErrorView::Assign { cause: cause@ },
        }
    }
}

/// The words for two numbers that differ.
pub open spec fn mismatch_text(labels: nat, pods: nat) -> Seq<char> {
    "The total number of labels "@ + decimal(labels) + " does not match the number of pods "@
        + decimal(pods)
}

/// The words for a [`ResolveError`].
pub open spec fn resolve_error_text(error: ResolveError) -> Seq<char> {
    match error {
        ResolveError::LabelTotal { labels, pods } => mismatch_text(labels as nat, pods as nat),
        ResolveError::UnnamedPod => "Found pod without a name"@,
        ResolveError::PendingTotal { labels, pods } => mismatch_text(labels as nat, pods as nat)
            + ". This should never happen and yet, it did."@,
    }
}

impl LabelErrorView {
    /// The words for the error.
    pub open spec fn text(self) -> Seq<char> {
        match self {
            LabelErrorView::PercentageSum => "The sum of all percentages must be exactly 100"@,
            LabelErrorView::ListPods { app, cause } => "Failed to list pods for app "@ + app + ": "@
                + cause,
            LabelErrorView::Resolve(error) => "Failed to resolve pods to labels: "@
                + resolve_error_text(error),
            LabelErrorView::Assign { cause } => "Failed to assign labels to pods: Error labeling pod: "@
                + cause,
        }
    }
}

fn mismatch_message(labels: u128, pods: usize) -> (message: String)
    ensures
        message@ == mismatch_text(labels as nat, pods as nat),
{
    let mut message = "The total number of labels ".to_owned();
    message.append(decimal_text(labels).as_str());
    message.append(" does not match the number of pods ");
    message.append(decimal_text(pods as u128).as_str());
    message
}

impl ResolveError {
    /// Says the error in words.
    pub fn message(&self) -> (message: String)
        ensures
            message@ == resolve_error_text(*self),
    {
        match self {
            ResolveError::LabelTotal { labels, pods } => mismatch_message(*labels, *pods),
            ResolveError::UnnamedPod => "Found pod without a name".to_owned(),
            ResolveError::PendingTotal { labels, pods } => {
                let mut message = mismatch_message(*labels, *pods);
                message.append(". This should never happen and yet, it did.");
                message
            },
        }
    }
}

impl LabelError {
    /// Says the error in words.
    ///
    /// The words alone: a backtrace, which the environment may ask for, is for the process to add.
    pub fn message(&self) -> (message: String)
        ensures
            message@ == self@.text(),
    {
        match self {
            LabelError::PercentageSum => {
                "The sum of all percentages must be exactly 100".to_owned()
            },
            LabelError::ListPods { app, cause } => {
                let mut message = "Failed to list pods for app ".to_owned();
                message.append(app.as_str());
                message.append(": ");
                message.append(cause.as_str());
                message
            },
            LabelError::Resolve(error) => {
                let mut message = "Failed to resolve pods to labels: ".to_owned();
                message.append(error.message().as_str());
                message
            },
            LabelError::Assign { cause } => {
                let mut message = "Failed to assign labels to pods: Error labeling pod: ".to_owned();
                message.append(cause.as_str());
                message
            },
        }
    }
}

/// The request that sets the label `name` of the pod `assignment` is for.
pub open spec fn patch_for(
    namespace: Seq<char>,
    name: Seq<char>,
    assignment: AssignmentView,
) -> PatchView {
    PatchView {
        namespace,
        pod_name: assignment.pod_name,
        field_manager: "kdynaroll_patch_call"@,
        body: label_patch_text(name, assignment.label_value),
    }
}

/// The assignments that apply a distribution to `pods`, or why there are none.
pub open spec fn plan(
    pods: Seq<PodView>,
    name: Seq<char>,
    distribution: Seq<ValueShare>,
) -> Result<Seq<AssignmentView>, ResolveError> {
    resolution(pods, name, pods_per_label(ranked(distribution), pods.len()))
}

/// Chooses the pods that get a new value of the label `applied_label_name`, and the value for
/// each, so that the values are distributed over `pods` as `label_distr` says.
///
/// # Errors
///
/// [`LabelError::Resolve`] if the values cannot be given out to the pods.
pub fn apply_labels_to_pods(
    pods: &Vec<Pod>,
    applied_label_name: &str,
    label_distr: &Vec<PodLabelerValueDistributionSpec>,
) -> (planned: Result<Vec<PodAssignment>, LabelError>)
    requires
        label_distr@.len() > 1 ==> all_numbers(value_shares(label_distr@)),
    ensures
        match plan(pod_views(pods@), applied_label_name@, value_shares(label_distr@)) {
            Ok(assignments) => planned is Ok && assignment_views(planned->Ok_0@) == assignments,
            Err(error) => planned is Err && planned->Err_0@ == LabelErrorView::Resolve(error),
        },
{
    let sorted_distr = sort_by_percentage(label_distr);
    let pods_per_label = calculate_pods_per_label(&sorted_distr, pods.len());
    match resolve_pods_to_label(pods, pods_per_label, applied_label_name) {
        Ok(assignments) => Ok(assignments),
        Err(error) => Err(LabelError::Resolve(error)),
    }
}

/// The request that sets the label `applied_label_name` of the pod `pod_name` to `label_value`.
pub fn assign_label_to_pod(
    namespace: &str,
    applied_label_name: &str,
    pod_name: String,
    label_value: String,
) -> (request: PatchRequest)
    ensures
        request@ == patch_for(
            namespace@,
            applied_label_name@,
            (AssignmentView { pod_name: pod_name@, label_value: label_value@ }),
        ),
        request.namespace@ == namespace@,
        request.pod_name@ == pod_name@,
        request.field_manager@ == "kdynaroll_patch_call"@,
        parse(request.body@) == Some(
            only(
                "metadata"@,
                only("labels"@, only(applied_label_name@, Json::Text(label_value@))),
            ),
        ),
{
    let body = label_patch(applied_label_name, label_value.as_str());
    PatchRequest {
        namespace: namespace.to_owned(),
        pod_name,
        field_manager: "kdynaroll_patch_call".to_owned(),
        body,
    }
}

/// The request for the next assignment when `assigned` of them have been carried out, if there
/// is one left.
pub fn assign_labels(
    namespace: &str,
    applied_label_name: &str,
    resolved_pod_labels: &Vec<PodAssignment>,
    assigned: usize,
) -> (request: Option<PatchRequest>)
    ensures
        match request {
            Some(request) => assigned < resolved_pod_labels@.len() && request@ == patch_for(
                namespace@,
                applied_label_name@,
                resolved_pod_labels@[assigned as int]@,
            ),
            None => assigned >= resolved_pod_labels@.len(),
        },
{
    if assigned < resolved_pod_labels.len() {
        let assignment = &resolved_pod_labels[assigned];
        Some(
            assign_label_to_pod(
                namespace,
                applied_label_name,
                assignment.pod_name.clone(),
                assignment.label_value.clone(),
            ),
        )
    } else {
        None
    }
}

/// How far a label has been applied to an application.
#[derive(Debug)]
pub struct Labeling {
    namespace: String,
    app: String,
    label_name: String,
    distribution: Vec<PodLabelerValueDistributionSpec>,
    stage: Stage,
}

#[derive(Debug)]
enum Stage {
    /// The pods have been asked for.
    Listing,
    /// `assigned` of the assignments have been carried out, and the next one has been asked for.
    Assigning { assignments: Vec<PodAssignment>, assigned: usize },
}

/// A reply of the API server.
#[derive(Debug)]
pub enum Reply {
    /// The pods that were asked for.
    Listed(Vec<Pod>),
    /// There is no list of pods, for this cause.
    ListFailed(String),
    /// The pod has been patched.
    Patched,
    /// The pod has not been patched, for this cause.
    PatchFailed(String),
}

/// What to do next for a label.
#[derive(Debug)]
pub enum LabelingStep {
    /// Ask for the pods, and resume with the reply.
    List(Labeling, ListRequest),
    /// Ask for a pod to be patched, and resume with the reply.
    Patch(Labeling, PatchRequest),
    /// Nothing: the label has been applied, with this number of pods patched, or has failed.
    Done(Result<usize, LabelError>),
}

/// What a [`Labeling`] stands at.
pub struct LabelingView {
    pub namespace: Seq<char>,
    pub app: Seq<char>,
    pub label_name: Seq<char>,
    pub distribution: Seq<ValueShare>,
    pub stage: StageView,
}

/// What a labelling waits for: the pods, or one of the assignments.
pub enum StageView {
    Listing,
    Assigning { assignments: Seq<AssignmentView>, assigned: nat },
}

/// What a [`Reply`] says.
pub enum ReplyView {
    Listed(Seq<PodView>),
    ListFailed(Seq<char>),
    Patched,
    PatchFailed(Seq<char>),
}

/// What a [`LabelingStep`] says.
pub enum LabelingStepView {
    List(LabelingView, ListView),
    Patch(LabelingView, PatchView),
    Done(Result<nat, LabelErrorView>),
}

impl View for Stage {
    type V = StageView;

    closed spec fn view(&self) -> StageView {
        match self {
            Stage::Listing => StageView::Listing,
            Stage::Assigning { assignments, assigned } => StageView::Assigning {
                assignments: assignment_views(assignments@),
                assigned: *assigned as nat,
            },
        }
    }
}

impl View for Labeling {
    type V = LabelingView;

    closed spec fn view(&self) -> LabelingView {
        LabelingView {
            namespace: self.namespace@,
            app: self.app@,
            label_name: self.label_name@,
            distribution: value_shares(self.distribution@),
            stage: self.stage@,
        }
    }
}

impl View for Reply {
    type V = ReplyView;

    open spec fn view(&self) -> ReplyView {
        match self {
            Reply::Listed(pods) => ReplyView::Listed(pod_views(pods@)),
            Reply::ListFailed(cause) => ReplyView::ListFailed(cause@),
            Reply::Patched => ReplyView::Patched,
            Reply::PatchFailed(cause) => ReplyView::PatchFailed(cause@),
        }
    }
}

impl View for LabelingStep {
    type V = LabelingStepView;

    open spec fn view(&self) -> LabelingStepView {
        match self {
            LabelingStep::List(labeling, request) => LabelingStepView::List(labeling@, request@),
            LabelingStep::Patch(labeling, request) => LabelingStepView::Patch(labeling@, request@),
            LabelingStep::Done(Ok(count)) => LabelingStepView::Done(Ok(*count as nat)),
            LabelingStep::Done(Err(error)) => LabelingStepView::Done(Err(error@)),
        }
    }
}

impl LabelingView {
    /// The percentages are numbers, and there is an assignment to wait for.
    pub open spec fn wf(self) -> bool {
        &&& all_numbers(self.distribution)
        &&& match self.stage {
            StageView::Listing => true,
            StageView::Assigning { assignments, assigned } => assigned < assignments.len(),
        }
    }

    /// Whether `reply` is one to what the labelling waits for.
    pub open spec fn awaits(self, reply: ReplyView) -> bool {
        match self.stage {
            StageView::Listing => reply is Listed || reply is ListFailed,
            StageView::Assigning { .. } => reply is Patched || reply is PatchFailed,
        }
    }

    /// The first step for the label `label_name` of the application `app` of `namespace`.
    pub open spec fn begin(
        namespace: Seq<char>,
        app: Seq<char>,
        label_name: Seq<char>,
        distribution: Seq<ValueShare>,
    ) -> LabelingStepView {
        if adds_up(distribution) {
            LabelingStepView::List(
                LabelingView {
                    namespace,
                    app,
                    label_name,
                    distribution,
                    stage: StageView::Listing,
                },
                ListView { namespace, selector: "app="@ + app },
            )
        } else {
            LabelingStepView::Done(Err(LabelErrorView::PercentageSum))
        }
    }

    /// The step when `assigned` of `assignments` have been carried out.
    pub open spec fn assign(
        self,
        assignments: Seq<AssignmentView>,
        assigned: nat,
    ) -> LabelingStepView {
        if assigned < assignments.len() {
            LabelingStepView::Patch(
                LabelingView { stage: StageView::Assigning { assignments, assigned }, ..self },
                patch_for(self.namespace, self.label_name, assignments[assigned as int]),
            )
        } else {
            LabelingStepView::Done(Ok(assignments.len()))
        }
    }

    /// The step after `reply`.
    pub open spec fn step(self, reply: ReplyView) -> LabelingStepView {
        match (self.stage, reply) {
            (StageView::Listing, ReplyView::Listed(pods)) => {
                match plan(pods, self.label_name, self.distribution) {
                    Ok(assignments) => self.assign(assignments, 0),
                    Err(error) => LabelingStepView::Done(Err(LabelErrorView::Resolve(error))),
                }
            },
            (StageView::Listing, ReplyView::ListFailed(cause)) => LabelingStepView::Done(
                Err(LabelErrorView::ListPods { app: self.app, cause }),
            ),
            (StageView::Assigning { assignments, assigned }, ReplyView::Patched) => {
                self.assign(assignments, assigned + 1)
            },
            (StageView::Assigning { .. }, ReplyView::PatchFailed(cause)) => LabelingStepView::Done(
                Err(LabelErrorView::Assign { cause }),
            ),
            _ => arbitrary(),
        }
    }

    /// Whether a step takes the registrations from `before` to `after`: it uses the count of pods
    /// if the label has been applied.
    pub open spec fn registered(
        self,
        before: Registrations,
        step: LabelingStepView,
        after: Registrations,
    ) -> bool {
        match step {
            LabelingStepView::Done(Ok(_)) => before.used(Count::Pods, after),
            _ => after == before,
        }
    }

    /// What a step leaves counted: the pods of a label that has been applied.
    pub open spec fn counted(self, metrics: MetricsView, step: LabelingStepView) -> MetricsView {
        match step {
            LabelingStepView::Done(Ok(count)) => metrics.pods_recorded(
                self.namespace,
                self.app,
                count as u64,
            ),
            _ => metrics,
        }
    }
}

impl LabelingStepView {
    /// Whatever labelling goes on with the step is well-formed.
    pub open spec fn wf(self) -> bool {
        match self {
            LabelingStepView::List(labeling, _) => labeling.wf(),
            LabelingStepView::Patch(labeling, _) => labeling.wf(),
            LabelingStepView::Done(_) => true,
        }
    }
}

/// Begins to apply the label `applied_label_name`, with its values distributed as `label_distr`
/// says, to the pods of the application `app` of `namespace`: asks for the pods.
///
/// The label fails with [`LabelError::PercentageSum`] if the percentages do not add up to 100.
pub fn apply_labels_to_app(
    namespace: &str,
    app: &str,
    applied_label_name: &str,
    label_distr: &Vec<PodLabelerValueDistributionSpec>,
) -> (step: LabelingStep)
    ensures
        step@ == LabelingView::begin(
            namespace@,
            app@,
            applied_label_name@,
            value_shares(label_distr@),
        ),
        step@.wf(),
        Seq::new(label_distr@.len(), |i: int| label_distr@[i].percentage@).fold_left(
            Binary64::Finite(0),
            |sum: Binary64, percentage: Binary64| sum.plus(percentage),
        ) == Binary64::Finite((100 * units_per_one()) as int) <==> step is List,
        match step {
            LabelingStep::List(_, request) => {
                &&& request.namespace@ == namespace@
                &&& request.selector@ == "app="@ + app@
            },
            LabelingStep::Patch(_, _) => false,
            LabelingStep::Done(result) => result is Err && result->Err_0 is PercentageSum,
        },
{
    if !percentages_add_up(label_distr) {
        return LabelingStep::Done(Err(LabelError::PercentageSum));
    }
    let mut selector = "app=".to_owned();
    selector.append(app);
    let request = ListRequest { namespace: namespace.to_owned(), selector };
    let distribution = label_distr.clone();
    let labeling = Labeling {
        namespace: namespace.to_owned(),
        app: app.to_owned(),
        label_name: applied_label_name.to_owned(),
        distribution,
        stage: Stage::Listing,
    };
    assert(value_shares(distribution@) =~= value_shares(label_distr@));
    LabelingStep::List(labeling, request)
}

impl Labeling {
    /// Goes on when `assigned` of `assignments` have been carried out.
    fn go_on(
        self,
        metrics: &mut Metrics,
        assignments: Vec<PodAssignment>,
        assigned: usize,
    ) -> (step: LabelingStep)
        requires
            old(metrics).wf(),
            all_numbers(self@.distribution),
            assigned <= assignments@.len(),
        ensures
            step@ == self@.assign(assignment_views(assignments@), assigned as nat),
            step@.wf(),
            final(metrics).wf(),
            final(metrics)@ == self@.counted(old(metrics)@, step@),
            self@.registered(old(metrics).registrations(), step@, final(metrics).registrations()),
    {
        match assign_labels(
            self.namespace.as_str(),
            self.label_name.as_str(),
            &assignments,
            assigned,
        ) {
            Some(request) => LabelingStep::Patch(
                Labeling { stage: Stage::Assigning { assignments, assigned }, ..self },
                request,
            ),
            None => {
                record_pod_count(
                    metrics,
                    self.namespace.as_str(),
                    self.app.as_str(),
                    assignments.len() as u64,
                );
                LabelingStep::Done(Ok(assignments.len()))
            },
        }
    }

    /// Goes on after `reply`: gives out the values to the pods that were listed, then asks for
    /// one pod after the other to be patched, and counts the pods when all of them have been.
    ///
    /// The first failure ends the label; pods that have been patched by then stay as they are,
    /// and none are counted.
    pub fn resume(self, metrics: &mut Metrics, reply: Reply) -> (step: LabelingStep)
        requires
            old(metrics).wf(),
            self@.wf(),
            self@.awaits(reply@),
        ensures
            step@ == self@.step(reply@),
            step@.wf(),
            final(metrics).wf(),
            final(metrics)@ == self@.counted(old(metrics)@, step@),
            self@.registered(old(metrics).registrations(), step@, final(metrics).registrations()),
    {
        match (self.stage, reply) {
            (Stage::Listing, Reply::Listed(pods)) => {
                match apply_labels_to_pods(&pods, self.label_name.as_str(), &self.distribution) {
                    Ok(assignments) => {
                        Labeling { stage: Stage::Listing, ..self }.go_on(metrics, assignments, 0)
                    },
                    Err(error) => LabelingStep::Done(Err(error)),
                }
            },
            (Stage::Listing, Reply::ListFailed(cause)) => LabelingStep::Done(
                Err(LabelError::ListPods { app: self.app, cause }),
            ),
            (Stage::Assigning { assignments, assigned }, Reply::Patched) => {
                assert(assigned < assignments.len());
                Labeling { stage: Stage::Listing, ..self }.go_on(metrics, assignments, assigned + 1)
            },
            (Stage::Assigning { .. }, Reply::PatchFailed(cause)) => LabelingStep::Done(
                Err(LabelError::Assign { cause }),
            ),
            _ => unreached(),
        }
    }
}

/// What the errors say: the fixed words, with the application, the cause and the numbers in their
/// places.
pub proof fn law_errors_say_what_happened(
    app: Seq<char>,
    cause: Seq<char>,
    labels: u128,
    pods: usize,
)
    ensures
        LabelErrorView::PercentageSum.text() == "The sum of all percentages must be exactly 100"@,
        (LabelErrorView::ListPods { app, cause }).text() == "Failed to list pods for app "@ + app
            + ": "@ + cause,
        (LabelErrorView::Assign { cause }).text()
            == "Failed to assign labels to pods: Error labeling pod: "@ + cause,
        LabelErrorView::Resolve(ResolveError::UnnamedPod).text()
            == "Failed to resolve pods to labels: "@ + "Found pod without a name"@,
        LabelErrorView::Resolve(ResolveError::LabelTotal { labels, pods }).text()
            == "Failed to resolve pods to labels: "@ + ("The total number of labels "@ + decimal(
            labels as nat,
        ) + " does not match the number of pods "@ + decimal(pods as nat)),
        LabelErrorView::Resolve(ResolveError::PendingTotal { labels, pods }).text()
            == "Failed to resolve pods to labels: "@ + ("The total number of labels "@ + decimal(
            labels as nat,
        ) + " does not match the number of pods "@ + decimal(pods as nat)
            + ". This should never happen and yet, it did."@),
        resolve_error_text(ResolveError::UnnamedPod) == "Found pod without a name"@,
        resolve_error_text(ResolveError::LabelTotal { labels, pods })
            == "The total number of labels "@ + decimal(labels as nat)
            + " does not match the number of pods "@ + decimal(pods as nat),
        resolve_error_text(ResolveError::PendingTotal { labels, pods })
            == "The total number of labels "@ + decimal(labels as nat)
            + " does not match the number of pods "@ + decimal(pods as nat)
            + ". This should never happen and yet, it did."@,
{
}

} // verus!
