//! What the controller counts, and how the counts are handed out.
//!
//! The counts live in the counters of `prometheus`, which its registry reads when the metrics
//! are asked for.

use vstd::prelude::*;
use vstd::string::*;
use vstd::utf8::{encode_utf8, is_ascii_chars, is_ascii_chars_encode_utf8};

verus! {

/// Counters of one name, one for each combination of label values that was counted under.
#[verifier::external_body]
pub struct CounterFamily {
    inner: prometheus::IntCounterVec,
}

/// A counter without labels.
#[verifier::external_body]
pub struct Counter {
    inner: prometheus::IntCounter,
}

/// An error of `prometheus`, of which only the fact is used.
#[verifier::external_type_specification]
#[verifier::external_body]
pub struct ExPrometheusError(prometheus::Error);

/// The metrics of one name that a registry hands out.
#[verifier::external_type_specification]
#[verifier::external_body]
pub struct ExMetricFamily(prometheus::proto::MetricFamily);

/// The name, the help text and the label names of a metric.
pub struct Description {
    pub name: Seq<char>,
    pub help: Seq<char>,
    pub labels: Seq<Seq<char>>,
}

/// The counts of a family, by series.
pub uninterp spec fn family_counts(family: CounterFamily) -> Map<u64, u64>;

/// The label values that each series of a family shows.
pub uninterp spec fn family_labels(family: CounterFamily) -> Map<u64, Seq<Seq<char>>>;

/// What a family is registered as.
pub uninterp spec fn family_description(family: CounterFamily) -> Description;

/// The value of a counter.
pub uninterp spec fn counter_value(counter: Counter) -> u64;

/// What a counter is registered as.
pub uninterp spec fn counter_description(counter: Counter) -> Description;

/// Whether metrics of one name are of no known type.
pub uninterp spec fn untyped(family: prometheus::proto::MetricFamily) -> bool;

/// The text that metrics are handed out as, or the words for why there is none.
pub uninterp spec fn exposition(families: Seq<prometheus::proto::MetricFamily>) -> Result<
    Seq<u8>,
    Seq<char>,
>;

/// Whether a name may begin with `c`, which for the name of a metric can be a colon.
pub open spec fn leads(c: char, metric: bool) -> bool {
    ('a' <= c && c <= 'z') || ('A' <= c && c <= 'Z') || c == '_' || (metric && c == ':')
}

/// Whether `name` can be the name of a metric or, where `metric` does not hold, of a label.
pub open spec fn valid_name(name: Seq<char>, metric: bool) -> bool {
    &&& name.len() > 0
    &&& leads(name[0], metric)
    &&& forall|i: int|
        0 <= i < name.len() ==> leads(#[trigger] name[i], metric) || ('0' <= name[i] && name[i]
            <= '9')
}

/// Whether a metric can have this name, this help text and these labels.
pub open spec fn describable(name: Seq<char>, help: Seq<char>, labels: Seq<&str>) -> bool {
    &&& valid_name(name, true)
    &&& help.len() > 0
    &&& forall|i: int| 0 <= i < labels.len() ==> valid_name(#[trigger] labels[i]@, false)
    &&& forall|i: int, j: int|
        0 <= i < j < labels.len() ==> #[trigger] labels[i]@ != #[trigger] labels[j]@
}

/// Texts, in their order.
pub open spec fn texts(values: Seq<&str>) -> Seq<Seq<char>> {
    Seq::new(values.len(), |i: int| values[i]@)
}

/// The description with this name, this help text and these labels.
pub open spec fn described(name: Seq<char>, help: Seq<char>, labels: Seq<&str>) -> Description {
    Description { name, help, labels: texts(labels) }
}

/// Label values, written one after the other.
pub open spec fn joined(values: Seq<&str>) -> Seq<char>
    decreases values.len(),
{
    if values.len() == 0 {
        Seq::empty()
    } else {
        joined(values.drop_last()) + values.last()@
    }
}

/// The FNV-1a hash of one more byte.
pub open spec fn hashed_byte(hash: u64, byte: u8) -> u64 {
    (((hash ^ (byte as u64)) * 0x100_0000_01b3) % 0x1_0000_0000_0000_0000) as u64
}

/// The FNV-1a hash of `bytes`.
pub open spec fn hashed(bytes: Seq<u8>) -> u64
    decreases bytes.len(),
{
    if bytes.len() == 0 {
        0xcbf2_9ce4_8422_2325
    } else {
        hashed_byte(hashed(bytes.drop_last()), bytes.last())
    }
}

/// The series of a family that counts under label values which, written one after the other,
/// make up `text`.
pub open spec fn series_of(text: Seq<char>) -> u64 {
    hashed(encode_utf8(text))
}

/// The count of one of the series, which is 0 before anything was counted in it.
pub open spec fn count_in(counts: Map<u64, u64>, series: u64) -> u64 {
    if counts.contains_key(series) {
        counts[series]
    } else {
        0
    }
}

/// `count` more than `value`, as a counter counts.
pub open spec fn counted(value: u64, count: u64) -> u64 {
    ((value + count) % 0x1_0000_0000_0000_0000) as u64
}

/// The counts after `count` more were counted in one of the series.
pub open spec fn counted_under(counts: Map<u64, u64>, series: u64, count: u64) -> Map<u64, u64> {
    counts.insert(series, counted(count_in(counts, series), count))
}

/// What the series show after label values were counted under in one of them: a series shows the
/// label values that it was first counted under with.
pub open spec fn labelled_under(
    labels: Map<u64, Seq<Seq<char>>>,
    series: u64,
    values: Seq<Seq<char>>,
) -> Map<u64, Seq<Seq<char>>> {
    if labels.contains_key(series) {
        labels
    } else {
        labels.insert(series, values)
    }
}

impl CounterFamily {
    /// Calls `prometheus::IntCounterVec::new`.
    ///
    /// Claimed of it: it fails exactly on an empty help text, on an invalid name of the metric
    /// or of a label, and on two labels of one name; and a new family is described by the
    /// arguments and has no series yet.
    #[verifier::external_body]
    fn create(name: &str, help: &str, labels: &Vec<&str>) -> (created: Result<
        CounterFamily,
        prometheus::Error,
    >)
        ensures
            match created {
                Ok(family) => {
                    &&& describable(name@, help@, labels@)
                    &&& family_counts(family) == Map::<u64, u64>::empty()
                    &&& family_labels(family) == Map::<u64, Seq<Seq<char>>>::empty()
                    &&& family_description(family) == described(name@, help@, labels@)
                },
                Err(_) => !describable(name@, help@, labels@),
            },
    {
        let inner = prometheus::IntCounterVec::new(prometheus::Opts::new(name, help), labels)?;
        Ok(CounterFamily { inner })
    }

    /// Calls `with_label_values` of `prometheus::IntCounterVec` and `inc_by` of the counter that
    /// comes back.
    ///
    /// Claimed of them: the series is known by the FNV-1a hash of the label values, written one
    /// after the other, and is the one whose value grows, from 0 if it is new. A new series shows
    /// the label values, in the order of the labels; one that is there goes on with those that it
    /// has. A counter wraps around. The description of the family stays. `with_label_values` panics
    /// on another number of label values than there are labels.
    #[verifier::external_body]
    fn count(&mut self, values: &Vec<&str>, count: u64)
        requires
            values@.len() == family_description(*old(self)).labels.len(),
        ensures
            family_counts(*final(self)) == counted_under(
                family_counts(*old(self)),
                series_of(joined(values@)),
                count,
            ),
            family_labels(*final(self)) == labelled_under(
                family_labels(*old(self)),
                series_of(joined(values@)),
                texts(values@),
            ),
            family_description(*final(self)) == family_description(*old(self)),
    {
        self.inner.with_label_values(values).inc_by(count)
    }

    /// Calls `prometheus::register` for the family.
    ///
    /// Nothing is claimed of the outcome, which depends on what else is registered in the
    /// process.
    #[verifier::external_body]
    fn register(&self) -> Result<(), prometheus::Error> {
        prometheus::register(Box::new(self.inner.clone()))
    }
}

impl Counter {
    /// Calls `prometheus::IntCounter::new`.
    ///
    /// Claimed of it: it fails exactly on an empty help text and on an invalid name, and a new
    /// counter is described by the arguments and stands at 0.
    #[verifier::external_body]
    fn create(name: &str, help: &str) -> (created: Result<Counter, prometheus::Error>)
        ensures
            match created {
                Ok(counter) => {
                    &&& describable(name@, help@, Seq::empty())
                    &&& counter_value(counter) == 0
                    &&& counter_description(counter) == described(name@, help@, Seq::empty())
                },
                Err(_) => !describable(name@, help@, Seq::empty()),
            },
    {
        let inner = prometheus::IntCounter::new(name, help)?;
        Ok(Counter { inner })
    }

    /// Calls `inc_by` of `prometheus::IntCounter`.
    ///
    /// Claimed of it: the value grows by `count`, and wraps around; the description stays.
    #[verifier::external_body]
    fn count(&mut self, count: u64)
        ensures
            counter_value(*final(self)) == counted(counter_value(*old(self)), count),
            counter_description(*final(self)) == counter_description(*old(self)),
    {
        self.inner.inc_by(count)
    }

    /// Calls `prometheus::register` for the counter.
    ///
    /// Nothing is claimed of the outcome, which depends on what else is registered in the
    /// process.
    #[verifier::external_body]
    fn register(&self) -> Result<(), prometheus::Error> {
        prometheus::register(Box::new(self.inner.clone()))
    }
}

/// Calls `prometheus::gather`.
///
/// Nothing is claimed of the outcome, which depends on what is registered in the process.
#[verifier::external_body]
fn gather() -> Vec<prometheus::proto::MetricFamily> {
    prometheus::gather()
}

/// Calls `get_field_type` of `prometheus::proto::MetricFamily`.
///
/// Claimed of it: the type depends on the family alone.
#[verifier::external_body]
fn is_untyped(family: &prometheus::proto::MetricFamily) -> (answer: bool)
    ensures
        answer == untyped(*family),
{
    matches!(family.get_field_type(), prometheus::proto::MetricType::UNTYPED)
}

/// Calls `encode` of `prometheus::TextEncoder`.
///
/// Claimed of it: whether there is a text, and which, and the words of the error where there is
/// none, depend on the families alone. The encoder panics on an untyped family.
#[verifier::external_body]
fn encode(families: &Vec<prometheus::proto::MetricFamily>) -> (text: Result<Vec<u8>, String>)
    requires
        forall|i: int| 0 <= i < families@.len() ==> !untyped(#[trigger] families@[i]),
    ensures
        match text {
            Ok(bytes) => exposition(families@) == Ok::<_, Seq<char>>(bytes@),
            Err(cause) => exposition(families@) == Err::<Seq<u8>, _>(cause@),
        },
{
    let mut buffer = Vec::new();
    match prometheus::Encoder::encode(&prometheus::TextEncoder::new(), families, &mut buffer) {
        Ok(()) => Ok(buffer),
        Err(error) => Err(error.to_string()),
    }
}

/// One of the counts of a controller.
#[derive(Debug, Clone, Copy)]
pub enum Count {
    ReconcileCycles,
    Namespaces,
    Apps,
    Pods,
}

/// Whether the registry of the process has a count.
#[derive(Debug, Clone, Copy)]
pub enum Registration {
    /// The count has not been used, and the registry has not been asked.
    Unused,
    /// The registry took the count when it was first used, and hands it out.
    Registered,
    /// The registry refused the count when it was first used.
    Refused,
}

/// Whether the registry of the process has the counts.
#[derive(Debug, Clone, Copy)]
pub struct Registrations {
    pub reconcile_cycles: Registration,
    pub namespaces: Registration,
    pub apps: Registration,
    pub pods: Registration,
}

/// The counts of a controller. The registry of the process is asked to take each of them when it is
/// first used.
pub struct Metrics {
    reconcile_cycles: CounterFamily,
    namespaces: Counter,
    apps: CounterFamily,
    pods: CounterFamily,
    registrations: Registrations,
}

/// What [`Metrics`] stand at: where a count has labels, the counts and the label values that are
/// shown with them, by series.
pub struct MetricsView {
    /// Reconciliation cycles, by result.
    pub reconcile_cycles: Map<u64, u64>,
    /// Namespaces configured for labelling.
    pub namespaces: u64,
    /// Applications configured for labelling, by namespace.
    pub apps: Map<u64, u64>,
    /// Pods labelled, by namespace and application.
    pub pods: Map<u64, u64>,
    /// The result that each series of reconciliation cycles shows.
    pub cycle_labels: Map<u64, Seq<Seq<char>>>,
    /// The namespace that each series of applications shows.
    pub app_labels: Map<u64, Seq<Seq<char>>>,
    /// The namespace and the application that each series of pods shows.
    pub pod_labels: Map<u64, Seq<Seq<char>>>,
}

impl View for Metrics {
    type V = MetricsView;

    closed spec fn view(&self) -> MetricsView {
        MetricsView {
            reconcile_cycles: family_counts(self.reconcile_cycles),
            namespaces: counter_value(self.namespaces),
            apps: family_counts(self.apps),
            pods: family_counts(self.pods),
            cycle_labels: family_labels(self.reconcile_cycles),
            app_labels: family_labels(self.apps),
            pod_labels: family_labels(self.pods),
        }
    }
}

impl MetricsView {
    /// Nothing counted yet.
    pub open spec fn zero() -> MetricsView {
        MetricsView {
            reconcile_cycles: Map::empty(),
            namespaces: 0,
            apps: Map::empty(),
            pods: Map::empty(),
            cycle_labels: Map::empty(),
            app_labels: Map::empty(),
            pod_labels: Map::empty(),
        }
    }
}

/// What the counts of a controller are registered as: the reconciliation cycles, the namespaces,
/// the applications and the pods.
pub open spec fn metric_descriptions() -> Seq<Description> {
    seq![
        Description {
            name: "reconcile_cycle_completed"@,
            help: "Total number of completed reconciliation cycles"@,
            labels: seq!["result"@],
        },
        Description {
            name: "namespaces_labeled"@,
            help: "Number of namespaces configured for labeling"@,
            labels: Seq::empty(),
        },
        Description {
            name: "apps_labeled"@,
            help: "Number of apps configured for labeling per namespace"@,
            labels: seq!["namespace"@],
        },
        Description {
            name: "pods_labeled"@,
            help: "Number of pods effectively labeled per namespace and app"@,
            labels: seq!["namespace"@, "app"@],
        },
    ]
}

/// Whether using a count takes its registration from `before` to `after`: the first use settles
/// it, and later ones leave it.
pub open spec fn settled(before: Registration, after: Registration) -> bool {
    match before {
        Registration::Unused => after !is Unused,
        _ => after == before,
    }
}

impl Registrations {
    /// No count has been used.
    pub open spec fn unused() -> Registrations {
        Registrations {
            reconcile_cycles: Registration::Unused,
            namespaces: Registration::Unused,
            apps: Registration::Unused,
            pods: Registration::Unused,
        }
    }

    /// The registration of one of the counts.
    pub open spec fn of(self, count: Count) -> Registration {
        match count {
            Count::ReconcileCycles => self.reconcile_cycles,
            Count::Namespaces => self.namespaces,
            Count::Apps => self.apps,
            Count::Pods => self.pods,
        }
    }

    /// Whether using `count`, and no other, leads to `after`.
    pub open spec fn used(self, count: Count, after: Registrations) -> bool {
        &&& settled(self.of(count), after.of(count))
        &&& count !is ReconcileCycles ==> after.reconcile_cycles == self.reconcile_cycles
        &&& count !is Namespaces ==> after.namespaces == self.namespaces
        &&& count !is Apps ==> after.apps == self.apps
        &&& count !is Pods ==> after.pods == self.pods
    }
}

/// The registry was asked to take this family, and `registration` is what it answered.
closed spec fn family_answered(family: CounterFamily, registration: Registration) -> bool {
    exists|answer: Result<(), prometheus::Error>| #[trigger]
        call_ensures(CounterFamily::register, (&family,), answer) && registration == (match answer {
            Ok(_) => Registration::Registered,
            Err(_) => Registration::Refused,
        })
}

/// If a family of this description has been used, the registry was asked to take one.
closed spec fn family_asked(description: Description, registration: Registration) -> bool {
    registration !is Unused ==> exists|family: CounterFamily| #[trigger]
        family_answered(family, registration) && family_description(family) == description
}

/// The registry was asked to take this counter, and `registration` is what it answered.
closed spec fn counter_answered(counter: Counter, registration: Registration) -> bool {
    exists|answer: Result<(), prometheus::Error>| #[trigger]
        call_ensures(Counter::register, (&counter,), answer) && registration == (match answer {
            Ok(_) => Registration::Registered,
            Err(_) => Registration::Refused,
        })
}

/// If a counter of this description has been used, the registry was asked to take one.
closed spec fn counter_asked(description: Description, registration: Registration) -> bool {
    registration !is Unused ==> exists|counter: Counter| #[trigger]
        counter_answered(counter, registration) && counter_description(counter) == description
}

impl CounterFamily {
    /// Asks the registry to take the family, unless it has been asked before.
    fn use_registered(&self, before: Registration) -> (after: Registration)
        ensures
            settled(before, after),
            before is Unused ==> family_answered(*self, after),
    {
        match before {
            Registration::Unused => {
                let answer = self.register();
                match answer {
                    Ok(_) => Registration::Registered,
                    Err(_) => Registration::Refused,
                }
            },
            _ => before,
        }
    }
}

impl Counter {
    /// Asks the registry to take the counter, unless it has been asked before.
    fn use_registered(&self, before: Registration) -> (after: Registration)
        ensures
            settled(before, after),
            before is Unused ==> counter_answered(*self, after),
    {
        match before {
            Registration::Unused => {
                let answer = self.register();
                match answer {
                    Ok(_) => Registration::Registered,
                    Err(_) => Registration::Refused,
                }
            },
            _ => before,
        }
    }
}

impl Metrics {
    /// What the counts are registered as.
    pub closed spec fn descriptions(&self) -> Seq<Description> {
        seq![
            family_description(self.reconcile_cycles),
            counter_description(self.namespaces),
            family_description(self.apps),
            family_description(self.pods),
        ]
    }

    /// Whether the registry of the process has the counts.
    pub closed spec fn registrations(&self) -> Registrations {
        self.registrations
    }

    /// The registrations are what the registry answered when it was asked to take each of the
    /// counts.
    pub closed spec fn asked(&self) -> bool {
        &&& family_asked(self.descriptions()[0], self.registrations.reconcile_cycles)
        &&& counter_asked(self.descriptions()[1], self.registrations.namespaces)
        &&& family_asked(self.descriptions()[2], self.registrations.apps)
        &&& family_asked(self.descriptions()[3], self.registrations.pods)
    }

    /// If `count` has not been used, the registry was asked to take it, and `registration` is what
    /// it answered.
    pub closed spec fn asks(&self, count: Count, registration: Registration) -> bool {
        self.registrations.of(count) is Unused ==> match count {
            Count::ReconcileCycles => family_answered(self.reconcile_cycles, registration),
            Count::Namespaces => counter_answered(self.namespaces, registration),
            Count::Apps => family_answered(self.apps, registration),
            Count::Pods => family_answered(self.pods, registration),
        }
    }

    /// Each count has its name, its help text, and the labels that it is counted under, and the
    /// registry has been asked to take those that have been used.
    pub open spec fn wf(&self) -> bool {
        &&& self.descriptions() == metric_descriptions()
        &&& self.asked()
    }

    /// Whether the registry of the process has one of the counts.
    pub fn registration(&self, count: Count) -> (registration: Registration)
        ensures
            registration == self.registrations().of(count),
    {
        match count {
            Count::ReconcileCycles => self.registrations.reconcile_cycles,
            Count::Namespaces => self.registrations.namespaces,
            Count::Apps => self.registrations.apps,
            Count::Pods => self.registrations.pods,
        }
    }

    /// Counts of which none has been used.
    pub fn new() -> (metrics: Metrics)
        ensures
            metrics.wf(),
            metrics@ == MetricsView::zero(),
            metrics.registrations() == Registrations::unused(),
    {
        proof {
            reveal_strlit("reconcile_cycle_completed");
            reveal_strlit("Total number of completed reconciliation cycles");
            reveal_strlit("result");
            reveal_strlit("namespaces_labeled");
            reveal_strlit("Number of namespaces configured for labeling");
            reveal_strlit("apps_labeled");
            reveal_strlit("Number of apps configured for labeling per namespace");
            reveal_strlit("namespace");
            reveal_strlit("pods_labeled");
            reveal_strlit("Number of pods effectively labeled per namespace and app");
            reveal_strlit("app");
            assert("namespace"@.len() != "app"@.len());
        }
        let metrics = Metrics {
            reconcile_cycles: CounterFamily::create(
                "reconcile_cycle_completed",
                "Total number of completed reconciliation cycles",
                &vec!["result"],
            ).unwrap(),
            namespaces: Counter::create(
                "namespaces_labeled",
                "Number of namespaces configured for labeling",
            ).unwrap(),
            apps: CounterFamily::create(
                "apps_labeled",
                "Number of apps configured for labeling per namespace",
                &vec!["namespace"],
            ).unwrap(),
            pods: CounterFamily::create(
                "pods_labeled",
                "Number of pods effectively labeled per namespace and app",
                &vec!["namespace", "app"],
            ).unwrap(),
            registrations: Registrations {
                reconcile_cycles: Registration::Unused,
                namespaces: Registration::Unused,
                apps: Registration::Unused,
                pods: Registration::Unused,
            },
        };
        proof {
            let expected = metric_descriptions();
            assert(family_description(metrics.reconcile_cycles).labels =~= expected[0].labels);
            assert(counter_description(metrics.namespaces).labels =~= expected[1].labels);
            assert(family_description(metrics.apps).labels =~= expected[2].labels);
            assert(family_description(metrics.pods).labels =~= expected[3].labels);
            assert(metrics.descriptions() =~= expected);
        }
        metrics
    }
}

impl MetricsView {
    /// One more reconciliation cycle that ended with `result`.
    pub open spec fn cycle_recorded(self, result: Seq<char>) -> MetricsView {
        MetricsView {
            reconcile_cycles: counted_under(self.reconcile_cycles, series_of(result), 1),
            cycle_labels: labelled_under(self.cycle_labels, series_of(result), seq![result]),
            ..self
        }
    }

    /// `count` more namespaces.
    pub open spec fn namespaces_recorded(self, count: u64) -> MetricsView {
        MetricsView { namespaces: counted(self.namespaces, count), ..self }
    }

    /// `count` more applications of `namespace`.
    pub open spec fn apps_recorded(self, namespace: Seq<char>, count: u64) -> MetricsView {
        MetricsView {
            apps: counted_under(self.apps, series_of(namespace), count),
            app_labels: labelled_under(self.app_labels, series_of(namespace), seq![namespace]),
            ..self
        }
    }

    /// `count` more pods of the application `app` of `namespace`.
    pub open spec fn pods_recorded(
        self,
        namespace: Seq<char>,
        app: Seq<char>,
        count: u64,
    ) -> MetricsView {
        MetricsView {
            pods: counted_under(self.pods, series_of(namespace + app), count),
            pod_labels: labelled_under(
                self.pod_labels,
                series_of(namespace + app),
                seq![namespace, app],
            ),
            ..self
        }
    }
}

proof fn lemma_joined(values: Seq<&str>)
    ensures
        values.len() == 1 ==> joined(values) == values[0]@ && texts(values) == seq![values[0]@],
        values.len() == 2 ==> joined(values) == values[0]@ + values[1]@ && texts(values) == seq![
            values[0]@,
            values[1]@,
        ],
{
    reveal_with_fuel(joined, 3);
    if values.len() == 1 {
        assert(joined(values) =~= values[0]@);
        assert(texts(values) =~= seq![values[0]@]);
    }
    if values.len() == 2 {
        assert(joined(values) =~= values[0]@ + values[1]@);
        assert(texts(values) =~= seq![values[0]@, values[1]@]);
    }
}

/// Counts a reconciliation cycle that ended with `result`, and before the first one asks the
/// registry to take the count.
pub fn record_reconcile_cycle(metrics: &mut Metrics, result: &str)
    requires
        old(metrics).wf(),
    ensures
        final(metrics).wf(),
        final(metrics)@ == old(metrics)@.cycle_recorded(result@),
        old(metrics).registrations().used(Count::ReconcileCycles, final(metrics).registrations()),
        old(metrics).asks(Count::ReconcileCycles, final(metrics).registrations().reconcile_cycles),
{
    let values = vec![result];
    proof {
        lemma_joined(values@);
        assert(metrics.descriptions()[0].labels.len() == values@.len());
    }
    metrics.registrations.reconcile_cycles = metrics.reconcile_cycles.use_registered(
        metrics.registrations.reconcile_cycles,
    );
    metrics.reconcile_cycles.count(&values, 1);
}

/// Counts `count` namespaces that are configured for labelling, and before the first time asks the
/// registry to take the count.
pub fn record_namespace_count(metrics: &mut Metrics, count: u64)
    requires
        old(metrics).wf(),
    ensures
        final(metrics).wf(),
        final(metrics)@ == old(metrics)@.namespaces_recorded(count),
        old(metrics).registrations().used(Count::Namespaces, final(metrics).registrations()),
        old(metrics).asks(Count::Namespaces, final(metrics).registrations().namespaces),
{
    metrics.registrations.namespaces = metrics.namespaces.use_registered(
        metrics.registrations.namespaces,
    );
    metrics.namespaces.count(count);
}

/// Counts `count` applications of `namespace` that are configured for labelling, and before the
/// first time asks the registry to take the count.
pub fn record_app_count(metrics: &mut Metrics, namespace: &str, count: u64)
    requires
        old(metrics).wf(),
    ensures
        final(metrics).wf(),
        final(metrics)@ == old(metrics)@.apps_recorded(namespace@, count),
        old(metrics).registrations().used(Count::Apps, final(metrics).registrations()),
        old(metrics).asks(Count::Apps, final(metrics).registrations().apps),
{
    let values = vec![namespace];
    proof {
        lemma_joined(values@);
        assert(metrics.descriptions()[2].labels.len() == values@.len());
    }
    metrics.registrations.apps = metrics.apps.use_registered(
        metrics.registrations.apps,
    );
    metrics.apps.count(&values, count);
}

/// Counts `count` pods of the application `app` of `namespace` that were labelled, and before the
/// first time asks the registry to take the count.
pub fn record_pod_count(metrics: &mut Metrics, namespace: &str, app: &str, count: u64)
    requires
        old(metrics).wf(),
    ensures
        final(metrics).wf(),
        final(metrics)@ == old(metrics)@.pods_recorded(namespace@, app@, count),
        old(metrics).registrations().used(Count::Pods, final(metrics).registrations()),
        old(metrics).asks(Count::Pods, final(metrics).registrations().pods),
{
    let values = vec![namespace, app];
    proof {
        lemma_joined(values@);
        assert(metrics.descriptions()[3].labels.len() == values@.len());
    }
    metrics.registrations.pods = metrics.pods.use_registered(
        metrics.registrations.pods,
    );
    metrics.pods.count(&values, count);
}

proof fn lemma_hashed_more(bytes: Seq<u8>, n: int)
    requires
        0 <= n < bytes.len(),
    ensures
        hashed(bytes.take(n + 1)) == hashed_byte(hashed(bytes.take(n)), bytes[n]),
{
    assert(bytes.take(n + 1).drop_last() =~= bytes.take(n));
}

proof fn lemma_success_series()
    ensures
        series_of("success"@) == 0x19fe_06e3_408e_53d0,
{
    let bytes = encode_utf8("success"@);
    reveal_strlit("success");
    assert(is_ascii_chars("success"@));
    is_ascii_chars_encode_utf8("success"@);
    assert(bytes =~= seq![0x73u8, 0x75, 0x63, 0x63, 0x65, 0x73, 0x73]);
    assert(bytes.take(7) =~= bytes);
    assert(hashed_byte(0xcbf2_9ce4_8422_2325, 0x73) == 0xaf63_ee4c_8602_0b22u64) by (bit_vector);
    assert(hashed_byte(0xaf63_ee4c_8602_0b22, 0x75) == 0x08d9_4307_b579_44d5u64) by (bit_vector);
    assert(hashed_byte(0x08d9_4307_b579_44d5, 0x63) == 0x8271_9c19_5d0f_c142u64) by (bit_vector);
    assert(hashed_byte(0x8271_9c19_5d0f_c142, 0x63) == 0xb6cd_6019_21c5_2b13u64) by (bit_vector);
    assert(hashed_byte(0xb6cd_6019_21c5_2b13, 0x65) == 0x6425_c0b4_6208_d982u64) by (bit_vector);
    assert(hashed_byte(0x6425_c0b4_6208_d982, 0x73) == 0x3500_6382_950a_5483u64) by (bit_vector);
    assert(hashed_byte(0x3500_6382_950a_5483, 0x73) == 0x19fe_06e3_408e_53d0u64) by (bit_vector);
    lemma_hashed_more(bytes, 0);
    lemma_hashed_more(bytes, 1);
    lemma_hashed_more(bytes, 2);
    lemma_hashed_more(bytes, 3);
    lemma_hashed_more(bytes, 4);
    lemma_hashed_more(bytes, 5);
    lemma_hashed_more(bytes, 6);
}

proof fn lemma_error_series()
    ensures
        series_of("error"@) == 0x9f74_52dd_75d5_4d31,
{
    let bytes = encode_utf8("error"@);
    reveal_strlit("error");
    assert(is_ascii_chars("error"@));
    is_ascii_chars_encode_utf8("error"@);
    assert(bytes =~= seq![0x65u8, 0x72, 0x72, 0x6f, 0x72]);
    assert(bytes.take(5) =~= bytes);
    assert(hashed_byte(0xcbf2_9ce4_8422_2325, 0x65) == 0xaf63_d84c_8601_e5c0u64) by (bit_vector);
    assert(hashed_byte(0xaf63_d84c_8601_e5c0, 0x72) == 0x088e_3c07_b539_4d76u64) by (bit_vector);
    assert(hashed_byte(0x088e_3c07_b539_4d76, 0x72) == 0xc2fd_0518_f05d_ddccu64) by (bit_vector);
    assert(hashed_byte(0xc2fd_0518_f05d_ddcc, 0x6f) == 0xb1cd_4c60_6f7f_9bf9u64) by (bit_vector);
    assert(hashed_byte(0xb1cd_4c60_6f7f_9bf9, 0x72) == 0x9f74_52dd_75d5_4d31u64) by (bit_vector);
    lemma_hashed_more(bytes, 0);
    lemma_hashed_more(bytes, 1);
    lemma_hashed_more(bytes, 2);
    lemma_hashed_more(bytes, 3);
    lemma_hashed_more(bytes, 4);
}

/// Reconciliations that succeed and reconciliations that fail are counted apart: counting the one
/// result leaves the count of the other as it is.
pub proof fn law_results_are_counted_apart(metrics: MetricsView)
    ensures
        series_of("success"@) != series_of("error"@),
        count_in(
            metrics.cycle_recorded("success"@).reconcile_cycles,
            series_of("error"@),
        ) == count_in(metrics.reconcile_cycles, series_of("error"@)),
        count_in(
            metrics.cycle_recorded("error"@).reconcile_cycles,
            series_of("success"@),
        ) == count_in(metrics.reconcile_cycles, series_of("success"@)),
{
    lemma_success_series();
    lemma_error_series();
}

/// Counting in two series, or twice in one, comes to the same in either order.
proof fn lemma_counted_in_any_order(
    counts: Map<u64, u64>,
    first: u64,
    first_count: u64,
    second: u64,
    second_count: u64,
)
    ensures
        counted_under(counted_under(counts, first, first_count), second, second_count)
            == counted_under(counted_under(counts, second, second_count), first, first_count),
{
    assert(counted_under(counted_under(counts, first, first_count), second, second_count)
        =~= counted_under(counted_under(counts, second, second_count), first, first_count));
}

/// First counting under label values in two series shows the same in either order, and so does
/// counting twice under the same ones.
proof fn lemma_labelled_in_any_order(
    labels: Map<u64, Seq<Seq<char>>>,
    first: u64,
    first_values: Seq<Seq<char>>,
    second: u64,
    second_values: Seq<Seq<char>>,
)
    requires
        first == second ==> first_values == second_values,
    ensures
        labelled_under(labelled_under(labels, first, first_values), second, second_values)
            == labelled_under(labelled_under(labels, second, second_values), first, first_values),
{
    assert(labelled_under(labelled_under(labels, first, first_values), second, second_values)
        =~= labelled_under(labelled_under(labels, second, second_values), first, first_values));
}

/// Scans that run side by side may count in any order: the counts of applications and of pods
/// come to the same, and as long as different label values have series of their own, so does
/// everything.
pub proof fn law_counts_come_in_any_order(
    metrics: MetricsView,
    namespace: Seq<char>,
    app: Seq<char>,
    count: u64,
    other_namespace: Seq<char>,
    other_app: Seq<char>,
    other_count: u64,
)
    ensures
        ({
            let one = metrics.pods_recorded(namespace, app, count).pods_recorded(
                other_namespace,
                other_app,
                other_count,
            );
            let other = metrics.pods_recorded(
                other_namespace,
                other_app,
                other_count,
            ).pods_recorded(namespace, app, count);
            let apart = series_of(namespace + app) == series_of(other_namespace + other_app) ==> (
            namespace == other_namespace && app == other_app);
            one.pods == other.pods && (apart ==> one == other)
        }),
        ({
            let one = metrics.apps_recorded(namespace, count).apps_recorded(
                other_namespace,
                other_count,
            );
            let other = metrics.apps_recorded(other_namespace, other_count).apps_recorded(
                namespace,
                count,
            );
            let apart = series_of(namespace) == series_of(other_namespace) ==> namespace
                == other_namespace;
            one.apps == other.apps && (apart ==> one == other)
        }),
        metrics.apps_recorded(namespace, count).pods_recorded(
            other_namespace,
            other_app,
            other_count,
        ) == metrics.pods_recorded(other_namespace, other_app, other_count).apps_recorded(
            namespace,
            count,
        ),
{
    if series_of(namespace + app) != series_of(other_namespace + other_app) || (namespace
        == other_namespace && app == other_app) {
        lemma_labelled_in_any_order(
            metrics.pod_labels,
            series_of(namespace + app),
            seq![namespace, app],
            series_of(other_namespace + other_app),
            seq![other_namespace, other_app],
        );
    }
    if series_of(namespace) != series_of(other_namespace) || namespace == other_namespace {
        lemma_labelled_in_any_order(
            metrics.app_labels,
            series_of(namespace),
            seq![namespace],
            series_of(other_namespace),
            seq![other_namespace],
        );
    }
    lemma_counted_in_any_order(
        metrics.pods,
        series_of(namespace + app),
        count,
        series_of(other_namespace + other_app),
        other_count,
    );
    lemma_counted_in_any_order(
        metrics.apps,
        series_of(namespace),
        count,
        series_of(other_namespace),
        other_count,
    );
}

/// Counting `count` pods of an application adds `count` to one series of the count of pods, which is
/// the one of the namespace and the application and shows both of them if it is new, and changes
/// nothing else.
pub proof fn law_pods_are_counted(
    metrics: MetricsView,
    namespace: Seq<char>,
    app: Seq<char>,
    count: u64,
)
    ensures
        ({
            let after = metrics.pods_recorded(namespace, app, count);
            let series = hashed(encode_utf8(namespace + app));
            &&& after.pods.contains_key(series)
            &&& after.pods[series] as int == (count_in(metrics.pods, series) + count)
                % 0x1_0000_0000_0000_0000
            &&& after.pods.remove(series) == metrics.pods.remove(series)
            &&& after.pod_labels.contains_key(series)
            &&& after.pod_labels[series] == if metrics.pod_labels.contains_key(series) {
                metrics.pod_labels[series]
            } else {
                seq![namespace, app]
            }
            &&& after.pod_labels.remove(series) == metrics.pod_labels.remove(series)
            &&& after.reconcile_cycles == metrics.reconcile_cycles
            &&& after.cycle_labels == metrics.cycle_labels
            &&& after.namespaces == metrics.namespaces
            &&& after.apps == metrics.apps
            &&& after.app_labels == metrics.app_labels
        }),
{
    let after = metrics.pods_recorded(namespace, app, count);
    let series = series_of(namespace + app);
    assert(after.pods.remove(series) =~= metrics.pods.remove(series));
    assert(after.pod_labels.remove(series) =~= metrics.pod_labels.remove(series));
}

/// Counting `count` applications of a namespace adds `count` to one series of the count of
/// applications, which is the one of the namespace and shows it if it is new, and changes nothing
/// else.
pub proof fn law_apps_are_counted(metrics: MetricsView, namespace: Seq<char>, count: u64)
    ensures
        ({
            let after = metrics.apps_recorded(namespace, count);
            let series = hashed(encode_utf8(namespace));
            &&& after.apps.contains_key(series)
            &&& after.apps[series] as int == (count_in(metrics.apps, series) + count)
                % 0x1_0000_0000_0000_0000
            &&& after.apps.remove(series) == metrics.apps.remove(series)
            &&& after.app_labels.contains_key(series)
            &&& after.app_labels[series] == if metrics.app_labels.contains_key(series) {
                metrics.app_labels[series]
            } else {
                seq![namespace]
            }
            &&& after.app_labels.remove(series) == metrics.app_labels.remove(series)
            &&& after.reconcile_cycles == metrics.reconcile_cycles
            &&& after.cycle_labels == metrics.cycle_labels
            &&& after.namespaces == metrics.namespaces
            &&& after.pods == metrics.pods
            &&& after.pod_labels == metrics.pod_labels
        }),
{
    let after = metrics.apps_recorded(namespace, count);
    let series = series_of(namespace);
    assert(after.apps.remove(series) =~= metrics.apps.remove(series));
    assert(after.app_labels.remove(series) =~= metrics.app_labels.remove(series));
}

/// Counting a reconciliation cycle adds one to one series of the count of cycles, which is the one
/// of the result and shows it if it is new, and changes nothing else; counting namespaces adds to
/// the count of namespaces alone.
pub proof fn law_cycles_and_namespaces_are_counted(
    metrics: MetricsView,
    result: Seq<char>,
    count: u64,
)
    ensures
        ({
            let after = metrics.cycle_recorded(result);
            let series = hashed(encode_utf8(result));
            &&& after.reconcile_cycles.contains_key(series)
            &&& after.reconcile_cycles[series] as int == (count_in(metrics.reconcile_cycles, series)
                + 1) % 0x1_0000_0000_0000_0000
            &&& after.reconcile_cycles.remove(series) == metrics.reconcile_cycles.remove(series)
            &&& after.cycle_labels.contains_key(series)
            &&& after.cycle_labels[series] == if metrics.cycle_labels.contains_key(series) {
                metrics.cycle_labels[series]
            } else {
                seq![result]
            }
            &&& after.cycle_labels.remove(series) == metrics.cycle_labels.remove(series)
            &&& after.namespaces == metrics.namespaces
            &&& after.apps == metrics.apps
            &&& after.app_labels == metrics.app_labels
            &&& after.pods == metrics.pods
            &&& after.pod_labels == metrics.pod_labels
        }),
        ({
            let after = metrics.namespaces_recorded(count);
            &&& after.namespaces as int == (metrics.namespaces + count) % 0x1_0000_0000_0000_0000
            &&& after == (MetricsView { namespaces: after.namespaces, ..metrics })
        }),
{
    let after = metrics.cycle_recorded(result);
    let series = series_of(result);
    assert(after.reconcile_cycles.remove(series) =~= metrics.reconcile_cycles.remove(series));
    assert(after.cycle_labels.remove(series) =~= metrics.cycle_labels.remove(series));
}

/// An answer to a request for the metrics.
#[derive(Debug)]
pub struct MetricsReply {
    /// The status code.
    pub status: u16,
    pub body: Vec<u8>,
    /// Why there is no text, which is not for the one who asked.
    pub cause: Option<String>,
}

/// Whether `reply` is the answer to a request for metrics that are handed out as `text`, or for
/// which there is none, for the cause that comes in its place.
pub open spec fn answers(reply: MetricsReply, text: Result<Seq<u8>, Seq<char>>) -> bool {
    match text {
        Ok(bytes) => {
            &&& reply.status == 200
            &&& reply.body@ == bytes
            &&& reply.cause is None
        },
        Err(cause) => {
            &&& reply.status == 500
            &&& reply.body@ == "Internal Server Error".spec_bytes()
            &&& reply.cause is Some
            &&& reply.cause->0@ == cause
        },
    }
}

/// Whether any of the metrics are of no known type.
pub open spec fn any_untyped(families: Seq<prometheus::proto::MetricFamily>) -> bool {
    exists|i: int| 0 <= i < families.len() && untyped(#[trigger] families[i])
}

/// The text of what a registry hands out: none if any of it is untyped.
pub open spec fn rendered(families: Seq<prometheus::proto::MetricFamily>) -> Result<
    Seq<u8>,
    Seq<char>,
> {
    if any_untyped(families) {
        Err("A metric is of no known type"@)
    } else {
        exposition(families)
    }
}

/// Answers a request for metrics that were written as `text`, or that could not be written, for
/// the cause that comes in place of the text.
pub fn metrics_reply(text: Result<Vec<u8>, String>) -> (reply: MetricsReply)
    ensures
        answers(
            reply,
            match text {
                Ok(bytes) => Ok(bytes@),
                Err(cause) => Err(cause@),
            },
        ),
        match text {
            Ok(bytes) => reply.status == 200 && reply.body@ == bytes@ && reply.cause is None,
            Err(cause) => {
                &&& reply.status == 500
                &&& reply.body@ == "Internal Server Error".spec_bytes()
                &&& reply.cause is Some
                &&& reply.cause->0@ == cause@
            },
        },
{
    match text {
        Ok(bytes) => MetricsReply { status: 200, body: bytes, cause: None },
        Err(cause) => MetricsReply {
            status: 500,
            body: "Internal Server Error".as_bytes_vec(),
            cause: Some(cause),
        },
    }
}

/// Answers a request for the metrics with the text of `families`, all of them and in their order.
///
/// The answer is an error if there is no text for all of them. There is none where metrics are of
/// no known type, which the encoder cannot write.
pub fn metrics_reply_for(families: &Vec<prometheus::proto::MetricFamily>) -> (reply: MetricsReply)
    ensures
        answers(reply, rendered(families@)),
        reply.status == 200 <==> (forall|i: int|
            0 <= i < families@.len() ==> !untyped(#[trigger] families@[i])) && exposition(
            families@,
        ) is Ok,
        reply.status == 200 ==> reply.body@ == exposition(families@)->Ok_0 && reply.cause is None,
        reply.status != 200 ==> reply.status == 500 && reply.body@
            == "Internal Server Error".spec_bytes() && reply.cause is Some,
{
    let mut i: usize = 0;
    while i < families.len()
        invariant
            i <= families@.len(),
            forall|j: int| 0 <= j < i ==> !untyped(#[trigger] families@[j]),
        decreases families@.len() - i,
    {
        if is_untyped(&families[i]) {
            return metrics_reply(Err("A metric is of no known type".to_owned()));
        }
        i = i + 1;
    }
    metrics_reply(encode(families))
}

/// Whether `families` are what the registry of the process can hand out.
pub closed spec fn gathered(families: Vec<prometheus::proto::MetricFamily>) -> bool {
    call_ensures(gather, (), families)
}

/// Answers a request for the metrics with all that the process has registered: gathers it and
/// leaves the rest to [`metrics_reply_for`].
pub fn server_metrics() -> (reply: MetricsReply)
    ensures
        exists|families: Vec<prometheus::proto::MetricFamily>|
            #![trigger gathered(families)]
            gathered(families) && answers(reply, rendered(families@)),
{
    let families = gather();
    assert(gathered(families));
    metrics_reply_for(&families)
}

/// The address that the metrics are served at, unless another one is configured.
pub fn metrics_bind_addr(configured: Option<String>) -> (address: String)
    ensures
        address@ == match configured {
            Some(configured) => configured@,
            None => "0.0.0.0:5085"@,
        },
{
    match configured {
        Some(configured) => configured,
        None => "0.0.0.0:5085".to_owned(),
    }
}

} // verus!
