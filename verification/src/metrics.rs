//! Counters and gauges of the service.
//!
//! A family with labels counts in series. `prometheus` finds the series of a list
//! of label values by a hash of their texts one after another, so two lists can
//! share a series; the contracts speak of series, not of lists. Likewise a registry
//! tells metrics apart by a hash of their names.

use crate::metric_ids::metric_ids_are_distinct;
use prometheus::Registry;
use vstd::prelude::*;
use vstd::utf8::encode_utf8;

verus! {

// ---------------------------------------------------------------------------
// The metrics of the outside crate
// ---------------------------------------------------------------------------

/// The registry of `prometheus`.
#[verifier::external_type_specification]
#[verifier::external_body]
pub struct ExRegistry(prometheus::Registry);

/// A counter: `prometheus::IntCounter`. Its type is bounded by a trait of that
/// crate, so it is kept inside.
#[verifier::external_body]
#[derive(Debug)]
pub struct Counter {
    inner: prometheus::IntCounter,
}

/// A family of counters with labels: `prometheus::IntCounterVec`, kept inside like
/// [`Counter`].
#[verifier::external_body]
#[derive(Debug)]
pub struct CounterVec {
    inner: prometheus::IntCounterVec,
}

/// A gauge: `prometheus::IntGauge`, kept inside like [`Counter`].
#[verifier::external_body]
#[derive(Debug)]
pub struct Gauge {
    inner: prometheus::IntGauge,
}

/// A family of gauges with labels: `prometheus::IntGaugeVec`, kept inside like
/// [`Counter`].
#[verifier::external_body]
#[derive(Debug)]
pub struct GaugeVec {
    inner: prometheus::IntGaugeVec,
}

/// The value of a counter.
pub uninterp spec fn counter_value(c: Counter) -> u64;

/// The value of a gauge.
pub uninterp spec fn gauge_value(g: Gauge) -> i64;

/// The series of a family of counters, with their values.
pub uninterp spec fn counter_series(v: CounterVec) -> Map<u64, u64>;

/// The series of a family of gauges, with their values.
pub uninterp spec fn gauge_series(v: GaugeVec) -> Map<u64, i64>;

/// What a metric is registered and shown under.
#[verifier::ext_equal]
pub struct Descriptor {
    pub name: Seq<char>,
    pub help: Seq<char>,
    pub labels: Seq<Seq<char>>,
}

/// The descriptor of a counter.
pub uninterp spec fn counter_desc(c: Counter) -> Descriptor;

/// The descriptor of a family of counters.
pub uninterp spec fn counter_vec_desc(v: CounterVec) -> Descriptor;

/// The descriptor of a gauge.
pub uninterp spec fn gauge_desc(g: Gauge) -> Descriptor;

/// The descriptor of a family of gauges.
pub uninterp spec fn gauge_vec_desc(v: GaugeVec) -> Descriptor;

/// The ids of the descriptors that a registry holds.
pub uninterp spec fn registered(r: Registry) -> Set<u64>;

/// Whether a registry got its descriptors one at a time, from metrics with one
/// descriptor each and without constant labels, and none was taken out of it.
pub uninterp spec fn one_by_one(r: Registry) -> bool;

/// The FNV-1a hash of bytes, begun with `h`.
pub open spec fn fnv(h: u64, bytes: Seq<u8>) -> u64
    decreases bytes.len(),
{
    if bytes.len() == 0 {
        h
    } else {
        fnv((h ^ (bytes[0] as u64)).wrapping_mul(0x100000001b3u64), bytes.drop_first())
    }
}

/// The series that a list of label values belongs to: the hash of their texts, one
/// after another.
#[verifier::opaque]
pub open spec fn series_of(labels: Seq<Seq<char>>) -> u64 {
    fnv(0xcbf29ce484222325u64, encode_utf8(labels.flatten()))
}

/// The id of a descriptor without constant labels: the hash of its name and a
/// separator.
#[verifier::opaque]
pub open spec fn desc_id(d: Descriptor) -> u64 {
    fnv(0xcbf29ce484222325u64, encode_utf8(d.name).push(0xffu8))
}

/// The texts of label values.
pub open spec fn label_texts(labels: Seq<&str>) -> Seq<Seq<char>> {
    labels.map_values(|l: &str| l@)
}

/// A character that a name may start with.
pub open spec fn name_start(c: char, colon: bool) -> bool {
    ||| 'a' <= c <= 'z'
    ||| 'A' <= c <= 'Z'
    ||| c == '_'
    ||| colon && c == ':'
}

/// A name: of a metric, which may hold colons, or of a label.
pub open spec fn metric_name(s: Seq<char>, colon: bool) -> bool {
    &&& s.len() > 0
    &&& name_start(s[0], colon)
    &&& forall|i: int|
        0 <= i < s.len() ==> name_start(#[trigger] s[i], colon) || '0' <= s[i] <= '9'
}

/// The label names of a family: each is a name, and none comes twice.
pub open spec fn label_names(labels: Seq<Seq<char>>) -> bool {
    &&& labels.no_duplicates()
    &&& forall|i: int| 0 <= i < labels.len() ==> metric_name(#[trigger] labels[i], false)
}

/// A descriptor that `prometheus` accepts.
pub open spec fn valid(d: Descriptor) -> bool {
    metric_name(d.name, true) && d.help.len() > 0 && label_names(d.labels)
}

/// The descriptor of a metric without labels.
pub open spec fn plain(name: Seq<char>, help: Seq<char>) -> Descriptor {
    Descriptor { name, help, labels: Seq::empty() }
}

/// The descriptor of a family with labels.
pub open spec fn labelled(name: Seq<char>, help: Seq<char>, labels: Seq<Seq<char>>) -> Descriptor {
    Descriptor { name, help, labels }
}

/// The value of the series, zero where it is not there.
pub open spec fn counted(m: Map<u64, u64>, key: u64) -> u64 {
    if m.dom().contains(key) {
        m[key]
    } else {
        0
    }
}

/// The value of the series, zero where it is not there.
pub open spec fn gauged(m: Map<u64, i64>, key: u64) -> i64 {
    if m.dom().contains(key) {
        m[key]
    } else {
        0
    }
}

/// `prometheus::IntCounter::new`: a counter at zero; `None` where the name is no
/// name of a metric or the help text is empty.
#[verifier::external_body]
fn new_counter(name: &str, help: &str) -> (r: Option<Counter>)
    ensures
        (r is Some) == valid(plain(name@, help@)),
        r matches Some(c) ==> counter_value(c) == 0 && counter_desc(c) == plain(name@, help@),
{
    prometheus::IntCounter::new(name, help).ok().map(|inner| Counter { inner })
}

/// `prometheus::IntCounterVec::new`: a family without series; `None` where the name
/// is no name of a metric, the help text is empty, or a label is no name or comes
/// twice.
#[verifier::external_body]
fn new_counter_vec(name: &str, help: &str, labels: &Vec<&str>) -> (r: Option<CounterVec>)
    ensures
        (r is Some) == valid(labelled(name@, help@, label_texts(labels@))),
        r matches Some(v) ==> counter_vec_desc(v) == labelled(name@, help@, label_texts(labels@))
            && forall|k: u64| !(#[trigger] counter_series(v).dom().contains(k)),
{
    let opts = prometheus::Opts::new(name, help);
    prometheus::IntCounterVec::new(opts, labels).ok().map(|inner| CounterVec { inner })
}

/// `prometheus::IntGauge::new`: a gauge at zero; `None` where the name is no name of
/// a metric or the help text is empty.
#[verifier::external_body]
fn new_gauge(name: &str, help: &str) -> (r: Option<Gauge>)
    ensures
        (r is Some) == valid(plain(name@, help@)),
        r matches Some(g) ==> gauge_value(g) == 0 && gauge_desc(g) == plain(name@, help@),
{
    prometheus::IntGauge::new(name, help).ok().map(|inner| Gauge { inner })
}

/// `prometheus::IntGaugeVec::new`: a family without series; `None` where the name is
/// no name of a metric, the help text is empty, or a label is no name or comes twice.
#[verifier::external_body]
fn new_gauge_vec(name: &str, help: &str, labels: &Vec<&str>) -> (r: Option<GaugeVec>)
    ensures
        (r is Some) == valid(labelled(name@, help@, label_texts(labels@))),
        r matches Some(v) ==> gauge_vec_desc(v) == labelled(name@, help@, label_texts(labels@))
            && forall|k: u64| !(#[trigger] gauge_series(v).dom().contains(k)),
{
    let opts = prometheus::Opts::new(name, help);
    prometheus::IntGaugeVec::new(opts, labels).ok().map(|inner| GaugeVec { inner })
}

/// `prometheus::Registry::new`: a registry without metrics.
#[verifier::external_body]
fn new_registry() -> (r: Registry)
    ensures
        one_by_one(r),
        forall|k: u64| !(#[trigger] registered(r).contains(k)),
{
    Registry::new()
}

/// `prometheus::Registry::register` of a counter: it is accepted where no descriptor
/// with its id is registered, and is registered then; else nothing changes. This is
/// claimed of a registry that got its descriptors one by one.
#[verifier::external_body]
fn register_counter(registry: &mut Registry, c: &Counter) -> (r: bool)
    requires
        one_by_one(*old(registry)),
    ensures
        one_by_one(*final(registry)),
        r == !registered(*old(registry)).contains(desc_id(counter_desc(*c))),
        registered(*final(registry)) == (if r {
            registered(*old(registry)).insert(desc_id(counter_desc(*c)))
        } else {
            registered(*old(registry))
        }),
{
    registry.register(Box::new(c.inner.clone())).is_ok()
}

/// `prometheus::Registry::register` of a family of counters: it is accepted where no descriptor
/// with its id is registered, and is registered then; else nothing changes. This is
/// claimed of a registry that got its descriptors one by one.
#[verifier::external_body]
fn register_counter_vec(registry: &mut Registry, v: &CounterVec) -> (r: bool)
    requires
        one_by_one(*old(registry)),
    ensures
        one_by_one(*final(registry)),
        r == !registered(*old(registry)).contains(desc_id(counter_vec_desc(*v))),
        registered(*final(registry)) == (if r {
            registered(*old(registry)).insert(desc_id(counter_vec_desc(*v)))
        } else {
            registered(*old(registry))
        }),
{
    registry.register(Box::new(v.inner.clone())).is_ok()
}

/// `prometheus::Registry::register` of a gauge: it is accepted where no descriptor
/// with its id is registered, and is registered then; else nothing changes. This is
/// claimed of a registry that got its descriptors one by one.
#[verifier::external_body]
fn register_gauge(registry: &mut Registry, g: &Gauge) -> (r: bool)
    requires
        one_by_one(*old(registry)),
    ensures
        one_by_one(*final(registry)),
        r == !registered(*old(registry)).contains(desc_id(gauge_desc(*g))),
        registered(*final(registry)) == (if r {
            registered(*old(registry)).insert(desc_id(gauge_desc(*g)))
        } else {
            registered(*old(registry))
        }),
{
    registry.register(Box::new(g.inner.clone())).is_ok()
}

/// `prometheus::Registry::register` of a family of gauges: it is accepted where no descriptor
/// with its id is registered, and is registered then; else nothing changes. This is
/// claimed of a registry that got its descriptors one by one.
#[verifier::external_body]
fn register_gauge_vec(registry: &mut Registry, v: &GaugeVec) -> (r: bool)
    requires
        one_by_one(*old(registry)),
    ensures
        one_by_one(*final(registry)),
        r == !registered(*old(registry)).contains(desc_id(gauge_vec_desc(*v))),
        registered(*final(registry)) == (if r {
            registered(*old(registry)).insert(desc_id(gauge_vec_desc(*v)))
        } else {
            registered(*old(registry))
        }),
{
    registry.register(Box::new(v.inner.clone())).is_ok()
}

/// `prometheus::IntCounter::inc_by`: adds to the counter, wrapping around at the
/// end of its range.
#[verifier::external_body]
fn counter_inc_by(c: &mut Counter, n: u64)
    ensures
        counter_value(*final(c)) == counter_value(*old(c)).wrapping_add(n),
        counter_desc(*final(c)) == counter_desc(*old(c)),
{
    c.inner.inc_by(n);
}

/// `prometheus::IntCounter::get`: the value of the counter.
#[verifier::external_body]
fn counter_get(c: &Counter) -> (r: u64)
    ensures
        r == counter_value(*c),
{
    c.inner.get()
}

/// `prometheus::IntCounterVec::with_label_values` and `inc` on what it gives: adds
/// one to the series of the labels, which starts at zero, and leaves the others. It
/// panics where the number of labels is another.
#[verifier::external_body]
fn counter_vec_inc(v: &mut CounterVec, labels: &Vec<&str>)
    requires
        labels@.len() == counter_vec_desc(*old(v)).labels.len(),
    ensures
        counter_vec_desc(*final(v)) == counter_vec_desc(*old(v)),
        counter_series(*final(v)) == counter_series(*old(v)).insert(
            series_of(label_texts(labels@)),
            counted(
                counter_series(*old(v)),
                series_of(label_texts(labels@)),
            ).wrapping_add(1),
        ),
{
    v.inner.with_label_values(labels).inc();
}

/// `prometheus::IntGauge::set`: the gauge takes the value.
#[verifier::external_body]
fn gauge_set(g: &mut Gauge, value: i64)
    ensures
        gauge_value(*final(g)) == value,
        gauge_desc(*final(g)) == gauge_desc(*old(g)),
{
    g.inner.set(value);
}

/// `prometheus::IntGaugeVec::with_label_values` and `set` on what it gives: the
/// series of the labels takes the value, the others stay. It panics where the
/// number of labels is another.
#[verifier::external_body]
fn gauge_vec_set(v: &mut GaugeVec, labels: &Vec<&str>, value: i64)
    requires
        labels@.len() == gauge_vec_desc(*old(v)).labels.len(),
    ensures
        gauge_vec_desc(*final(v)) == gauge_vec_desc(*old(v)),
        gauge_series(*final(v)) == gauge_series(*old(v)).insert(
            series_of(label_texts(labels@)),
            value,
        ),
{
    v.inner.with_label_values(labels).set(value);
}

/// `prometheus::IntGaugeVec::with_label_values` and `add` on what it gives: adds to
/// the series of the labels, which starts at zero, wrapping around at the ends of
/// its range. It panics where the number of labels is another.
#[verifier::external_body]
fn gauge_vec_add(v: &mut GaugeVec, labels: &Vec<&str>, n: i64)
    requires
        labels@.len() == gauge_vec_desc(*old(v)).labels.len(),
    ensures
        gauge_vec_desc(*final(v)) == gauge_vec_desc(*old(v)),
        gauge_series(*final(v)) == gauge_series(*old(v)).insert(
            series_of(label_texts(labels@)),
            gauged(gauge_series(*old(v)), series_of(label_texts(labels@))).wrapping_add(n),
        ),
{
    v.inner.with_label_values(labels).add(n);
}

/// `prometheus::IntGaugeVec::reset`: the family has no series any more.
#[verifier::external_body]
fn gauge_vec_reset(v: &mut GaugeVec)
    ensures
        gauge_vec_desc(*final(v)) == gauge_vec_desc(*old(v)),
        forall|k: u64| !(#[trigger] gauge_series(*final(v)).dom().contains(k)),
{
    v.inner.reset();
}

/// `prometheus::IntGaugeVec::with_label_values` and `get` on what it gives: the
/// value of the series of the labels. It panics where the number of labels is
/// another.
#[verifier::external_body]
fn gauge_vec_get(v: &mut GaugeVec, labels: &Vec<&str>) -> (r: i64)
    requires
        labels@.len() == gauge_vec_desc(*old(v)).labels.len(),
    ensures
        r == gauged(gauge_series(*old(v)), series_of(label_texts(labels@))),
        gauge_vec_desc(*final(v)) == gauge_vec_desc(*old(v)),
        gauge_series(*final(v)) == gauge_series(*old(v)).insert(
            series_of(label_texts(labels@)),
            gauged(gauge_series(*old(v)), series_of(label_texts(labels@))),
        ),
{
    v.inner.with_label_values(labels).get()
}

// ---------------------------------------------------------------------------
// The metrics of the service
// ---------------------------------------------------------------------------

/// The metrics of the service, registered in one registry.
#[derive(Debug)]
pub struct Metrics {
    /// Where they are registered.
    pub registry: Registry,
    /// Total number of tasks created.
    pub tasks_created_total: Counter,
    /// Total number of tasks cancelled.
    pub tasks_cancelled_total: Counter,
    /// Total number of tasks that timed out.
    pub tasks_timed_out_total: Counter,
    /// Total number of tasks created with dependencies.
    pub tasks_with_dependencies: Counter,
    /// Total number of tasks unblocked after dependencies completed.
    pub tasks_unblocked: Counter,
    /// Total number of tasks failed due to required dependency failure.
    pub tasks_failed_by_dependency: Counter,
    /// Total number of ancestor tasks canceled by dead-end detection.
    pub tasks_canceled_dead_end_total: Counter,
    /// Total number of tasks where database save failed after max retries.
    pub tasks_db_save_failures: Counter,
    /// Total number of batch update failures (counts re-queued for retry).
    pub batch_update_failures: Counter,
    /// Number of idempotency conflicts when claiming webhook executions.
    pub webhook_idempotent_conflicts: Counter,
    /// Total number of batch counter-update events accepted by the PUT /task handler.
    pub batch_update_events_total: Counter,
    /// Total number of tasks blocked due to concurrency rules.
    pub tasks_blocked_by_concurrency: Counter,
    /// Times the claim loop's blocked-rule (ko) cache let it skip a concurrency DB check.
    pub concurrency_ko_cache_hits_total: Counter,
    /// Total number of tasks skipped by a dedupe_strategy match during batch insert.
    pub tasks_deduped_total: Counter,
    /// Total number of batch_complete signals enqueued (last task of a batch became terminal).
    pub batches_completed_total: Counter,
    /// Total number of failures to acquire a DB connection from the pool after all retries.
    pub db_pool_acquire_failures: Counter,
    /// Total number of requests rejected by circuit breaker.
    pub circuit_breaker_rejections: Counter,
    /// Total number of tasks deleted by retention cleanup.
    pub retention_tasks_cleaned: Counter,
    /// Number of task status transitions, by `from_status` and `to_status`.
    pub task_status_transitions: CounterVec,
    /// Total number of tasks completed, by `outcome` and `kind`.
    pub tasks_completed_total: CounterVec,
    /// Number of dependency propagations when parent tasks complete, by `parent_outcome`.
    pub dependency_propagations: CounterVec,
    /// Number of webhook executions, by `trigger` and `outcome`.
    pub webhook_executions: CounterVec,
    /// Number of webhook attempts (including failures), by `trigger` and `outcome`.
    pub webhook_attempts_total: CounterVec,
    /// Number of webhook executions skipped due to idempotency (already succeeded), by `trigger`.
    pub webhook_idempotent_skips: CounterVec,
    /// Number of outbox webhook delivery attempts that failed and were rescheduled, by `trigger`.
    pub webhook_delivery_retries: CounterVec,
    /// Number of outbox webhook deliveries that exhausted all retry attempts, by `trigger`.
    pub webhook_delivery_exhausted: CounterVec,
    /// Number of outbox webhook deliveries that succeeded, by `trigger`.
    pub webhook_delivery_success: CounterVec,
    /// Number of outbox mark writes (success/retry/exhausted) that failed (lease will re-deliver), by `mark`.
    pub webhook_mark_failures: CounterVec,
    /// Total number of worker loop iterations, by `loop`.
    pub worker_loop_iterations: CounterVec,
    /// Total number of queries exceeding slow query threshold, by `query`.
    pub slow_queries_total: CounterVec,
    /// Number of circuit breaker state transitions, by `to_state`.
    pub circuit_breaker_state_transitions: CounterVec,
    /// Number of retention cleanup runs by outcome, by `outcome`.
    pub retention_cleanup_runs: CounterVec,
    /// Available permits on the batch-update channel, sampled at send time.
    pub batch_channel_capacity_available: Gauge,
    /// Number of distinct tasks with un-persisted counters in the batch updater (crash-loss window).
    pub batch_updater_pending_tasks: Gauge,
    /// Current number of tasks by status, by `status`.
    pub tasks_by_status: GaugeVec,
    /// Current number of running tasks by kind, by `kind`.
    pub running_tasks_by_kind: GaugeVec,
    /// Current depth of the webhook outbox backlog (state=ready: mature; state=leased: not yet due), by `state`.
    pub webhook_outbox_pending: GaugeVec,
    /// Unix timestamp of the last iteration of each worker loop (liveness heartbeat), by `loop`.
    pub worker_loop_last_iteration_timestamp: GaugeVec,
    /// Current DB pool connections by state (in_use, idle), by `state`.
    pub db_pool_connections: GaugeVec,
    /// Current number of webhook executions in progress, by `phase`.
    pub webhooks_in_flight: GaugeVec,
}

impl Metrics {
    /// Every metric has its name, its help text and its labels.
    pub open spec fn wf(self) -> bool {
        &&& counter_desc(self.tasks_created_total) == plain(
            "tasks_created_total"@,
            "Total number of tasks created"@,
        )
        &&& counter_desc(self.tasks_cancelled_total) == plain(
            "tasks_cancelled_total"@,
            "Total number of tasks cancelled"@,
        )
        &&& counter_desc(self.tasks_timed_out_total) == plain(
            "tasks_timed_out_total"@,
            "Total number of tasks that timed out"@,
        )
        &&& counter_desc(self.tasks_with_dependencies) == plain(
            "tasks_with_dependencies_total"@,
            "Total number of tasks created with dependencies"@,
        )
        &&& counter_desc(self.tasks_unblocked) == plain(
            "tasks_unblocked_total"@,
            "Total number of tasks unblocked after dependencies completed"@,
        )
        &&& counter_desc(self.tasks_failed_by_dependency) == plain(
            "tasks_failed_by_dependency_total"@,
            "Total number of tasks failed due to required dependency failure"@,
        )
        &&& counter_desc(self.tasks_canceled_dead_end_total) == plain(
            "tasks_canceled_dead_end_total"@,
            "Total number of ancestor tasks canceled by dead-end detection"@,
        )
        &&& counter_desc(self.tasks_db_save_failures) == plain(
            "tasks_db_save_failures_total"@,
            "Total number of tasks where database save failed after max retries"@,
        )
        &&& counter_desc(self.batch_update_failures) == plain(
            "batch_update_failures_total"@,
            "Total number of batch update failures (counts re-queued for retry)"@,
        )
        &&& counter_desc(self.webhook_idempotent_conflicts) == plain(
            "webhook_idempotent_conflicts_total"@,
            "Number of idempotency conflicts when claiming webhook executions"@,
        )
        &&& counter_desc(self.batch_update_events_total) == plain(
            "batch_update_events_total"@,
            "Total number of batch counter-update events accepted by the PUT /task handler"@,
        )
        &&& counter_desc(self.tasks_blocked_by_concurrency) == plain(
            "tasks_blocked_by_concurrency_total"@,
            "Total number of tasks blocked due to concurrency rules"@,
        )
        &&& counter_desc(self.concurrency_ko_cache_hits_total) == plain(
            "concurrency_ko_cache_hits_total"@,
            "Times the claim loop's blocked-rule (ko) cache let it skip a concurrency DB check"@,
        )
        &&& counter_desc(self.tasks_deduped_total) == plain(
            "tasks_deduped_total"@,
            "Total number of tasks skipped by a dedupe_strategy match during batch insert"@,
        )
        &&& counter_desc(self.batches_completed_total) == plain(
            "batches_completed_total"@,
            "Total number of batch_complete signals enqueued (last task of a batch became terminal)"@,
        )
        &&& counter_desc(self.db_pool_acquire_failures) == plain(
            "db_pool_acquire_failures_total"@,
            "Total number of failures to acquire a DB connection from the pool after all retries"@,
        )
        &&& counter_desc(self.circuit_breaker_rejections) == plain(
            "circuit_breaker_rejections_total"@,
            "Total number of requests rejected by circuit breaker"@,
        )
        &&& counter_desc(self.retention_tasks_cleaned) == plain(
            "retention_tasks_cleaned_total"@,
            "Total number of tasks deleted by retention cleanup"@,
        )
        &&& counter_vec_desc(self.task_status_transitions) == labelled(
            "task_status_transitions_total"@,
            "Number of task status transitions"@,
            seq!["from_status"@, "to_status"@],
        )
        &&& counter_vec_desc(self.tasks_completed_total) == labelled(
            "tasks_completed_total"@,
            "Total number of tasks completed"@,
            seq!["outcome"@, "kind"@],
        )
        &&& counter_vec_desc(self.dependency_propagations) == labelled(
            "dependency_propagations_total"@,
            "Number of dependency propagations when parent tasks complete"@,
            seq!["parent_outcome"@],
        )
        &&& counter_vec_desc(self.webhook_executions) == labelled(
            "webhook_executions_total"@,
            "Number of webhook executions"@,
            seq!["trigger"@, "outcome"@],
        )
        &&& counter_vec_desc(self.webhook_attempts_total) == labelled(
            "webhook_attempts_total"@,
            "Number of webhook attempts (including failures)"@,
            seq!["trigger"@, "outcome"@],
        )
        &&& counter_vec_desc(self.webhook_idempotent_skips) == labelled(
            "webhook_idempotent_skips_total"@,
            "Number of webhook executions skipped due to idempotency (already succeeded)"@,
            seq!["trigger"@],
        )
        &&& counter_vec_desc(self.webhook_delivery_retries) == labelled(
            "webhook_delivery_retries_total"@,
            "Number of outbox webhook delivery attempts that failed and were rescheduled"@,
            seq!["trigger"@],
        )
        &&& counter_vec_desc(self.webhook_delivery_exhausted) == labelled(
            "webhook_delivery_exhausted_total"@,
            "Number of outbox webhook deliveries that exhausted all retry attempts"@,
            seq!["trigger"@],
        )
        &&& counter_vec_desc(self.webhook_delivery_success) == labelled(
            "webhook_delivery_success_total"@,
            "Number of outbox webhook deliveries that succeeded"@,
            seq!["trigger"@],
        )
        &&& counter_vec_desc(self.webhook_mark_failures) == labelled(
            "webhook_mark_failures_total"@,
            "Number of outbox mark writes (success/retry/exhausted) that failed (lease will re-deliver)"@,
            seq!["mark"@],
        )
        &&& counter_vec_desc(self.worker_loop_iterations) == labelled(
            "worker_loop_iterations_total"@,
            "Total number of worker loop iterations"@,
            seq!["loop"@],
        )
        &&& counter_vec_desc(self.slow_queries_total) == labelled(
            "slow_queries_total"@,
            "Total number of queries exceeding slow query threshold"@,
            seq!["query"@],
        )
        &&& counter_vec_desc(self.circuit_breaker_state_transitions) == labelled(
            "circuit_breaker_state_transitions_total"@,
            "Number of circuit breaker state transitions"@,
            seq!["to_state"@],
        )
        &&& counter_vec_desc(self.retention_cleanup_runs) == labelled(
            "retention_cleanup_runs_total"@,
            "Number of retention cleanup runs by outcome"@,
            seq!["outcome"@],
        )
        &&& gauge_desc(self.batch_channel_capacity_available) == plain(
            "batch_channel_capacity_available"@,
            "Available permits on the batch-update channel, sampled at send time"@,
        )
        &&& gauge_desc(self.batch_updater_pending_tasks) == plain(
            "batch_updater_pending_tasks"@,
            "Number of distinct tasks with un-persisted counters in the batch updater (crash-loss window)"@,
        )
        &&& gauge_vec_desc(self.tasks_by_status) == labelled(
            "tasks_by_status"@,
            "Current number of tasks by status"@,
            seq!["status"@],
        )
        &&& gauge_vec_desc(self.running_tasks_by_kind) == labelled(
            "running_tasks_by_kind"@,
            "Current number of running tasks by kind"@,
            seq!["kind"@],
        )
        &&& gauge_vec_desc(self.webhook_outbox_pending) == labelled(
            "webhook_outbox_pending"@,
            "Current depth of the webhook outbox backlog (state=ready: mature; state=leased: not yet due)"@,
            seq!["state"@],
        )
        &&& gauge_vec_desc(self.worker_loop_last_iteration_timestamp) == labelled(
            "worker_loop_last_iteration_timestamp_seconds"@,
            "Unix timestamp of the last iteration of each worker loop (liveness heartbeat)"@,
            seq!["loop"@],
        )
        &&& gauge_vec_desc(self.db_pool_connections) == labelled(
            "db_pool_connections"@,
            "Current DB pool connections by state (in_use, idle)"@,
            seq!["state"@],
        )
        &&& gauge_vec_desc(self.webhooks_in_flight) == labelled(
            "webhooks_in_flight"@,
            "Current number of webhook executions in progress"@,
            seq!["phase"@],
        )
    }
}

/// The descriptors of all metrics, in the order in which they are registered.
pub open spec fn metric_descs() -> Seq<Descriptor> {
    seq![
        plain(
            "tasks_created_total"@,
            "Total number of tasks created"@,
        ),
        plain(
            "tasks_cancelled_total"@,
            "Total number of tasks cancelled"@,
        ),
        plain(
            "tasks_timed_out_total"@,
            "Total number of tasks that timed out"@,
        ),
        plain(
            "tasks_with_dependencies_total"@,
            "Total number of tasks created with dependencies"@,
        ),
        plain(
            "tasks_unblocked_total"@,
            "Total number of tasks unblocked after dependencies completed"@,
        ),
        plain(
            "tasks_failed_by_dependency_total"@,
            "Total number of tasks failed due to required dependency failure"@,
        ),
        plain(
            "tasks_canceled_dead_end_total"@,
            "Total number of ancestor tasks canceled by dead-end detection"@,
        ),
        plain(
            "tasks_db_save_failures_total"@,
            "Total number of tasks where database save failed after max retries"@,
        ),
        plain(
            "batch_update_failures_total"@,
            "Total number of batch update failures (counts re-queued for retry)"@,
        ),
        plain(
            "webhook_idempotent_conflicts_total"@,
            "Number of idempotency conflicts when claiming webhook executions"@,
        ),
        plain(
            "batch_update_events_total"@,
            "Total number of batch counter-update events accepted by the PUT /task handler"@,
        ),
        plain(
            "tasks_blocked_by_concurrency_total"@,
            "Total number of tasks blocked due to concurrency rules"@,
        ),
        plain(
            "concurrency_ko_cache_hits_total"@,
            "Times the claim loop's blocked-rule (ko) cache let it skip a concurrency DB check"@,
        ),
        plain(
            "tasks_deduped_total"@,
            "Total number of tasks skipped by a dedupe_strategy match during batch insert"@,
        ),
        plain(
            "batches_completed_total"@,
            "Total number of batch_complete signals enqueued (last task of a batch became terminal)"@,
        ),
        plain(
            "db_pool_acquire_failures_total"@,
            "Total number of failures to acquire a DB connection from the pool after all retries"@,
        ),
        plain(
            "circuit_breaker_rejections_total"@,
            "Total number of requests rejected by circuit breaker"@,
        ),
        plain(
            "retention_tasks_cleaned_total"@,
            "Total number of tasks deleted by retention cleanup"@,
        ),
        labelled(
            "task_status_transitions_total"@,
            "Number of task status transitions"@,
            seq!["from_status"@, "to_status"@],
        ),
        labelled(
            "tasks_completed_total"@,
            "Total number of tasks completed"@,
            seq!["outcome"@, "kind"@],
        ),
        labelled(
            "dependency_propagations_total"@,
            "Number of dependency propagations when parent tasks complete"@,
            seq!["parent_outcome"@],
        ),
        labelled(
            "webhook_executions_total"@,
            "Number of webhook executions"@,
            seq!["trigger"@, "outcome"@],
        ),
        labelled(
            "webhook_attempts_total"@,
            "Number of webhook attempts (including failures)"@,
            seq!["trigger"@, "outcome"@],
        ),
        labelled(
            "webhook_idempotent_skips_total"@,
            "Number of webhook executions skipped due to idempotency (already succeeded)"@,
            seq!["trigger"@],
        ),
        labelled(
            "webhook_delivery_retries_total"@,
            "Number of outbox webhook delivery attempts that failed and were rescheduled"@,
            seq!["trigger"@],
        ),
        labelled(
            "webhook_delivery_exhausted_total"@,
            "Number of outbox webhook deliveries that exhausted all retry attempts"@,
            seq!["trigger"@],
        ),
        labelled(
            "webhook_delivery_success_total"@,
            "Number of outbox webhook deliveries that succeeded"@,
            seq!["trigger"@],
        ),
        labelled(
            "webhook_mark_failures_total"@,
            "Number of outbox mark writes (success/retry/exhausted) that failed (lease will re-deliver)"@,
            seq!["mark"@],
        ),
        labelled(
            "worker_loop_iterations_total"@,
            "Total number of worker loop iterations"@,
            seq!["loop"@],
        ),
        labelled(
            "slow_queries_total"@,
            "Total number of queries exceeding slow query threshold"@,
            seq!["query"@],
        ),
        labelled(
            "circuit_breaker_state_transitions_total"@,
            "Number of circuit breaker state transitions"@,
            seq!["to_state"@],
        ),
        labelled(
            "retention_cleanup_runs_total"@,
            "Number of retention cleanup runs by outcome"@,
            seq!["outcome"@],
        ),
        plain(
            "batch_channel_capacity_available"@,
            "Available permits on the batch-update channel, sampled at send time"@,
        ),
        plain(
            "batch_updater_pending_tasks"@,
            "Number of distinct tasks with un-persisted counters in the batch updater (crash-loss window)"@,
        ),
        labelled(
            "tasks_by_status"@,
            "Current number of tasks by status"@,
            seq!["status"@],
        ),
        labelled(
            "running_tasks_by_kind"@,
            "Current number of running tasks by kind"@,
            seq!["kind"@],
        ),
        labelled(
            "webhook_outbox_pending"@,
            "Current depth of the webhook outbox backlog (state=ready: mature; state=leased: not yet due)"@,
            seq!["state"@],
        ),
        labelled(
            "worker_loop_last_iteration_timestamp_seconds"@,
            "Unix timestamp of the last iteration of each worker loop (liveness heartbeat)"@,
            seq!["loop"@],
        ),
        labelled(
            "db_pool_connections"@,
            "Current DB pool connections by state (in_use, idle)"@,
            seq!["state"@],
        ),
        labelled(
            "webhooks_in_flight"@,
            "Current number of webhook executions in progress"@,
            seq!["phase"@],
        ),
    ]
}

/// No two of the first `n` metrics have the same id.
pub open spec fn ids_distinct(n: int) -> bool {
    forall|i: int, j: int|
        0 <= i < j < n ==> desc_id(#[trigger] metric_descs()[i]) != desc_id(
            #[trigger] metric_descs()[j],
        )
}

/// The registry holds exactly the first `n` metrics.
pub open spec fn holds_first(r: Registry, n: int) -> bool {
    forall|k: u64| #[trigger]
        registered(r).contains(k) <==> exists|i: int|
            0 <= i < n && desc_id(#[trigger] metric_descs()[i]) == k
}

/// The first `n` metrics were registered.
spec fn begun(r: Registry, n: int) -> bool {
    one_by_one(r) && ids_distinct(n) && holds_first(r, n)
}

/// All metrics have descriptors that `prometheus` accepts.
proof fn lemma_descs_valid()
    ensures
        forall|i: int| 0 <= i < metric_descs().len() ==> valid(#[trigger] metric_descs()[i]),
{
    assert(valid(metric_descs()[0])) by {
        reveal_strlit("tasks_created_total");
        reveal_strlit("Total number of tasks created");
    }
    assert(valid(metric_descs()[1])) by {
        reveal_strlit("tasks_cancelled_total");
        reveal_strlit("Total number of tasks cancelled");
    }
    assert(valid(metric_descs()[2])) by {
        reveal_strlit("tasks_timed_out_total");
        reveal_strlit("Total number of tasks that timed out");
    }
    assert(valid(metric_descs()[3])) by {
        reveal_strlit("tasks_with_dependencies_total");
        reveal_strlit("Total number of tasks created with dependencies");
    }
    assert(valid(metric_descs()[4])) by {
        reveal_strlit("tasks_unblocked_total");
        reveal_strlit("Total number of tasks unblocked after dependencies completed");
    }
    assert(valid(metric_descs()[5])) by {
        reveal_strlit("tasks_failed_by_dependency_total");
        reveal_strlit("Total number of tasks failed due to required dependency failure");
    }
    assert(valid(metric_descs()[6])) by {
        reveal_strlit("tasks_canceled_dead_end_total");
        reveal_strlit("Total number of ancestor tasks canceled by dead-end detection");
    }
    assert(valid(metric_descs()[7])) by {
        reveal_strlit("tasks_db_save_failures_total");
        reveal_strlit("Total number of tasks where database save failed after max retries");
    }
    assert(valid(metric_descs()[8])) by {
        reveal_strlit("batch_update_failures_total");
        reveal_strlit("Total number of batch update failures (counts re-queued for retry)");
    }
    assert(valid(metric_descs()[9])) by {
        reveal_strlit("webhook_idempotent_conflicts_total");
        reveal_strlit("Number of idempotency conflicts when claiming webhook executions");
    }
    assert(valid(metric_descs()[10])) by {
        reveal_strlit("batch_update_events_total");
        reveal_strlit("Total number of batch counter-update events accepted by the PUT /task handler");
    }
    assert(valid(metric_descs()[11])) by {
        reveal_strlit("tasks_blocked_by_concurrency_total");
        reveal_strlit("Total number of tasks blocked due to concurrency rules");
    }
    assert(valid(metric_descs()[12])) by {
        reveal_strlit("concurrency_ko_cache_hits_total");
        reveal_strlit("Times the claim loop's blocked-rule (ko) cache let it skip a concurrency DB check");
    }
    assert(valid(metric_descs()[13])) by {
        reveal_strlit("tasks_deduped_total");
        reveal_strlit("Total number of tasks skipped by a dedupe_strategy match during batch insert");
    }
    assert(valid(metric_descs()[14])) by {
        reveal_strlit("batches_completed_total");
        reveal_strlit("Total number of batch_complete signals enqueued (last task of a batch became terminal)");
    }
    assert(valid(metric_descs()[15])) by {
        reveal_strlit("db_pool_acquire_failures_total");
        reveal_strlit("Total number of failures to acquire a DB connection from the pool after all retries");
    }
    assert(valid(metric_descs()[16])) by {
        reveal_strlit("circuit_breaker_rejections_total");
        reveal_strlit("Total number of requests rejected by circuit breaker");
    }
    assert(valid(metric_descs()[17])) by {
        reveal_strlit("retention_tasks_cleaned_total");
        reveal_strlit("Total number of tasks deleted by retention cleanup");
    }
    assert(valid(metric_descs()[18])) by {
        reveal_strlit("task_status_transitions_total");
        reveal_strlit("Number of task status transitions");
        reveal_strlit("from_status");
        reveal_strlit("to_status");
        assert("from_status"@.len() != "to_status"@.len());
    }
    assert(valid(metric_descs()[19])) by {
        reveal_strlit("tasks_completed_total");
        reveal_strlit("Total number of tasks completed");
        reveal_strlit("outcome");
        reveal_strlit("kind");
        assert("outcome"@.len() != "kind"@.len());
    }
    assert(valid(metric_descs()[20])) by {
        reveal_strlit("dependency_propagations_total");
        reveal_strlit("Number of dependency propagations when parent tasks complete");
        reveal_strlit("parent_outcome");
    }
    assert(valid(metric_descs()[21])) by {
        reveal_strlit("webhook_executions_total");
        reveal_strlit("Number of webhook executions");
        reveal_strlit("trigger");
        reveal_strlit("outcome");
    }
    assert(valid(metric_descs()[22])) by {
        reveal_strlit("webhook_attempts_total");
        reveal_strlit("Number of webhook attempts (including failures)");
        reveal_strlit("trigger");
        reveal_strlit("outcome");
    }
    assert(valid(metric_descs()[23])) by {
        reveal_strlit("webhook_idempotent_skips_total");
        reveal_strlit("Number of webhook executions skipped due to idempotency (already succeeded)");
        reveal_strlit("trigger");
    }
    assert(valid(metric_descs()[24])) by {
        reveal_strlit("webhook_delivery_retries_total");
        reveal_strlit("Number of outbox webhook delivery attempts that failed and were rescheduled");
        reveal_strlit("trigger");
    }
    assert(valid(metric_descs()[25])) by {
        reveal_strlit("webhook_delivery_exhausted_total");
        reveal_strlit("Number of outbox webhook deliveries that exhausted all retry attempts");
        reveal_strlit("trigger");
    }
    assert(valid(metric_descs()[26])) by {
        reveal_strlit("webhook_delivery_success_total");
        reveal_strlit("Number of outbox webhook deliveries that succeeded");
        reveal_strlit("trigger");
    }
    assert(valid(metric_descs()[27])) by {
        reveal_strlit("webhook_mark_failures_total");
        reveal_strlit("Number of outbox mark writes (success/retry/exhausted) that failed (lease will re-deliver)");
        reveal_strlit("mark");
    }
    assert(valid(metric_descs()[28])) by {
        reveal_strlit("worker_loop_iterations_total");
        reveal_strlit("Total number of worker loop iterations");
        reveal_strlit("loop");
    }
    assert(valid(metric_descs()[29])) by {
        reveal_strlit("slow_queries_total");
        reveal_strlit("Total number of queries exceeding slow query threshold");
        reveal_strlit("query");
    }
    assert(valid(metric_descs()[30])) by {
        reveal_strlit("circuit_breaker_state_transitions_total");
        reveal_strlit("Number of circuit breaker state transitions");
        reveal_strlit("to_state");
    }
    assert(valid(metric_descs()[31])) by {
        reveal_strlit("retention_cleanup_runs_total");
        reveal_strlit("Number of retention cleanup runs by outcome");
        reveal_strlit("outcome");
    }
    assert(valid(metric_descs()[32])) by {
        reveal_strlit("batch_channel_capacity_available");
        reveal_strlit("Available permits on the batch-update channel, sampled at send time");
    }
    assert(valid(metric_descs()[33])) by {
        reveal_strlit("batch_updater_pending_tasks");
        reveal_strlit("Number of distinct tasks with un-persisted counters in the batch updater (crash-loss window)");
    }
    assert(valid(metric_descs()[34])) by {
        reveal_strlit("tasks_by_status");
        reveal_strlit("Current number of tasks by status");
        reveal_strlit("status");
    }
    assert(valid(metric_descs()[35])) by {
        reveal_strlit("running_tasks_by_kind");
        reveal_strlit("Current number of running tasks by kind");
        reveal_strlit("kind");
    }
    assert(valid(metric_descs()[36])) by {
        reveal_strlit("webhook_outbox_pending");
        reveal_strlit("Current depth of the webhook outbox backlog (state=ready: mature; state=leased: not yet due)");
        reveal_strlit("state");
    }
    assert(valid(metric_descs()[37])) by {
        reveal_strlit("worker_loop_last_iteration_timestamp_seconds");
        reveal_strlit("Unix timestamp of the last iteration of each worker loop (liveness heartbeat)");
        reveal_strlit("loop");
    }
    assert(valid(metric_descs()[38])) by {
        reveal_strlit("db_pool_connections");
        reveal_strlit("Current DB pool connections by state (in_use, idle)");
        reveal_strlit("state");
    }
    assert(valid(metric_descs()[39])) by {
        reveal_strlit("webhooks_in_flight");
        reveal_strlit("Current number of webhook executions in progress");
        reveal_strlit("phase");
    }
}

/// One more metric is registered.
proof fn lemma_registered(a: Registry, b: Registry, n: int, accepted: bool)
    requires
        0 <= n < metric_descs().len(),
        begun(a, n),
        one_by_one(b),
        accepted == !registered(a).contains(desc_id(metric_descs()[n])),
        registered(b) == (if accepted {
            registered(a).insert(desc_id(metric_descs()[n]))
        } else {
            registered(a)
        }),
    ensures
        if accepted {
            begun(b, n + 1)
        } else {
            !ids_distinct(metric_descs().len() as int)
        },
{
    let id = desc_id(metric_descs()[n]);
    if accepted {
        assert forall|k: u64| #[trigger] registered(b).contains(k) <==> exists|i: int|
            0 <= i < n + 1 && desc_id(#[trigger] metric_descs()[i]) == k by {
            if registered(a).contains(k) {
                let i = choose|i: int| 0 <= i < n && desc_id(#[trigger] metric_descs()[i]) == k;
                assert(desc_id(metric_descs()[i]) == k);
            }
            if k == id {
                assert(desc_id(metric_descs()[n]) == k);
            }
        }
        assert forall|i: int, j: int| 0 <= i < j < n + 1 implies desc_id(
            #[trigger] metric_descs()[i],
        ) != desc_id(#[trigger] metric_descs()[j]) by {
            if j == n && desc_id(metric_descs()[i]) == id {
                assert(registered(a).contains(id));
            }
        }
    } else {
        let i = choose|i: int| 0 <= i < n && desc_id(#[trigger] metric_descs()[i]) == id;
        assert(desc_id(metric_descs()[i]) == desc_id(metric_descs()[n]));
    }
}

/// Creates and registers a counter, the `n`-th metric.
fn add_counter(
    registry: &mut Registry,
    name: &str,
    help: &str,
    Ghost(n): Ghost<int>,
) -> (r: Option<Counter>)
    requires
        0 <= n < metric_descs().len(),
        metric_descs()[n] == plain(name@, help@),
        begun(*old(registry), n),
    ensures
        r matches Some(c) && {
            &&& counter_desc(c) == metric_descs()[n]
            &&& counter_value(c) == 0
            &&& begun(*final(registry), n + 1)
        },
{
    proof {
        lemma_descs_valid();
        metric_ids_are_distinct();
        assert(valid(metric_descs()[n]));
    }
    let ghost before = *registry;
    let c: Counter = new_counter(name, help)?;
    let accepted: bool = register_counter(registry, &c);
    proof {
        lemma_registered(before, *registry, n, accepted);
    }
    if accepted {
        Some(c)
    } else {
        None
    }
}

/// Creates and registers a family of counters, the `n`-th metric.
fn add_counter_vec(
    registry: &mut Registry,
    name: &str,
    help: &str,
    labels: Vec<&str>,
    Ghost(n): Ghost<int>,
) -> (r: Option<CounterVec>)
    requires
        0 <= n < metric_descs().len(),
        metric_descs()[n] == labelled(name@, help@, label_texts(labels@)),
        begun(*old(registry), n),
    ensures
        r matches Some(v) && {
            &&& counter_vec_desc(v) == metric_descs()[n]
            &&& counter_series(v) =~= Map::<u64, u64>::empty()
            &&& begun(*final(registry), n + 1)
        },
{
    proof {
        lemma_descs_valid();
        metric_ids_are_distinct();
        assert(valid(metric_descs()[n]));
    }
    let ghost before = *registry;
    let v: CounterVec = new_counter_vec(name, help, &labels)?;
    let accepted: bool = register_counter_vec(registry, &v);
    proof {
        lemma_registered(before, *registry, n, accepted);
    }
    if accepted {
        Some(v)
    } else {
        None
    }
}

/// Creates and registers a gauge, the `n`-th metric.
fn add_gauge(
    registry: &mut Registry,
    name: &str,
    help: &str,
    Ghost(n): Ghost<int>,
) -> (r: Option<Gauge>)
    requires
        0 <= n < metric_descs().len(),
        metric_descs()[n] == plain(name@, help@),
        begun(*old(registry), n),
    ensures
        r matches Some(g) && {
            &&& gauge_desc(g) == metric_descs()[n]
            &&& gauge_value(g) == 0
            &&& begun(*final(registry), n + 1)
        },
{
    proof {
        lemma_descs_valid();
        metric_ids_are_distinct();
        assert(valid(metric_descs()[n]));
    }
    let ghost before = *registry;
    let g: Gauge = new_gauge(name, help)?;
    let accepted: bool = register_gauge(registry, &g);
    proof {
        lemma_registered(before, *registry, n, accepted);
    }
    if accepted {
        Some(g)
    } else {
        None
    }
}

/// Creates and registers a family of gauges, the `n`-th metric.
fn add_gauge_vec(
    registry: &mut Registry,
    name: &str,
    help: &str,
    labels: Vec<&str>,
    Ghost(n): Ghost<int>,
) -> (r: Option<GaugeVec>)
    requires
        0 <= n < metric_descs().len(),
        metric_descs()[n] == labelled(name@, help@, label_texts(labels@)),
        begun(*old(registry), n),
    ensures
        r matches Some(v) && {
            &&& gauge_vec_desc(v) == metric_descs()[n]
            &&& gauge_series(v) =~= Map::<u64, i64>::empty()
            &&& begun(*final(registry), n + 1)
        },
{
    proof {
        lemma_descs_valid();
        metric_ids_are_distinct();
        assert(valid(metric_descs()[n]));
    }
    let ghost before = *registry;
    let v: GaugeVec = new_gauge_vec(name, help, &labels)?;
    let accepted: bool = register_gauge_vec(registry, &v);
    proof {
        lemma_registered(before, *registry, n, accepted);
    }
    if accepted {
        Some(v)
    } else {
        None
    }
}

/// Creates all metrics, at zero, and registers each of them once, under its name, in
/// a registry of their own. Always `Some`: the names, helps and labels are valid, and
/// no two ids are the same.
pub fn init_metrics() -> (r: Option<Metrics>)
    ensures
        r matches Some(m) && {
            &&& m.wf()
            &&& holds_first(m.registry, metric_descs().len() as int)
            &&& counter_value(m.tasks_created_total) == 0
            &&& counter_value(m.tasks_cancelled_total) == 0
            &&& counter_value(m.tasks_timed_out_total) == 0
            &&& counter_value(m.tasks_with_dependencies) == 0
            &&& counter_value(m.tasks_unblocked) == 0
            &&& counter_value(m.tasks_failed_by_dependency) == 0
            &&& counter_value(m.tasks_canceled_dead_end_total) == 0
            &&& counter_value(m.tasks_db_save_failures) == 0
            &&& counter_value(m.batch_update_failures) == 0
            &&& counter_value(m.webhook_idempotent_conflicts) == 0
            &&& counter_value(m.batch_update_events_total) == 0
            &&& counter_value(m.tasks_blocked_by_concurrency) == 0
            &&& counter_value(m.concurrency_ko_cache_hits_total) == 0
            &&& counter_value(m.tasks_deduped_total) == 0
            &&& counter_value(m.batches_completed_total) == 0
            &&& counter_value(m.db_pool_acquire_failures) == 0
            &&& counter_value(m.circuit_breaker_rejections) == 0
            &&& counter_value(m.retention_tasks_cleaned) == 0
            &&& counter_series(m.task_status_transitions) =~= Map::<u64, u64>::empty()
            &&& counter_series(m.tasks_completed_total) =~= Map::<u64, u64>::empty()
            &&& counter_series(m.dependency_propagations) =~= Map::<u64, u64>::empty()
            &&& counter_series(m.webhook_executions) =~= Map::<u64, u64>::empty()
            &&& counter_series(m.webhook_attempts_total) =~= Map::<u64, u64>::empty()
            &&& counter_series(m.webhook_idempotent_skips) =~= Map::<u64, u64>::empty()
            &&& counter_series(m.webhook_delivery_retries) =~= Map::<u64, u64>::empty()
            &&& counter_series(m.webhook_delivery_exhausted) =~= Map::<u64, u64>::empty()
            &&& counter_series(m.webhook_delivery_success) =~= Map::<u64, u64>::empty()
            &&& counter_series(m.webhook_mark_failures) =~= Map::<u64, u64>::empty()
            &&& counter_series(m.worker_loop_iterations) =~= Map::<u64, u64>::empty()
            &&& counter_series(m.slow_queries_total) =~= Map::<u64, u64>::empty()
            &&& counter_series(m.circuit_breaker_state_transitions) =~= Map::<u64, u64>::empty()
            &&& counter_series(m.retention_cleanup_runs) =~= Map::<u64, u64>::empty()
            &&& gauge_value(m.batch_channel_capacity_available) == 0
            &&& gauge_value(m.batch_updater_pending_tasks) == 0
            &&& gauge_series(m.tasks_by_status) =~= Map::<u64, i64>::empty()
            &&& gauge_series(m.running_tasks_by_kind) =~= Map::<u64, i64>::empty()
            &&& gauge_series(m.webhook_outbox_pending) =~= Map::<u64, i64>::empty()
            &&& gauge_series(m.worker_loop_last_iteration_timestamp) =~= Map::<u64, i64>::empty()
            &&& gauge_series(m.db_pool_connections) =~= Map::<u64, i64>::empty()
            &&& gauge_series(m.webhooks_in_flight) =~= Map::<u64, i64>::empty()
        },
{
    let mut registry: Registry = new_registry();
    assert(begun(registry, 0));
    let tasks_created_total: Counter = add_counter(
        &mut registry,
        "tasks_created_total",
        "Total number of tasks created",
        Ghost(0),
    )?;
    let tasks_cancelled_total: Counter = add_counter(
        &mut registry,
        "tasks_cancelled_total",
        "Total number of tasks cancelled",
        Ghost(1),
    )?;
    let tasks_timed_out_total: Counter = add_counter(
        &mut registry,
        "tasks_timed_out_total",
        "Total number of tasks that timed out",
        Ghost(2),
    )?;
    let tasks_with_dependencies: Counter = add_counter(
        &mut registry,
        "tasks_with_dependencies_total",
        "Total number of tasks created with dependencies",
        Ghost(3),
    )?;
    let tasks_unblocked: Counter = add_counter(
        &mut registry,
        "tasks_unblocked_total",
        "Total number of tasks unblocked after dependencies completed",
        Ghost(4),
    )?;
    let tasks_failed_by_dependency: Counter = add_counter(
        &mut registry,
        "tasks_failed_by_dependency_total",
        "Total number of tasks failed due to required dependency failure",
        Ghost(5),
    )?;
    let tasks_canceled_dead_end_total: Counter = add_counter(
        &mut registry,
        "tasks_canceled_dead_end_total",
        "Total number of ancestor tasks canceled by dead-end detection",
        Ghost(6),
    )?;
    let tasks_db_save_failures: Counter = add_counter(
        &mut registry,
        "tasks_db_save_failures_total",
        "Total number of tasks where database save failed after max retries",
        Ghost(7),
    )?;
    let batch_update_failures: Counter = add_counter(
        &mut registry,
        "batch_update_failures_total",
        "Total number of batch update failures (counts re-queued for retry)",
        Ghost(8),
    )?;
    let webhook_idempotent_conflicts: Counter = add_counter(
        &mut registry,
        "webhook_idempotent_conflicts_total",
        "Number of idempotency conflicts when claiming webhook executions",
        Ghost(9),
    )?;
    let batch_update_events_total: Counter = add_counter(
        &mut registry,
        "batch_update_events_total",
        "Total number of batch counter-update events accepted by the PUT /task handler",
        Ghost(10),
    )?;
    let tasks_blocked_by_concurrency: Counter = add_counter(
        &mut registry,
        "tasks_blocked_by_concurrency_total",
        "Total number of tasks blocked due to concurrency rules",
        Ghost(11),
    )?;
    let concurrency_ko_cache_hits_total: Counter = add_counter(
        &mut registry,
        "concurrency_ko_cache_hits_total",
        "Times the claim loop's blocked-rule (ko) cache let it skip a concurrency DB check",
        Ghost(12),
    )?;
    let tasks_deduped_total: Counter = add_counter(
        &mut registry,
        "tasks_deduped_total",
        "Total number of tasks skipped by a dedupe_strategy match during batch insert",
        Ghost(13),
    )?;
    let batches_completed_total: Counter = add_counter(
        &mut registry,
        "batches_completed_total",
        "Total number of batch_complete signals enqueued (last task of a batch became terminal)",
        Ghost(14),
    )?;
    let db_pool_acquire_failures: Counter = add_counter(
        &mut registry,
        "db_pool_acquire_failures_total",
        "Total number of failures to acquire a DB connection from the pool after all retries",
        Ghost(15),
    )?;
    let circuit_breaker_rejections: Counter = add_counter(
        &mut registry,
        "circuit_breaker_rejections_total",
        "Total number of requests rejected by circuit breaker",
        Ghost(16),
    )?;
    let retention_tasks_cleaned: Counter = add_counter(
        &mut registry,
        "retention_tasks_cleaned_total",
        "Total number of tasks deleted by retention cleanup",
        Ghost(17),
    )?;
    let labels: Vec<&str> = vec!["from_status", "to_status"];
    assert(label_texts(labels@) =~= seq!["from_status"@, "to_status"@]);
    let task_status_transitions: CounterVec = add_counter_vec(
        &mut registry,
        "task_status_transitions_total",
        "Number of task status transitions",
        labels,
        Ghost(18),
    )?;
    let labels: Vec<&str> = vec!["outcome", "kind"];
    assert(label_texts(labels@) =~= seq!["outcome"@, "kind"@]);
    let tasks_completed_total: CounterVec = add_counter_vec(
        &mut registry,
        "tasks_completed_total",
        "Total number of tasks completed",
        labels,
        Ghost(19),
    )?;
    let labels: Vec<&str> = vec!["parent_outcome"];
    assert(label_texts(labels@) =~= seq!["parent_outcome"@]);
    let dependency_propagations: CounterVec = add_counter_vec(
        &mut registry,
        "dependency_propagations_total",
        "Number of dependency propagations when parent tasks complete",
        labels,
        Ghost(20),
    )?;
    let labels: Vec<&str> = vec!["trigger", "outcome"];
    assert(label_texts(labels@) =~= seq!["trigger"@, "outcome"@]);
    let webhook_executions: CounterVec = add_counter_vec(
        &mut registry,
        "webhook_executions_total",
        "Number of webhook executions",
        labels,
        Ghost(21),
    )?;
    let labels: Vec<&str> = vec!["trigger", "outcome"];
    assert(label_texts(labels@) =~= seq!["trigger"@, "outcome"@]);
    let webhook_attempts_total: CounterVec = add_counter_vec(
        &mut registry,
        "webhook_attempts_total",
        "Number of webhook attempts (including failures)",
        labels,
        Ghost(22),
    )?;
    let labels: Vec<&str> = vec!["trigger"];
    assert(label_texts(labels@) =~= seq!["trigger"@]);
    let webhook_idempotent_skips: CounterVec = add_counter_vec(
        &mut registry,
        "webhook_idempotent_skips_total",
        "Number of webhook executions skipped due to idempotency (already succeeded)",
        labels,
        Ghost(23),
    )?;
    let labels: Vec<&str> = vec!["trigger"];
    assert(label_texts(labels@) =~= seq!["trigger"@]);
    let webhook_delivery_retries: CounterVec = add_counter_vec(
        &mut registry,
        "webhook_delivery_retries_total",
        "Number of outbox webhook delivery attempts that failed and were rescheduled",
        labels,
        Ghost(24),
    )?;
    let labels: Vec<&str> = vec!["trigger"];
    assert(label_texts(labels@) =~= seq!["trigger"@]);
    let webhook_delivery_exhausted: CounterVec = add_counter_vec(
        &mut registry,
        "webhook_delivery_exhausted_total",
        "Number of outbox webhook deliveries that exhausted all retry attempts",
        labels,
        Ghost(25),
    )?;
    let labels: Vec<&str> = vec!["trigger"];
    assert(label_texts(labels@) =~= seq!["trigger"@]);
    let webhook_delivery_success: CounterVec = add_counter_vec(
        &mut registry,
        "webhook_delivery_success_total",
        "Number of outbox webhook deliveries that succeeded",
        labels,
        Ghost(26),
    )?;
    let labels: Vec<&str> = vec!["mark"];
    assert(label_texts(labels@) =~= seq!["mark"@]);
    let webhook_mark_failures: CounterVec = add_counter_vec(
        &mut registry,
        "webhook_mark_failures_total",
        "Number of outbox mark writes (success/retry/exhausted) that failed (lease will re-deliver)",
        labels,
        Ghost(27),
    )?;
    let labels: Vec<&str> = vec!["loop"];
    assert(label_texts(labels@) =~= seq!["loop"@]);
    let worker_loop_iterations: CounterVec = add_counter_vec(
        &mut registry,
        "worker_loop_iterations_total",
        "Total number of worker loop iterations",
        labels,
        Ghost(28),
    )?;
    let labels: Vec<&str> = vec!["query"];
    assert(label_texts(labels@) =~= seq!["query"@]);
    let slow_queries_total: CounterVec = add_counter_vec(
        &mut registry,
        "slow_queries_total",
        "Total number of queries exceeding slow query threshold",
        labels,
        Ghost(29),
    )?;
    let labels: Vec<&str> = vec!["to_state"];
    assert(label_texts(labels@) =~= seq!["to_state"@]);
    let circuit_breaker_state_transitions: CounterVec = add_counter_vec(
        &mut registry,
        "circuit_breaker_state_transitions_total",
        "Number of circuit breaker state transitions",
        labels,
        Ghost(30),
    )?;
    let labels: Vec<&str> = vec!["outcome"];
    assert(label_texts(labels@) =~= seq!["outcome"@]);
    let retention_cleanup_runs: CounterVec = add_counter_vec(
        &mut registry,
        "retention_cleanup_runs_total",
        "Number of retention cleanup runs by outcome",
        labels,
        Ghost(31),
    )?;
    let batch_channel_capacity_available: Gauge = add_gauge(
        &mut registry,
        "batch_channel_capacity_available",
        "Available permits on the batch-update channel, sampled at send time",
        Ghost(32),
    )?;
    let batch_updater_pending_tasks: Gauge = add_gauge(
        &mut registry,
        "batch_updater_pending_tasks",
        "Number of distinct tasks with un-persisted counters in the batch updater (crash-loss window)",
        Ghost(33),
    )?;
    let labels: Vec<&str> = vec!["status"];
    assert(label_texts(labels@) =~= seq!["status"@]);
    let tasks_by_status: GaugeVec = add_gauge_vec(
        &mut registry,
        "tasks_by_status",
        "Current number of tasks by status",
        labels,
        Ghost(34),
    )?;
    let labels: Vec<&str> = vec!["kind"];
    assert(label_texts(labels@) =~= seq!["kind"@]);
    let running_tasks_by_kind: GaugeVec = add_gauge_vec(
        &mut registry,
        "running_tasks_by_kind",
        "Current number of running tasks by kind",
        labels,
        Ghost(35),
    )?;
    let labels: Vec<&str> = vec!["state"];
    assert(label_texts(labels@) =~= seq!["state"@]);
    let webhook_outbox_pending: GaugeVec = add_gauge_vec(
        &mut registry,
        "webhook_outbox_pending",
        "Current depth of the webhook outbox backlog (state=ready: mature; state=leased: not yet due)",
        labels,
        Ghost(36),
    )?;
    let labels: Vec<&str> = vec!["loop"];
    assert(label_texts(labels@) =~= seq!["loop"@]);
    let worker_loop_last_iteration_timestamp: GaugeVec = add_gauge_vec(
        &mut registry,
        "worker_loop_last_iteration_timestamp_seconds",
        "Unix timestamp of the last iteration of each worker loop (liveness heartbeat)",
        labels,
        Ghost(37),
    )?;
    let labels: Vec<&str> = vec!["state"];
    assert(label_texts(labels@) =~= seq!["state"@]);
    let db_pool_connections: GaugeVec = add_gauge_vec(
        &mut registry,
        "db_pool_connections",
        "Current DB pool connections by state (in_use, idle)",
        labels,
        Ghost(38),
    )?;
    let labels: Vec<&str> = vec!["phase"];
    assert(label_texts(labels@) =~= seq!["phase"@]);
    let webhooks_in_flight: GaugeVec = add_gauge_vec(
        &mut registry,
        "webhooks_in_flight",
        "Current number of webhook executions in progress",
        labels,
        Ghost(39),
    )?;
    Some(
        Metrics {
            registry,
            tasks_created_total,
            tasks_cancelled_total,
            tasks_timed_out_total,
            tasks_with_dependencies,
            tasks_unblocked,
            tasks_failed_by_dependency,
            tasks_canceled_dead_end_total,
            tasks_db_save_failures,
            batch_update_failures,
            webhook_idempotent_conflicts,
            batch_update_events_total,
            tasks_blocked_by_concurrency,
            concurrency_ko_cache_hits_total,
            tasks_deduped_total,
            batches_completed_total,
            db_pool_acquire_failures,
            circuit_breaker_rejections,
            retention_tasks_cleaned,
            task_status_transitions,
            tasks_completed_total,
            dependency_propagations,
            webhook_executions,
            webhook_attempts_total,
            webhook_idempotent_skips,
            webhook_delivery_retries,
            webhook_delivery_exhausted,
            webhook_delivery_success,
            webhook_mark_failures,
            worker_loop_iterations,
            slow_queries_total,
            circuit_breaker_state_transitions,
            retention_cleanup_runs,
            batch_channel_capacity_available,
            batch_updater_pending_tasks,
            tasks_by_status,
            running_tasks_by_kind,
            webhook_outbox_pending,
            worker_loop_last_iteration_timestamp,
            db_pool_connections,
            webhooks_in_flight,
        },
    )
}

/// One more in the series of the labels.
pub open spec fn bumped(m: Map<u64, u64>, labels: Seq<Seq<char>>) -> Map<u64, u64> {
    m.insert(series_of(labels), counted(m, series_of(labels)).wrapping_add(1))
}

/// The series of the labels changed by `n`.
pub open spec fn moved(m: Map<u64, i64>, labels: Seq<Seq<char>>, n: i64) -> Map<u64, i64> {
    m.insert(series_of(labels), gauged(m, series_of(labels)).wrapping_add(n))
}

/// The series of the labels at `value`.
pub open spec fn at(m: Map<u64, i64>, labels: Seq<Seq<char>>, value: i64) -> Map<u64, i64> {
    m.insert(series_of(labels), value)
}

/// Counts a created task.
pub fn record_task_created(m: &mut Metrics)
    ensures
        old(m).wf() ==> final(m).wf(),
        counter_value(final(m).tasks_created_total) == counter_value(old(m).tasks_created_total).wrapping_add(1),
        *final(m) == (Metrics { tasks_created_total: final(m).tasks_created_total, ..*old(m) }),
{
    counter_inc_by(&mut m.tasks_created_total, 1);
}

/// Counts a task created with dependencies.
pub fn record_task_with_dependencies(m: &mut Metrics)
    ensures
        old(m).wf() ==> final(m).wf(),
        counter_value(final(m).tasks_with_dependencies) == counter_value(old(m).tasks_with_dependencies).wrapping_add(1),
        *final(m) == (Metrics { tasks_with_dependencies: final(m).tasks_with_dependencies, ..*old(m) }),
{
    counter_inc_by(&mut m.tasks_with_dependencies, 1);
}

/// Counts a status transition.
pub fn record_status_transition(m: &mut Metrics, from: &str, to: &str)
    requires
        old(m).wf(),
    ensures
        final(m).wf(),
        counter_series(final(m).task_status_transitions) == bumped(counter_series(old(m).task_status_transitions), seq![from@, to@]),
        *final(m) == (Metrics { task_status_transitions: final(m).task_status_transitions, ..*old(m) }),
{
    let labels: Vec<&str> = vec![from, to];
    assert(label_texts(labels@) =~= seq![from@, to@]);
    counter_vec_inc(&mut m.task_status_transitions, &labels);
}

/// Counts a completed task.
pub fn record_task_completed(m: &mut Metrics, outcome: &str, kind: &str)
    requires
        old(m).wf(),
    ensures
        final(m).wf(),
        counter_series(final(m).tasks_completed_total) == bumped(counter_series(old(m).tasks_completed_total), seq![outcome@, kind@]),
        *final(m) == (Metrics { tasks_completed_total: final(m).tasks_completed_total, ..*old(m) }),
{
    let labels: Vec<&str> = vec![outcome, kind];
    assert(label_texts(labels@) =~= seq![outcome@, kind@]);
    counter_vec_inc(&mut m.tasks_completed_total, &labels);
}

/// Counts a canceled task.
pub fn record_task_cancelled(m: &mut Metrics)
    ensures
        old(m).wf() ==> final(m).wf(),
        counter_value(final(m).tasks_cancelled_total) == counter_value(old(m).tasks_cancelled_total).wrapping_add(1),
        *final(m) == (Metrics { tasks_cancelled_total: final(m).tasks_cancelled_total, ..*old(m) }),
{
    counter_inc_by(&mut m.tasks_cancelled_total, 1);
}

/// Counts canceled tasks.
pub fn record_tasks_cancelled(m: &mut Metrics, n: u64)
    ensures
        old(m).wf() ==> final(m).wf(),
        counter_value(final(m).tasks_cancelled_total) == counter_value(
            old(m).tasks_cancelled_total,
        ).wrapping_add(n),
        *final(m) == (Metrics { tasks_cancelled_total: final(m).tasks_cancelled_total, ..*old(m) }),
{
    counter_inc_by(&mut m.tasks_cancelled_total, n);
}

/// Counts a task that timed out.
pub fn record_task_timeout(m: &mut Metrics)
    ensures
        old(m).wf() ==> final(m).wf(),
        counter_value(final(m).tasks_timed_out_total) == counter_value(old(m).tasks_timed_out_total).wrapping_add(1),
        *final(m) == (Metrics { tasks_timed_out_total: final(m).tasks_timed_out_total, ..*old(m) }),
{
    counter_inc_by(&mut m.tasks_timed_out_total, 1);
}

/// Counts the propagation of a parent that ended.
pub fn record_dependency_propagation(m: &mut Metrics, parent_outcome: &str)
    requires
        old(m).wf(),
    ensures
        final(m).wf(),
        counter_series(final(m).dependency_propagations) == bumped(counter_series(old(m).dependency_propagations), seq![parent_outcome@]),
        *final(m) == (Metrics { dependency_propagations: final(m).dependency_propagations, ..*old(m) }),
{
    let labels: Vec<&str> = vec![parent_outcome];
    assert(label_texts(labels@) =~= seq![parent_outcome@]);
    counter_vec_inc(&mut m.dependency_propagations, &labels);
}

/// Counts a task whose dependencies are met.
pub fn record_task_unblocked(m: &mut Metrics)
    ensures
        old(m).wf() ==> final(m).wf(),
        counter_value(final(m).tasks_unblocked) == counter_value(old(m).tasks_unblocked).wrapping_add(1),
        *final(m) == (Metrics { tasks_unblocked: final(m).tasks_unblocked, ..*old(m) }),
{
    counter_inc_by(&mut m.tasks_unblocked, 1);
}

/// Counts a task failed by a required dependency.
pub fn record_task_failed_by_dependency(m: &mut Metrics)
    ensures
        old(m).wf() ==> final(m).wf(),
        counter_value(final(m).tasks_failed_by_dependency) == counter_value(old(m).tasks_failed_by_dependency).wrapping_add(1),
        *final(m) == (Metrics { tasks_failed_by_dependency: final(m).tasks_failed_by_dependency, ..*old(m) }),
{
    counter_inc_by(&mut m.tasks_failed_by_dependency, 1);
}

/// Counts an ancestor canceled as a dead end.
pub fn record_task_canceled_dead_end(m: &mut Metrics)
    ensures
        old(m).wf() ==> final(m).wf(),
        counter_value(final(m).tasks_canceled_dead_end_total) == counter_value(old(m).tasks_canceled_dead_end_total).wrapping_add(1),
        *final(m) == (Metrics { tasks_canceled_dead_end_total: final(m).tasks_canceled_dead_end_total, ..*old(m) }),
{
    counter_inc_by(&mut m.tasks_canceled_dead_end_total, 1);
}

/// Counts a task that could not be saved.
pub fn record_task_db_save_failure(m: &mut Metrics)
    ensures
        old(m).wf() ==> final(m).wf(),
        counter_value(final(m).tasks_db_save_failures) == counter_value(old(m).tasks_db_save_failures).wrapping_add(1),
        *final(m) == (Metrics { tasks_db_save_failures: final(m).tasks_db_save_failures, ..*old(m) }),
{
    counter_inc_by(&mut m.tasks_db_save_failures, 1);
}

/// Counts a counter update that was kept for a retry.
pub fn record_batch_update_failure(m: &mut Metrics)
    ensures
        old(m).wf() ==> final(m).wf(),
        counter_value(final(m).batch_update_failures) == counter_value(old(m).batch_update_failures).wrapping_add(1),
        *final(m) == (Metrics { batch_update_failures: final(m).batch_update_failures, ..*old(m) }),
{
    counter_inc_by(&mut m.batch_update_failures, 1);
}

/// Counts a webhook skipped because it was executed already.
pub fn record_webhook_idempotent_skip(m: &mut Metrics, trigger: &str)
    requires
        old(m).wf(),
    ensures
        final(m).wf(),
        counter_series(final(m).webhook_idempotent_skips) == bumped(counter_series(old(m).webhook_idempotent_skips), seq![trigger@]),
        *final(m) == (Metrics { webhook_idempotent_skips: final(m).webhook_idempotent_skips, ..*old(m) }),
{
    let labels: Vec<&str> = vec![trigger];
    assert(label_texts(labels@) =~= seq![trigger@]);
    counter_vec_inc(&mut m.webhook_idempotent_skips, &labels);
}

/// Counts a conflict over a webhook execution.
pub fn record_webhook_idempotent_conflict(m: &mut Metrics)
    ensures
        old(m).wf() ==> final(m).wf(),
        counter_value(final(m).webhook_idempotent_conflicts) == counter_value(old(m).webhook_idempotent_conflicts).wrapping_add(1),
        *final(m) == (Metrics { webhook_idempotent_conflicts: final(m).webhook_idempotent_conflicts, ..*old(m) }),
{
    counter_inc_by(&mut m.webhook_idempotent_conflicts, 1);
}

/// Counts a delivery that is tried again.
pub fn record_webhook_delivery_retry(m: &mut Metrics, trigger: &str)
    requires
        old(m).wf(),
    ensures
        final(m).wf(),
        counter_series(final(m).webhook_delivery_retries) == bumped(counter_series(old(m).webhook_delivery_retries), seq![trigger@]),
        *final(m) == (Metrics { webhook_delivery_retries: final(m).webhook_delivery_retries, ..*old(m) }),
{
    let labels: Vec<&str> = vec![trigger];
    assert(label_texts(labels@) =~= seq![trigger@]);
    counter_vec_inc(&mut m.webhook_delivery_retries, &labels);
}

/// Counts a delivery that was given up.
pub fn record_webhook_delivery_exhausted(m: &mut Metrics, trigger: &str)
    requires
        old(m).wf(),
    ensures
        final(m).wf(),
        counter_series(final(m).webhook_delivery_exhausted) == bumped(counter_series(old(m).webhook_delivery_exhausted), seq![trigger@]),
        *final(m) == (Metrics { webhook_delivery_exhausted: final(m).webhook_delivery_exhausted, ..*old(m) }),
{
    let labels: Vec<&str> = vec![trigger];
    assert(label_texts(labels@) =~= seq![trigger@]);
    counter_vec_inc(&mut m.webhook_delivery_exhausted, &labels);
}

/// Counts a delivery that succeeded.
pub fn record_webhook_delivery_success(m: &mut Metrics, trigger: &str)
    requires
        old(m).wf(),
    ensures
        final(m).wf(),
        counter_series(final(m).webhook_delivery_success) == bumped(counter_series(old(m).webhook_delivery_success), seq![trigger@]),
        *final(m) == (Metrics { webhook_delivery_success: final(m).webhook_delivery_success, ..*old(m) }),
{
    let labels: Vec<&str> = vec![trigger];
    assert(label_texts(labels@) =~= seq![trigger@]);
    counter_vec_inc(&mut m.webhook_delivery_success, &labels);
}

/// Counts a delivery whose outcome could not be recorded.
pub fn record_webhook_mark_failure(m: &mut Metrics, mark: &str)
    requires
        old(m).wf(),
    ensures
        final(m).wf(),
        counter_series(final(m).webhook_mark_failures) == bumped(counter_series(old(m).webhook_mark_failures), seq![mark@]),
        *final(m) == (Metrics { webhook_mark_failures: final(m).webhook_mark_failures, ..*old(m) }),
{
    let labels: Vec<&str> = vec![mark];
    assert(label_texts(labels@) =~= seq![mark@]);
    counter_vec_inc(&mut m.webhook_mark_failures, &labels);
}

/// Counts a task blocked by a rule.
pub fn record_task_blocked_by_concurrency(m: &mut Metrics)
    ensures
        old(m).wf() ==> final(m).wf(),
        counter_value(final(m).tasks_blocked_by_concurrency) == counter_value(old(m).tasks_blocked_by_concurrency).wrapping_add(1),
        *final(m) == (Metrics { tasks_blocked_by_concurrency: final(m).tasks_blocked_by_concurrency, ..*old(m) }),
{
    counter_inc_by(&mut m.tasks_blocked_by_concurrency, 1);
}

/// Counts a check saved because a slot was known to be full.
pub fn record_concurrency_ko_cache_hit(m: &mut Metrics)
    ensures
        old(m).wf() ==> final(m).wf(),
        counter_value(final(m).concurrency_ko_cache_hits_total) == counter_value(old(m).concurrency_ko_cache_hits_total).wrapping_add(1),
        *final(m) == (Metrics { concurrency_ko_cache_hits_total: final(m).concurrency_ko_cache_hits_total, ..*old(m) }),
{
    counter_inc_by(&mut m.concurrency_ko_cache_hits_total, 1);
}

/// Counts a task that was not created because an equal one exists.
pub fn record_task_deduped(m: &mut Metrics)
    ensures
        old(m).wf() ==> final(m).wf(),
        counter_value(final(m).tasks_deduped_total) == counter_value(old(m).tasks_deduped_total).wrapping_add(1),
        *final(m) == (Metrics { tasks_deduped_total: final(m).tasks_deduped_total, ..*old(m) }),
{
    counter_inc_by(&mut m.tasks_deduped_total, 1);
}

/// Counts a batch completion.
pub fn record_batch_completed(m: &mut Metrics)
    ensures
        old(m).wf() ==> final(m).wf(),
        counter_value(final(m).batches_completed_total) == counter_value(old(m).batches_completed_total).wrapping_add(1),
        *final(m) == (Metrics { batches_completed_total: final(m).batches_completed_total, ..*old(m) }),
{
    counter_inc_by(&mut m.batches_completed_total, 1);
}

/// Counts a connection that could not be had.
pub fn record_db_pool_acquire_failure(m: &mut Metrics)
    ensures
        old(m).wf() ==> final(m).wf(),
        counter_value(final(m).db_pool_acquire_failures) == counter_value(old(m).db_pool_acquire_failures).wrapping_add(1),
        *final(m) == (Metrics { db_pool_acquire_failures: final(m).db_pool_acquire_failures, ..*old(m) }),
{
    counter_inc_by(&mut m.db_pool_acquire_failures, 1);
}

/// Counts a transition of the circuit breaker.
pub fn record_circuit_breaker_state(m: &mut Metrics, to_state: &str)
    requires
        old(m).wf(),
    ensures
        final(m).wf(),
        counter_series(final(m).circuit_breaker_state_transitions) == bumped(counter_series(old(m).circuit_breaker_state_transitions), seq![to_state@]),
        *final(m) == (Metrics { circuit_breaker_state_transitions: final(m).circuit_breaker_state_transitions, ..*old(m) }),
{
    let labels: Vec<&str> = vec![to_state];
    assert(label_texts(labels@) =~= seq![to_state@]);
    counter_vec_inc(&mut m.circuit_breaker_state_transitions, &labels);
}

/// Counts a request that the circuit breaker rejected.
pub fn record_circuit_breaker_rejection(m: &mut Metrics)
    ensures
        old(m).wf() ==> final(m).wf(),
        counter_value(final(m).circuit_breaker_rejections) == counter_value(old(m).circuit_breaker_rejections).wrapping_add(1),
        *final(m) == (Metrics { circuit_breaker_rejections: final(m).circuit_breaker_rejections, ..*old(m) }),
{
    counter_inc_by(&mut m.circuit_breaker_rejections, 1);
}

/// Sets the number of tasks with counts that are not persisted.
pub fn set_batch_updater_pending_tasks(m: &mut Metrics, pending_tasks: usize)
    ensures
        old(m).wf() ==> final(m).wf(),
        gauge_value(final(m).batch_updater_pending_tasks) == pending_tasks as i64,
        *final(m) == (Metrics {
            batch_updater_pending_tasks: final(m).batch_updater_pending_tasks,
            ..*old(m)
        }),
{
    gauge_set(&mut m.batch_updater_pending_tasks, pending_tasks as i64);
}

/// Counts a counter update that was accepted, and samples the room left in its
/// channel.
pub fn record_batch_channel_send(m: &mut Metrics, capacity_available: usize)
    ensures
        old(m).wf() ==> final(m).wf(),
        gauge_value(final(m).batch_channel_capacity_available) == capacity_available as i64,
        counter_value(final(m).batch_update_events_total) == counter_value(
            old(m).batch_update_events_total,
        ).wrapping_add(1),
        *final(m) == (Metrics {
            batch_channel_capacity_available: final(m).batch_channel_capacity_available,
            batch_update_events_total: final(m).batch_update_events_total,
            ..*old(m)
        }),
{
    gauge_set(&mut m.batch_channel_capacity_available, capacity_available as i64);
    counter_inc_by(&mut m.batch_update_events_total, 1);
}

/// Counts a webhook call and its attempt.
pub fn record_webhook_execution(m: &mut Metrics, trigger: &str, outcome: &str)
    requires
        old(m).wf(),
    ensures
        final(m).wf(),
        counter_series(final(m).webhook_executions) == bumped(
            counter_series(old(m).webhook_executions),
            seq![trigger@, outcome@],
        ),
        counter_series(final(m).webhook_attempts_total) == bumped(
            counter_series(old(m).webhook_attempts_total),
            seq![trigger@, outcome@],
        ),
        *final(m) == (Metrics {
            webhook_executions: final(m).webhook_executions,
            webhook_attempts_total: final(m).webhook_attempts_total,
            ..*old(m)
        }),
{
    let labels: Vec<&str> = vec![trigger, outcome];
    assert(label_texts(labels@) =~= seq![trigger@, outcome@]);
    counter_vec_inc(&mut m.webhook_executions, &labels);
    counter_vec_inc(&mut m.webhook_attempts_total, &labels);
}

/// Counts an iteration of a worker loop, and notes when it was.
pub fn record_worker_loop_iteration(m: &mut Metrics, loop_name: &str, now_secs: i64)
    requires
        old(m).wf(),
    ensures
        final(m).wf(),
        counter_series(final(m).worker_loop_iterations) == bumped(
            counter_series(old(m).worker_loop_iterations),
            seq![loop_name@],
        ),
        gauge_series(final(m).worker_loop_last_iteration_timestamp) == at(
            gauge_series(old(m).worker_loop_last_iteration_timestamp),
            seq![loop_name@],
            now_secs,
        ),
        *final(m) == (Metrics {
            worker_loop_iterations: final(m).worker_loop_iterations,
            worker_loop_last_iteration_timestamp: final(m).worker_loop_last_iteration_timestamp,
            ..*old(m)
        }),
{
    let labels: Vec<&str> = vec![loop_name];
    assert(label_texts(labels@) =~= seq![loop_name@]);
    counter_vec_inc(&mut m.worker_loop_iterations, &labels);
    gauge_vec_set(&mut m.worker_loop_last_iteration_timestamp, &labels, now_secs);
}

/// Samples the backlog of the webhook queue.
pub fn set_webhook_outbox_backlog(m: &mut Metrics, ready: i64, leased: i64)
    requires
        old(m).wf(),
    ensures
        final(m).wf(),
        gauge_series(final(m).webhook_outbox_pending) == at(
            at(gauge_series(old(m).webhook_outbox_pending), seq!["ready"@], ready),
            seq!["leased"@],
            leased,
        ),
        *final(m) == (Metrics {
            webhook_outbox_pending: final(m).webhook_outbox_pending,
            ..*old(m)
        }),
{
    let first: Vec<&str> = vec!["ready"];
    let second: Vec<&str> = vec!["leased"];
    assert(label_texts(first@) =~= seq!["ready"@]);
    assert(label_texts(second@) =~= seq!["leased"@]);
    gauge_vec_set(&mut m.webhook_outbox_pending, &first, ready);
    gauge_vec_set(&mut m.webhook_outbox_pending, &second, leased);
}

/// Samples the connections of the pool.
pub fn set_db_pool_connections(m: &mut Metrics, in_use: i64, idle: i64)
    requires
        old(m).wf(),
    ensures
        final(m).wf(),
        gauge_series(final(m).db_pool_connections) == at(
            at(gauge_series(old(m).db_pool_connections), seq!["in_use"@], in_use),
            seq!["idle"@],
            idle,
        ),
        *final(m) == (Metrics {
            db_pool_connections: final(m).db_pool_connections,
            ..*old(m)
        }),
{
    let first: Vec<&str> = vec!["in_use"];
    let second: Vec<&str> = vec!["idle"];
    assert(label_texts(first@) =~= seq!["in_use"@]);
    assert(label_texts(second@) =~= seq!["idle"@]);
    gauge_vec_set(&mut m.db_pool_connections, &first, in_use);
    gauge_vec_set(&mut m.db_pool_connections, &second, idle);
}

/// Series with one label, set one after another.
pub open spec fn sampled(counts: Seq<(String, i64)>) -> Map<u64, i64>
    decreases counts.len(),
{
    if counts.len() == 0 {
        Map::empty()
    } else {
        at(sampled(counts.drop_last()), seq![counts.last().0@], counts.last().1)
    }
}

/// Replaces a family of gauges by a fresh sample.
fn replace_samples(v: &mut GaugeVec, counts: &Vec<(String, i64)>)
    requires
        gauge_vec_desc(*old(v)).labels.len() == 1,
    ensures
        gauge_vec_desc(*final(v)) == gauge_vec_desc(*old(v)),
        gauge_series(*final(v)) == sampled(counts@),
{
    gauge_vec_reset(v);
    let mut i: usize = 0;
    assert(counts@.take(0) =~= Seq::empty());
    assert(gauge_series(*v) =~= Map::empty());
    while i < counts.len()
        invariant
            i <= counts.len(),
            gauge_vec_desc(*v) == gauge_vec_desc(*old(v)),
            gauge_vec_desc(*v).labels.len() == 1,
            gauge_series(*v) == sampled(counts@.take(i as int)),
        decreases counts.len() - i,
    {
        let labels: Vec<&str> = vec![counts[i].0.as_str()];
        proof {
            assert(counts@.take(i + 1).drop_last() =~= counts@.take(i as int));
            assert(label_texts(labels@) =~= seq![counts@[i as int].0@]);
        }
        gauge_vec_set(v, &labels, counts[i].1);
        i += 1;
    }
    assert(counts@.take(i as int) =~= counts@);
}

/// Replaces the numbers of tasks by status. A status without tasks leaves no
/// series behind.
pub fn set_tasks_by_status_snapshot(m: &mut Metrics, counts: &Vec<(String, i64)>)
    requires
        old(m).wf(),
    ensures
        final(m).wf(),
        gauge_series(final(m).tasks_by_status) == sampled(counts@),
        *final(m) == (Metrics { tasks_by_status: final(m).tasks_by_status, ..*old(m) }),
{
    replace_samples(&mut m.tasks_by_status, counts);
}

/// Replaces the numbers of running tasks by kind. A kind without running tasks
/// leaves no series behind.
pub fn set_running_tasks_by_kind_snapshot(m: &mut Metrics, counts: &Vec<(String, i64)>)
    requires
        old(m).wf(),
    ensures
        final(m).wf(),
        gauge_series(final(m).running_tasks_by_kind) == sampled(counts@),
        *final(m) == (Metrics {
            running_tasks_by_kind: final(m).running_tasks_by_kind,
            ..*old(m)
        }),
{
    replace_samples(&mut m.running_tasks_by_kind, counts);
}

/// Counts a query that took longer than the threshold. Returns whether it did.
pub fn record_db_query_with_slow_warning(
    m: &mut Metrics,
    query_name: &str,
    duration_ms: u64,
    threshold_ms: u64,
) -> (r: bool)
    requires
        old(m).wf(),
    ensures
        final(m).wf(),
        r == (duration_ms > threshold_ms),
        !r ==> *final(m) == *old(m),
        r ==> counter_series(final(m).slow_queries_total) == bumped(
            counter_series(old(m).slow_queries_total),
            seq![query_name@],
        ),
        *final(m) == (Metrics { slow_queries_total: final(m).slow_queries_total, ..*old(m) }),
{
    if duration_ms > threshold_ms {
        let labels: Vec<&str> = vec![query_name];
        assert(label_texts(labels@) =~= seq![query_name@]);
        counter_vec_inc(&mut m.slow_queries_total, &labels);
        true
    } else {
        false
    }
}

/// Counts a retention run by its outcome, and the tasks that it removed.
pub fn record_retention_cleanup(m: &mut Metrics, outcome: &str, tasks_deleted: usize)
    requires
        old(m).wf(),
    ensures
        final(m).wf(),
        counter_series(final(m).retention_cleanup_runs) == bumped(
            counter_series(old(m).retention_cleanup_runs),
            seq![outcome@],
        ),
        counter_value(final(m).retention_tasks_cleaned) == counter_value(
            old(m).retention_tasks_cleaned,
        ).wrapping_add(tasks_deleted as u64),
        *final(m) == (Metrics {
            retention_cleanup_runs: final(m).retention_cleanup_runs,
            retention_tasks_cleaned: final(m).retention_tasks_cleaned,
            ..*old(m)
        }),
{
    let labels: Vec<&str> = vec![outcome];
    assert(label_texts(labels@) =~= seq![outcome@]);
    counter_vec_inc(&mut m.retention_cleanup_runs, &labels);
    if tasks_deleted > 0 {
        counter_inc_by(&mut m.retention_tasks_cleaned, tasks_deleted as u64);
    }
}

/// One more webhook call is in progress.
pub fn inc_webhooks_in_flight(m: &mut Metrics, phase: &str)
    requires
        old(m).wf(),
    ensures
        final(m).wf(),
        gauge_series(final(m).webhooks_in_flight) == moved(
            gauge_series(old(m).webhooks_in_flight),
            seq![phase@],
            1,
        ),
        *final(m) == (Metrics { webhooks_in_flight: final(m).webhooks_in_flight, ..*old(m) }),
{
    let labels: Vec<&str> = vec![phase];
    assert(label_texts(labels@) =~= seq![phase@]);
    gauge_vec_add(&mut m.webhooks_in_flight, &labels, 1);
}

/// One webhook call less is in progress.
pub fn dec_webhooks_in_flight(m: &mut Metrics, phase: &str)
    requires
        old(m).wf(),
    ensures
        final(m).wf(),
        gauge_series(final(m).webhooks_in_flight) == moved(
            gauge_series(old(m).webhooks_in_flight),
            seq![phase@],
            -1i64,
        ),
        *final(m) == (Metrics { webhooks_in_flight: final(m).webhooks_in_flight, ..*old(m) }),
{
    let labels: Vec<&str> = vec![phase];
    assert(label_texts(labels@) =~= seq![phase@]);
    gauge_vec_add(&mut m.webhooks_in_flight, &labels, -1);
}

/// A webhook call in progress. It counts as one from [`WebhooksInFlightGuard::new`] on
/// until [`WebhooksInFlightGuard::release`]; its holder releases it whenever it goes out
/// of scope, also while a panic unwinds or a future is dropped. See
/// [`gauge_counts_live_guards`] for what the gauge shows whatever happens in between.
#[derive(Debug)]
pub struct WebhooksInFlightGuard {
    /// What it is part of.
    pub phase: &'static str,
}

impl WebhooksInFlightGuard {
    /// Counts the call as in progress.
    pub fn new(m: &mut Metrics, phase: &'static str) -> (r: Self)
        requires
            old(m).wf(),
        ensures
            final(m).wf(),
            r.phase@ == phase@,
            gauge_series(final(m).webhooks_in_flight) == moved(
                gauge_series(old(m).webhooks_in_flight),
                seq![phase@],
                1,
            ),
            *final(m) == (Metrics { webhooks_in_flight: final(m).webhooks_in_flight, ..*old(m) }),
    {
        inc_webhooks_in_flight(m, phase);
        WebhooksInFlightGuard { phase }
    }

    /// Counts the call as done.
    pub fn release(self, m: &mut Metrics)
        requires
            old(m).wf(),
        ensures
            final(m).wf(),
            gauge_series(final(m).webhooks_in_flight) == moved(
                gauge_series(old(m).webhooks_in_flight),
                seq![self.phase@],
                -1i64,
            ),
            *final(m) == (Metrics { webhooks_in_flight: final(m).webhooks_in_flight, ..*old(m) }),
    {
        dec_webhooks_in_flight(m, self.phase);
    }
}

/// Counting a call as in progress and as done leaves the gauge where it was.
pub proof fn release_undoes_new(series: Map<u64, i64>, labels: Seq<Seq<char>>)
    ensures
        gauged(moved(moved(series, labels, 1), labels, -1i64), series_of(labels)) == gauged(
            series,
            series_of(labels),
        ),
{
}

/// A guard was taken, or released.
pub struct GuardEvent {
    pub phase: Seq<char>,
    pub taken: bool,
}

/// The gauge after guards were taken and released, one after another.
pub open spec fn after_guards(series: Map<u64, i64>, events: Seq<GuardEvent>) -> Map<u64, i64>
    decreases events.len(),
{
    if events.len() == 0 {
        series
    } else {
        let e = events.last();
        moved(
            after_guards(series, events.drop_last()),
            seq![e.phase],
            if e.taken {
                1i64
            } else {
                -1i64
            },
        )
    }
}

/// The guards of a phase that were taken and not released.
pub open spec fn live_guards(events: Seq<GuardEvent>, phase: Seq<char>) -> int
    decreases events.len(),
{
    if events.len() == 0 {
        0
    } else {
        let e = events.last();
        live_guards(events.drop_last(), phase) + if e.phase != phase {
            0int
        } else if e.taken {
            1int
        } else {
            -1int
        }
    }
}

/// However guards are taken and released, the gauge of a phase is what it was at the
/// start and the number of its live guards; guards of other phases leave it alone. No
/// other phase may share its series, and there are not so many events that the gauge
/// wraps around.
pub proof fn gauge_counts_live_guards(
    series: Map<u64, i64>,
    events: Seq<GuardEvent>,
    phase: Seq<char>,
)
    requires
        forall|k: int|
            0 <= k < events.len() && series_of(seq![(#[trigger] events[k]).phase]) == series_of(
                seq![phase],
            ) ==> events[k].phase == phase,
        i64::MIN <= gauged(series, series_of(seq![phase])) - events.len(),
        gauged(series, series_of(seq![phase])) + events.len() <= i64::MAX,
    ensures
        gauged(after_guards(series, events), series_of(seq![phase])) == gauged(
            series,
            series_of(seq![phase]),
        ) + live_guards(events, phase),
        -(events.len() as int) <= live_guards(events, phase) <= events.len(),
    decreases events.len(),
{
    if events.len() > 0 {
        let init = events.drop_last();
        assert forall|k: int|
            0 <= k < init.len() && series_of(seq![(#[trigger] init[k]).phase]) == series_of(
                seq![phase],
            ) implies init[k].phase == phase by {
            assert(init[k] == events[k]);
        }
        gauge_counts_live_guards(series, init, phase);
        let e = events[events.len() - 1];
        assert(e == events.last());
        assert(series_of(seq![e.phase]) == series_of(seq![phase]) ==> e.phase == phase);
    }
}

/// However guards are taken and released, the gauge of a phase is back where it was once
/// none of them is live.
pub proof fn released_guards_leave_no_trace(
    series: Map<u64, i64>,
    events: Seq<GuardEvent>,
    phase: Seq<char>,
)
    requires
        forall|k: int|
            0 <= k < events.len() && series_of(seq![(#[trigger] events[k]).phase]) == series_of(
                seq![phase],
            ) ==> events[k].phase == phase,
        i64::MIN <= gauged(series, series_of(seq![phase])) - events.len(),
        gauged(series, series_of(seq![phase])) + events.len() <= i64::MAX,
        live_guards(events, phase) == 0,
    ensures
        gauged(after_guards(series, events), series_of(seq![phase])) == gauged(
            series,
            series_of(seq![phase]),
        ),
{
    gauge_counts_live_guards(series, events, phase);
}

/// The value of a counter.
pub fn read_counter(c: &Counter) -> (r: u64)
    ensures
        r == counter_value(*c),
{
    counter_get(c)
}

/// The value of a family's series with one label. The series is there afterwards; the
/// others stay.
pub fn read_gauge(v: &mut GaugeVec, label: &str) -> (r: i64)
    requires
        gauge_vec_desc(*old(v)).labels.len() == 1,
    ensures
        r == gauged(gauge_series(*old(v)), series_of(seq![label@])),
        gauge_series(*final(v)) == gauge_series(*old(v)).insert(series_of(seq![label@]), r),
        gauge_vec_desc(*final(v)) == gauge_vec_desc(*old(v)),
{
    let labels: Vec<&str> = vec![label];
    assert(label_texts(labels@) =~= seq![label@]);
    gauge_vec_get(v, &labels)
}

} // verus!
