//! Delivering queued webhooks: what to send, and what to make of the outcome.
//!
//! A round claims due rows under a lease, prepares them, sends what has to be sent
//! without holding a transaction, and marks each row by its outcome. A crash
//! between claim and mark lets the lease expire, so that the row is due again: a
//! webhook is delivered at least once.

use crate::action::WebhookEnrichment;
use crate::db::webhook_execution::{
    batch_completion_stats, in_batch_with, latest_end, BatchCompletionStats,
};
use crate::db::webhook_outbox::{
    claim_due_outbox_leased, claimable, held, historised_keeps_disjoint, history_row, holds_lease,
    keys_disjoint, leased, ledger_insert, lemma_claimable, mark_outbox_exhausted,
    mark_outbox_retry, mark_outbox_success, queued, recorded, retry_row, unique_queue_keys,
    MAX_ERROR_CHARS,
};
use crate::error::{ArcRunError, ErrorView};
use crate::models::{
    clone_actions, ledger_rows, opt_int_i64, outbox_rows, rows, Action, Batch, LedgerRow,
    NewActionDto, OnComplete, OutboxRow, StatusKind, Task, TaskRow, TriggerCondition, TriggerKind,
    WebhookExecution, WebhookExecutionStatus, WebhookOutbox,
};
use crate::order::pick;
use crate::store::{Store, Tables};
use crate::tally::{count, lemma_filter_take};
use crate::text::{truncated, uuid_text, uuid_to_string};
use crate::config::WorkerConfig;
use vstd::arithmetic::power::{lemma_pow1, lemma_pow_increases, pow};
use vstd::prelude::*;

verus! {

/// Settings of the delivery worker.
#[derive(Clone, Copy, Debug, PartialEq, Eq, Structural)]
pub struct DeliveryConfig {
    /// Rows per round.
    pub batch_size: i64,
    /// Attempts before a delivery is given up.
    pub max_attempts: i32,
    /// Base of the exponential backoff, in seconds.
    pub backoff_base_secs: i64,
    /// Longest backoff, in seconds.
    pub backoff_cap_secs: i64,
    /// How long a claimed row is left to its claimer, in seconds.
    pub lease_secs: i64,
    /// Concurrent deliveries.
    pub concurrency: usize,
    /// How long a pending start webhook may hold back its task's other webhooks, in
    /// seconds.
    pub start_stale_secs: i64,
}

/// The settings of the delivery worker, from those of all workers. A pending start
/// webhook holds back its task's other webhooks for as long as a claim may stay
/// unstarted.
pub fn delivery_config(w: &WorkerConfig) -> (r: DeliveryConfig)
    ensures
        r == (DeliveryConfig {
            batch_size: w.webhook_delivery_batch_size,
            max_attempts: w.webhook_max_attempts,
            backoff_base_secs: w.webhook_retry_backoff_base_secs,
            backoff_cap_secs: w.webhook_retry_backoff_cap_secs,
            lease_secs: w.webhook_delivery_lease_secs,
            concurrency: w.webhook_delivery_concurrency,
            start_stale_secs: w.claim_timeout_secs as i64,
        }),
{
    DeliveryConfig {
        batch_size: w.webhook_delivery_batch_size,
        max_attempts: w.webhook_max_attempts,
        backoff_base_secs: w.webhook_retry_backoff_base_secs,
        backoff_cap_secs: w.webhook_retry_backoff_cap_secs,
        lease_secs: w.webhook_delivery_lease_secs,
        concurrency: w.webhook_delivery_concurrency,
        start_stale_secs: w.claim_timeout_secs as i64,
    }
}

// ---------------------------------------------------------------------------
// Backoff
// ---------------------------------------------------------------------------

/// A number within the range of 64-bit integers.
pub open spec fn saturated(x: int) -> int {
    if x > i64::MAX {
        i64::MAX as int
    } else if x < i64::MIN {
        i64::MIN as int
    } else {
        x
    }
}

/// `base` to the power `n + 1`, where each product saturates.
pub open spec fn grown(base: int, n: nat) -> int
    decreases n,
{
    if n == 0 {
        base
    } else {
        saturated(grown(base, (n - 1) as nat) * base)
    }
}

/// The delay after a failure that `prior` failures precede: the base to the power
/// `prior + 1`, or the cap once a repeated product has reached it.
pub open spec fn backoff(base: int, cap: int, prior: nat) -> int {
    if (exists|k: nat| 1 <= k <= prior && #[trigger] grown(base, k) >= cap) || grown(base, prior)
        > cap {
        cap
    } else {
        grown(base, prior)
    }
}

/// Exponential backoff in seconds: the base after the first failure, its square
/// after the second, and so on, up to the cap.
pub fn compute_backoff(prior_attempts: i32, cfg: DeliveryConfig) -> (r: i64)
    requires
        prior_attempts >= 0,
    ensures
        r == backoff(
            cfg.backoff_base_secs as int,
            cfg.backoff_cap_secs as int,
            prior_attempts as nat,
        ),
{
    let base: i64 = cfg.backoff_base_secs;
    let cap: i64 = cfg.backoff_cap_secs;
    let mut delay: i64 = base;
    let mut k: i32 = 0;
    while k < prior_attempts
        invariant
            0 <= k <= prior_attempts,
            base == cfg.backoff_base_secs,
            cap == cfg.backoff_cap_secs,
            delay == grown(base as int, k as nat),
            forall|j: nat| 1 <= j <= k ==> #[trigger] grown(base as int, j) < cap,
        decreases prior_attempts - k,
    {
        delay = saturating_product(delay, base);
        k += 1;
        assert(delay == grown(base as int, k as nat));
        if delay >= cap {
            proof {
                let p = prior_attempts as nat;
                assert(1 <= k as nat <= p && grown(base as int, k as nat) >= cap);
            }
            return cap;
        }
    }
    if delay < cap {
        delay
    } else {
        cap
    }
}

/// The product, or the nearest bound of the range.
fn saturating_product(a: i64, b: i64) -> (r: i64)
    ensures
        r == saturated(a * b),
{
    proof {
        assert(-0x4000_0000_0000_0000_0000_0000_0000_0000int <= a * b
            <= 0x4000_0000_0000_0000_0000_0000_0000_0000int) by (nonlinear_arith)
            requires
                -0x8000_0000_0000_0000 <= a <= 0x7fff_ffff_ffff_ffff,
                -0x8000_0000_0000_0000 <= b <= 0x7fff_ffff_ffff_ffff,
        ;
    }
    let x: i128 = a as i128 * b as i128;
    if x > i64::MAX as i128 {
        i64::MAX
    } else if x < i64::MIN as i128 {
        i64::MIN
    } else {
        x as i64
    }
}

proof fn lemma_grown(base: int, n: nat)
    requires
        0 <= base <= i64::MAX,
    ensures
        grown(base, n) == if pow(base, (n + 1) as nat) > i64::MAX {
            i64::MAX as int
        } else {
            pow(base, (n + 1) as nat)
        },
        grown(base, n) >= 0,
    decreases n,
{
    reveal(pow);
    lemma_pow1(base);
    if n > 0 {
        let m = (n - 1) as nat;
        let p = pow(base, n);
        lemma_grown(base, m);
        assert(pow(base, (n + 1) as nat) == base * p);
        if p > i64::MAX {
            if base == 0 {
                assert(pow(base, n) == base * pow(base, m));
                assert(0 * pow(base, m) == 0) by (nonlinear_arith);
            }
            assert(base * p > i64::MAX && i64::MAX * base >= i64::MAX) by (nonlinear_arith)
                requires
                    base >= 1,
                    p > i64::MAX,
                    i64::MAX > 0,
            ;
        } else {
            assert(p * base == base * p) by (nonlinear_arith);
            assert(p * base >= 0) by (nonlinear_arith)
                requires
                    p >= 0,
                    base >= 0,
            ;
        }
    }
}

/// The backoff is the smaller of the base to the power `prior + 1` and the cap.
pub proof fn backoff_is_capped_power(base: int, cap: int, prior: nat)
    requires
        0 <= base <= i64::MAX,
        i64::MIN <= cap <= i64::MAX,
    ensures
        backoff(base, cap, prior) == if pow(base, (prior + 1) as nat) < cap {
            pow(base, (prior + 1) as nat)
        } else {
            cap
        },
{
    lemma_grown(base, prior);
    if exists|k: nat| 1 <= k <= prior && #[trigger] grown(base, k) >= cap {
        let k = choose|k: nat| 1 <= k <= prior && #[trigger] grown(base, k) >= cap;
        lemma_grown(base, k);
        if base >= 1 {
            lemma_pow_increases(base as nat, (k + 1) as nat, (prior + 1) as nat);
        } else {
            reveal(pow);
            assert(pow(0, (k + 1) as nat) == 0 * pow(0, k));
            assert(pow(0, (prior + 1) as nat) == 0 * pow(0, prior));
            assert(0 * pow(0, k) == 0) by (nonlinear_arith);
            assert(0 * pow(0, prior) == 0) by (nonlinear_arith);
        }
    }
}

/// The backoff never exceeds the cap, and does not shrink from one failure to the
/// next.
pub proof fn backoff_grows(base: int, cap: int, prior: nat)
    requires
        1 <= base <= i64::MAX,
        i64::MIN <= cap <= i64::MAX,
    ensures
        backoff(base, cap, prior) <= backoff(base, cap, prior + 1) <= cap,
{
    backoff_is_capped_power(base, cap, prior);
    backoff_is_capped_power(base, cap, prior + 1);
    lemma_pow_increases(base as nat, (prior + 1) as nat, (prior + 2) as nat);
}

// ---------------------------------------------------------------------------
// Marks and plans
// ---------------------------------------------------------------------------

/// What to record of a row once it is prepared or delivered.
#[derive(Debug)]
pub enum MarkAction {
    /// Delivered, or nothing to deliver.
    Success {
        /// Idempotency key of the row.
        key: String,
        /// The claim under which it was taken.
        lease_token: u128,
        /// Milliseconds from its enqueueing, where that is measured.
        lag_millis: Option<i64>,
        /// Kind of event.
        label: &'static str,
    },
    /// Failed, to be tried again.
    Retry {
        /// Idempotency key of the row.
        key: String,
        /// The claim under which it was taken.
        lease_token: u128,
        /// What went wrong.
        error: String,
        /// Seconds until the next attempt.
        backoff: i64,
        /// Kind of event.
        label: &'static str,
    },
    /// Failed for good.
    Exhausted {
        /// Idempotency key of the row.
        key: String,
        /// The claim under which it was taken.
        lease_token: u128,
        /// What went wrong.
        error: String,
        /// Kind of event.
        label: &'static str,
    },
}

/// A mark, viewed mathematically.
pub enum MarkView {
    Success { key: Seq<char>, token: u128, lag: Option<int>, label: Seq<char> },
    Retry { key: Seq<char>, token: u128, error: Seq<char>, backoff: int, label: Seq<char> },
    Exhausted { key: Seq<char>, token: u128, error: Seq<char>, label: Seq<char> },
}

impl View for MarkAction {
    type V = MarkView;

    open spec fn view(&self) -> MarkView {
        match self {
            MarkAction::Success { key, lease_token, lag_millis, label } => MarkView::Success {
                key: key@,
                token: *lease_token,
                lag: opt_int_i64(*lag_millis),
                label: label@,
            },
            MarkAction::Retry { key, lease_token, error, backoff, label } => MarkView::Retry {
                key: key@,
                token: *lease_token,
                error: error@,
                backoff: *backoff as int,
                label: label@,
            },
            MarkAction::Exhausted { key, lease_token, error, label } => MarkView::Exhausted {
                key: key@,
                token: *lease_token,
                error: error@,
                label: label@,
            },
        }
    }
}

/// What a batch's completion webhook tells about it.
#[derive(Clone, Copy, Debug, PartialEq, Eq, Structural)]
pub struct BatchEnrichment {
    /// The batch.
    pub batch_id: u128,
    /// Tasks that succeeded.
    pub success: i64,
    /// Tasks that failed.
    pub failure: i64,
    /// Tasks that were canceled.
    pub canceled: i64,
    /// When the last task ended.
    pub completed_at: i64,
}

/// What to send for a row.
#[derive(Debug)]
pub enum DeliveryKind {
    /// A task's actions, with its final state.
    Task {
        /// The task.
        task: Task,
        /// Its actions for the event.
        actions: Vec<Action>,
        /// Its final state.
        enrichment: WebhookEnrichment,
    },
    /// A batch's completion actions, with its counts.
    Batch {
        /// The actions.
        actions: Vec<NewActionDto>,
        /// The counts.
        enrichment: BatchEnrichment,
    },
}

/// What to send, viewed mathematically.
pub enum KindView {
    Task {
        task: TaskRow,
        actions: Seq<Action>,
        status: StatusKind,
        ended_at: Option<int>,
        trigger: Seq<char>,
    },
    Batch { actions: Seq<NewActionDto>, enrichment: BatchEnrichment },
}

impl View for DeliveryKind {
    type V = KindView;

    open spec fn view(&self) -> KindView {
        match self {
            DeliveryKind::Task { task, actions, enrichment } => KindView::Task {
                task: task@,
                actions: actions@,
                status: enrichment.status,
                ended_at: opt_int_i64(enrichment.ended_at),
                trigger: enrichment.trigger@,
            },
            DeliveryKind::Batch { actions, enrichment } => KindView::Batch {
                actions: actions@,
                enrichment: *enrichment,
            },
        }
    }
}

/// Everything that the delivery of one row needs.
#[derive(Debug)]
pub struct DeliveryPlan {
    /// Idempotency key of the row.
    pub key: String,
    /// The claim under which it was taken.
    pub lease_token: u128,
    /// Kind of event.
    pub trigger_label: &'static str,
    /// Failed attempts so far.
    pub attempts: i32,
    /// When the row was enqueued.
    pub created_at: i64,
    /// What to send.
    pub kind: DeliveryKind,
}

/// A plan, viewed mathematically.
pub struct PlanView {
    pub key: Seq<char>,
    pub token: u128,
    pub label: Seq<char>,
    pub attempts: int,
    pub created_at: int,
    pub kind: KindView,
}

impl View for DeliveryPlan {
    type V = PlanView;

    open spec fn view(&self) -> PlanView {
        PlanView {
            key: self.key@,
            token: self.lease_token,
            label: self.trigger_label@,
            attempts: self.attempts as int,
            created_at: self.created_at as int,
            kind: self.kind@,
        }
    }
}

/// A prepared row.
#[derive(Debug)]
pub enum Prepared {
    /// Nothing has to be sent.
    Mark(MarkAction),
    /// This has to be sent.
    Deliver(DeliveryPlan),
}

/// A prepared row, viewed mathematically.
pub enum PreparedView {
    Mark(MarkView),
    Deliver(PlanView),
}

impl View for Prepared {
    type V = PreparedView;

    open spec fn view(&self) -> PreparedView {
        match self {
            Prepared::Mark(m) => PreparedView::Mark(m@),
            Prepared::Deliver(p) => PreparedView::Deliver(p@),
        }
    }
}

/// The label of an event.
pub open spec fn label_of(trigger: TriggerKind, condition: TriggerCondition) -> Seq<char> {
    match trigger {
        TriggerKind::End => match condition {
            TriggerCondition::Success => "end_success"@,
            TriggerCondition::Failure => "end_failure"@,
        },
        TriggerKind::Cancel => "cancel"@,
        TriggerKind::Start => "start"@,
        TriggerKind::BatchComplete => "batch_complete"@,
    }
}

/// The label of an event.
pub fn trigger_label(trigger: TriggerKind, condition: TriggerCondition) -> (r: &'static str)
    ensures
        r@ == label_of(trigger, condition),
{
    match trigger {
        TriggerKind::End => match condition {
            TriggerCondition::Success => "end_success",
            TriggerCondition::Failure => "end_failure",
        },
        TriggerKind::Cancel => "cancel",
        TriggerKind::Start => "start",
        TriggerKind::BatchComplete => "batch_complete",
    }
}

/// Whole milliseconds since `created_at`, at least zero.
pub open spec fn lag(created_at: int, now: int) -> int {
    if now <= created_at {
        0
    } else {
        (now - created_at) / 1000
    }
}

/// Whole milliseconds since `created_at`, at least zero.
pub fn lag_millis(created_at: i64, now: i64) -> (r: i64)
    ensures
        r == lag(created_at as int, now as int),
{
    if now <= created_at {
        0
    } else {
        ((now as i128 - created_at as i128) / 1000) as i64
    }
}

/// The name of a row in messages.
pub open spec fn row_name(id: Option<u128>) -> Seq<char> {
    match id {
        Some(i) => uuid_text(i),
        None => "(unsaved)"@,
    }
}

/// The message for a claimed row without a lease.
pub open spec fn no_lease_message(id: Option<u128>) -> Seq<char> {
    "claimed outbox row "@ + row_name(id) + " has no lease token"@
}

fn no_lease(id: Option<u128>) -> (e: ArcRunError)
    ensures
        e@ == ErrorView::Internal(no_lease_message(id)),
{
    let name: String = match id {
        Some(i) => uuid_to_string(i),
        None => "(unsaved)".to_string(),
    };
    ArcRunError::Internal(
        "claimed outbox row ".to_string().concat(name.as_str()).concat(" has no lease token"),
    )
}

// ---------------------------------------------------------------------------
// Preparing
// ---------------------------------------------------------------------------

/// A task's row, prepared. Where the task is gone or has no action for the event
/// there is nothing to send, and the row counts as delivered.
pub open spec fn task_plan(
    row: OutboxRow,
    task: Option<TaskRow>,
    actions: Seq<Action>,
    now: int,
) -> PreparedView {
    let token = row.lease_token->0;
    let label = label_of(row.trigger, row.condition);
    if row.task_id is None || task is None {
        PreparedView::Mark(MarkView::Success { key: row.key, token, lag: None, label })
    } else if actions.len() == 0 {
        PreparedView::Mark(
            MarkView::Success { key: row.key, token, lag: Some(lag(row.created_at, now)), label },
        )
    } else {
        PreparedView::Deliver(
            PlanView {
                key: row.key,
                token,
                label,
                attempts: row.attempts,
                created_at: row.created_at,
                kind: KindView::Task {
                    task: task->0,
                    actions,
                    status: task->0.status,
                    ended_at: task->0.ended_at,
                    trigger: if row.trigger == TriggerKind::Cancel {
                        "cancel"@
                    } else {
                        "end"@
                    },
                },
            },
        )
    }
}

/// Prepares a task's row; refused where it carries no lease.
pub fn prepare_task_row(
    row: WebhookOutbox,
    task: Option<Task>,
    actions: Vec<Action>,
    now: i64,
) -> (r: Result<Prepared, ArcRunError>)
    ensures
        match r {
            Err(e) => row@.lease_token is None && e@ == ErrorView::Internal(
                no_lease_message(row@.id),
            ),
            Ok(p) => row@.lease_token is Some && p@ == task_plan(
                row@,
                match task {
                    Some(t) => Some(t@),
                    None => None,
                },
                actions@,
                now as int,
            ),
        },
{
    let lease_token: u128 = match row.lease_token {
        Some(t) => t,
        None => {
            return Err(no_lease(row.id));
        },
    };
    let label: &'static str = trigger_label(row.trigger, row.condition);
    let task: Task = match (row.task_id, task) {
        (Some(_), Some(t)) => t,
        _ => {
            return Ok(
                Prepared::Mark(
                    MarkAction::Success {
                        key: row.idempotency_key,
                        lease_token,
                        lag_millis: None,
                        label,
                    },
                ),
            );
        },
    };
    if actions.len() == 0 {
        return Ok(
            Prepared::Mark(
                MarkAction::Success {
                    key: row.idempotency_key,
                    lease_token,
                    lag_millis: Some(lag_millis(row.created_at, now)),
                    label,
                },
            ),
        );
    }
    let trigger: String = match row.trigger {
        TriggerKind::Cancel => "cancel".to_string(),
        _ => "end".to_string(),
    };
    let enrichment: WebhookEnrichment = WebhookEnrichment {
        status: task.status,
        ended_at: task.ended_at,
        trigger,
    };
    Ok(
        Prepared::Deliver(
            DeliveryPlan {
                key: row.idempotency_key,
                lease_token,
                trigger_label: label,
                attempts: row.attempts,
                created_at: row.created_at,
                kind: DeliveryKind::Task { task, actions, enrichment },
            },
        ),
    )
}

/// The error of a payload that does not parse.
pub open spec fn malformed_message(e: Seq<char>) -> Seq<char> {
    "malformed payload: "@ + e
}

/// A batch's row, prepared. Where the batch is gone or has no action there is
/// nothing to send; a payload that does not parse never can be sent.
pub open spec fn batch_plan(
    row: OutboxRow,
    on_complete: Option<OnComplete>,
    stats: BatchCompletionStats,
    now: int,
) -> PreparedView {
    let token = row.lease_token->0;
    let label = "batch_complete"@;
    if row.batch_id is None || on_complete is None {
        PreparedView::Mark(MarkView::Success { key: row.key, token, lag: None, label })
    } else {
        match on_complete->0 {
            OnComplete::Malformed { error, .. } => PreparedView::Mark(
                MarkView::Exhausted { key: row.key, token, error: malformed_message(error@), label },
            ),
            OnComplete::Actions(actions) => if actions@.len() == 0 {
                PreparedView::Mark(
                    MarkView::Success {
                        key: row.key,
                        token,
                        lag: Some(lag(row.created_at, now)),
                        label,
                    },
                )
            } else {
                PreparedView::Deliver(
                    PlanView {
                        key: row.key,
                        token,
                        label,
                        attempts: row.attempts,
                        created_at: row.created_at,
                        kind: KindView::Batch {
                            actions: actions@,
                            enrichment: BatchEnrichment {
                                batch_id: row.batch_id->0,
                                success: stats.success,
                                failure: stats.failure,
                                canceled: stats.canceled,
                                completed_at: match stats.completed_at {
                                    Some(t) => t,
                                    None => row.updated_at as i64,
                                },
                            },
                        },
                    },
                )
            },
        }
    }
}

/// Prepares a batch's row; refused where it carries no lease. `stats` are the
/// counts of the batch's tasks at this instant.
pub fn prepare_batch_complete_row(
    row: WebhookOutbox,
    on_complete: Option<&OnComplete>,
    stats: BatchCompletionStats,
    now: i64,
) -> (r: Result<Prepared, ArcRunError>)
    ensures
        match r {
            Err(e) => row@.lease_token is None && e@ == ErrorView::Internal(
                no_lease_message(row@.id),
            ),
            Ok(p) => row@.lease_token is Some && p@ == batch_plan(
                row@,
                match on_complete {
                    Some(o) => Some(*o),
                    None => None,
                },
                stats,
                now as int,
            ),
        },
{
    let lease_token: u128 = match row.lease_token {
        Some(t) => t,
        None => {
            return Err(no_lease(row.id));
        },
    };
    let label: &'static str = "batch_complete";
    let (batch_id, payload) = match (row.batch_id, on_complete) {
        (Some(b), Some(o)) => (b, o),
        _ => {
            return Ok(
                Prepared::Mark(
                    MarkAction::Success {
                        key: row.idempotency_key,
                        lease_token,
                        lag_millis: None,
                        label,
                    },
                ),
            );
        },
    };
    match payload {
        OnComplete::Malformed { error, .. } => Ok(
            Prepared::Mark(
                MarkAction::Exhausted {
                    key: row.idempotency_key,
                    lease_token,
                    error: "malformed payload: ".to_string().concat(error.as_str()),
                    label,
                },
            ),
        ),
        OnComplete::Actions(actions) => {
            if actions.len() == 0 {
                return Ok(
                    Prepared::Mark(
                        MarkAction::Success {
                            key: row.idempotency_key,
                            lease_token,
                            lag_millis: Some(lag_millis(row.created_at, now)),
                            label,
                        },
                    ),
                );
            }
            let completed_at: i64 = match stats.completed_at {
                Some(t) => t,
                None => row.updated_at,
            };
            let enrichment: BatchEnrichment = BatchEnrichment {
                batch_id,
                success: stats.success,
                failure: stats.failure,
                canceled: stats.canceled,
                completed_at,
            };
            Ok(
                Prepared::Deliver(
                    DeliveryPlan {
                        key: row.idempotency_key,
                        lease_token,
                        trigger_label: label,
                        attempts: row.attempts,
                        created_at: row.created_at,
                        kind: DeliveryKind::Batch { actions: clone_actions(actions), enrichment },
                    },
                ),
            )
        },
    }
}

// ---------------------------------------------------------------------------
// Preparing a round
// ---------------------------------------------------------------------------

/// The task `id`, where it is there.
pub open spec fn task_of(tasks: Seq<TaskRow>, id: Option<u128>) -> Option<TaskRow>
    decreases tasks.len(),
{
    if tasks.len() == 0 || id is None {
        None
    } else if Some(tasks.last().id) == id {
        Some(tasks.last())
    } else {
        task_of(tasks.drop_last(), id)
    }
}

/// The completion actions of the batch `id`, where it is there.
pub open spec fn payload_of(batches: Seq<Batch>, id: Option<u128>) -> Option<OnComplete>
    decreases batches.len(),
{
    if batches.len() == 0 || id is None {
        None
    } else if Some(batches.last().id) == id {
        Some(batches.last().on_complete)
    } else {
        payload_of(batches.drop_last(), id)
    }
}

/// The actions of a row's task for the row's event.
pub open spec fn actions_for(row: OutboxRow) -> spec_fn(Action) -> bool {
    |a: Action|
        Some(a.task_id) == row.task_id && a.trigger == row.trigger && a.condition == row.condition
}

/// `stats` counts the tasks of the batch.
pub open spec fn stats_of(tasks: Seq<TaskRow>, batch: u128, stats: BatchCompletionStats) -> bool {
    &&& stats.success == count(tasks, in_batch_with(batch, StatusKind::Success))
    &&& stats.failure == count(tasks, in_batch_with(batch, StatusKind::Failure))
    &&& stats.canceled == count(tasks, in_batch_with(batch, StatusKind::Canceled))
    &&& latest_end(tasks, batch, opt_int_i64(stats.completed_at))
}

/// `p` is the row, prepared from the tables.
pub open spec fn prepared_from(
    row: OutboxRow,
    tasks: Seq<TaskRow>,
    actions: Seq<Action>,
    batches: Seq<Batch>,
    now: int,
    p: PreparedView,
) -> bool {
    if row.trigger == TriggerKind::BatchComplete {
        exists|stats: BatchCompletionStats|
            (row.batch_id is Some ==> stats_of(tasks, row.batch_id->0, stats)) && p
                == #[trigger] batch_plan(row, payload_of(batches, row.batch_id), stats, now)
    } else {
        p == task_plan(
            row,
            task_of(tasks, row.task_id),
            actions.filter(actions_for(row)),
            now,
        )
    }
}

fn find_task_of(tasks: &Vec<Task>, wanted: Option<u128>) -> (r: Option<Task>)
    ensures
        match r {
            Some(t) => task_of(rows(tasks@), wanted) == Some(t@),
            None => task_of(rows(tasks@), wanted) is None,
        },
{
    let id: u128 = match wanted {
        Some(x) => x,
        None => {
            return None;
        },
    };
    let ghost rs = rows(tasks@);
    let mut n: usize = tasks.len();
    assert(rs.take(n as int) =~= rs);
    while n > 0
        invariant
            wanted == Some(id),
            n <= tasks@.len(),
            rs == rows(tasks@),
            task_of(rs, Some(id)) == task_of(rs.take(n as int), Some(id)),
        decreases n,
    {
        assert(rs.take(n as int).drop_last() =~= rs.take(n - 1));
        assert(rs.take(n as int).last() == tasks@[n - 1]@);
        if tasks[n - 1].id == id {
            return Some(tasks[n - 1].clone());
        }
        n -= 1;
    }
    None
}

fn find_payload_of(batches: &Vec<Batch>, wanted: Option<u128>) -> (r: Option<&OnComplete>)
    ensures
        match r {
            Some(o) => payload_of(batches@, wanted) == Some(*o),
            None => payload_of(batches@, wanted) is None,
        },
{
    let id: u128 = match wanted {
        Some(x) => x,
        None => {
            return None;
        },
    };
    let mut n: usize = batches.len();
    assert(batches@.take(n as int) =~= batches@);
    while n > 0
        invariant
            wanted == Some(id),
            n <= batches@.len(),
            payload_of(batches@, Some(id)) == payload_of(batches@.take(n as int), Some(id)),
        decreases n,
    {
        assert(batches@.take(n as int).drop_last() =~= batches@.take(n - 1));
        assert(batches@.take(n as int).last() == batches@[n - 1]);
        if batches[n - 1].id == id {
            return Some(&batches[n - 1].on_complete);
        }
        n -= 1;
    }
    None
}

fn find_actions_for(actions: &Vec<Action>, row: &WebhookOutbox) -> (r: Vec<Action>)
    ensures
        r@ == actions@.filter(actions_for(row@)),
{
    let ghost p = actions_for(row@);
    let mut r: Vec<Action> = Vec::new();
    let mut i: usize = 0;
    proof {
        reveal(Seq::filter);
        assert(actions@.take(0).filter(p) =~= Seq::empty());
    }
    while i < actions.len()
        invariant
            i <= actions.len(),
            p == actions_for(row@),
            r@ == actions@.take(i as int).filter(p),
        decreases actions.len() - i,
    {
        proof {
            lemma_filter_take(actions@, p, i as int);
        }
        let mine: bool = match row.task_id {
            Some(t) => t == actions[i].task_id,
            None => false,
        };
        if mine && actions[i].trigger == row.trigger && actions[i].condition == row.condition {
            r.push(actions[i].clone());
        }
        i += 1;
    }
    assert(actions@.take(i as int) =~= actions@);
    r
}

/// Prepares one row from the tables; refused where it carries no lease.
fn prepare_row(
    row: WebhookOutbox,
    tasks: &Vec<Task>,
    actions: &Vec<Action>,
    batches: &Vec<Batch>,
    now: i64,
) -> (r: Result<Prepared, ArcRunError>)
    requires
        tasks@.len() <= i64::MAX,
    ensures
        match r {
            Err(e) => row@.lease_token is None && e@ == ErrorView::Internal(
                no_lease_message(row@.id),
            ),
            Ok(p) => row@.lease_token is Some && prepared_from(
                row@,
                rows(tasks@),
                actions@,
                batches@,
                now as int,
                p@,
            ),
        },
{
    if row.trigger == TriggerKind::BatchComplete {
        let payload: Option<&OnComplete> = find_payload_of(batches, row.batch_id);
        let stats: BatchCompletionStats = match row.batch_id {
            Some(b) => batch_completion_stats(tasks, b),
            None => BatchCompletionStats { success: 0, failure: 0, canceled: 0, completed_at: None },
        };
        let ghost view = row@;
        let ghost known = match payload {
            Some(o) => Some(*o),
            None => None,
        };
        assert(known == payload_of(batches@, view.batch_id));
        assert(view.batch_id is Some ==> stats_of(rows(tasks@), view.batch_id->0, stats));
        prepare_batch_complete_row(row, payload, stats, now)
    } else {
        let task: Option<Task> = find_task_of(tasks, row.task_id);
        let mine: Vec<Action> = find_actions_for(actions, &row);
        prepare_task_row(row, task, mine, now)
    }
}

/// Prepares claimed rows from the tables: each one's task and its actions for the
/// event, or its batch's actions and counts. Refused where one of them carries no
/// lease.
pub fn prepare_rows(
    claimed: Vec<WebhookOutbox>,
    tasks: &Vec<Task>,
    actions: &Vec<Action>,
    batches: &Vec<Batch>,
    now: i64,
) -> (r: Result<Vec<Prepared>, ArcRunError>)
    requires
        tasks@.len() <= i64::MAX,
    ensures
        match r {
            Err(e) => exists|i: int|
                0 <= i < claimed@.len() && (#[trigger] claimed@[i])@.lease_token is None && e@
                    == ErrorView::Internal(no_lease_message(claimed@[i]@.id)) && forall|k: int|
                    0 <= k < i ==> (#[trigger] claimed@[k])@.lease_token is Some,
            Ok(v) => {
                &&& v@.len() == claimed@.len()
                &&& forall|i: int|
                    0 <= i < claimed@.len() ==> (#[trigger] claimed@[i])@.lease_token is Some
                        && prepared_from(
                        claimed@[i]@,
                        rows(tasks@),
                        actions@,
                        batches@,
                        now as int,
                        v@[i]@,
                    )
            },
        },
{
    let ghost all = claimed@;
    let mut v: Vec<Prepared> = Vec::new();
    for row in it: claimed
        invariant
            it.seq() == all,
            v@.len() == it.index(),
            tasks@.len() <= i64::MAX,
            forall|i: int|
                0 <= i < v@.len() ==> (#[trigger] all[i])@.lease_token is Some && prepared_from(
                    all[i]@,
                    rows(tasks@),
                    actions@,
                    batches@,
                    now as int,
                    v@[i]@,
                ),
    {
        let ghost n = v@.len() as int;
        assert(row == all[n]);
        match prepare_row(row, tasks, actions, batches, now) {
            Ok(p) => {
                v.push(p);
            },
            Err(e) => {
                assert(all[n]@.lease_token is None);
                return Err(e);
            },
        }
    }
    Ok(v)
}

// ---------------------------------------------------------------------------
// Judging an attempt
// ---------------------------------------------------------------------------

/// The errors among the outcomes of a plan's actions.
pub open spec fn errors_of(outcomes: Seq<Result<(), String>>) -> Seq<Seq<char>>
    decreases outcomes.len(),
{
    if outcomes.len() == 0 {
        Seq::empty()
    } else {
        let before = errors_of(outcomes.drop_last());
        match outcomes.last() {
            Ok(_) => before,
            Err(e) => before.push(e@),
        }
    }
}

/// Texts joined by `; `.
pub open spec fn joined(parts: Seq<Seq<char>>) -> Seq<char>
    decreases parts.len(),
{
    if parts.len() == 0 {
        Seq::empty()
    } else if parts.len() == 1 {
        parts[0]
    } else {
        joined(parts.drop_last()) + "; "@ + parts.last()
    }
}

/// What to record of an attempt: a success where every action went through; else
/// a failure, to be retried after a backoff unless the attempts are used up.
pub open spec fn verdict(
    plan: PlanView,
    errors: Seq<Seq<char>>,
    cfg: DeliveryConfig,
    now: int,
) -> MarkView {
    if errors.len() == 0 {
        MarkView::Success {
            key: plan.key,
            token: plan.token,
            lag: Some(lag(plan.created_at, now)),
            label: plan.label,
        }
    } else if plan.attempts + 1 >= cfg.max_attempts {
        MarkView::Exhausted {
            key: plan.key,
            token: plan.token,
            error: joined(errors),
            label: plan.label,
        }
    } else {
        MarkView::Retry {
            key: plan.key,
            token: plan.token,
            error: joined(errors),
            backoff: backoff(
                cfg.backoff_base_secs as int,
                cfg.backoff_cap_secs as int,
                plan.attempts as nat,
            ),
            label: plan.label,
        }
    }
}

/// Decides what to record of an attempt. `outcomes` are those of the plan's
/// actions, in order.
pub fn deliver_plan(
    plan: DeliveryPlan,
    outcomes: &Vec<Result<(), String>>,
    cfg: DeliveryConfig,
    now: i64,
) -> (r: MarkAction)
    requires
        0 <= plan.attempts < i32::MAX,
    ensures
        r@ == verdict(plan@, errors_of(outcomes@), cfg, now as int),
{
    let mut n: usize = 0;
    let mut text: String = String::new();
    let mut i: usize = 0;
    assert(outcomes@.take(0) =~= Seq::empty());
    assert(text@ =~= Seq::empty());
    while i < outcomes.len()
        invariant
            i <= outcomes.len(),
            n <= i,
            n == errors_of(outcomes@.take(i as int)).len(),
            text@ == joined(errors_of(outcomes@.take(i as int))),
        decreases outcomes.len() - i,
    {
        let ghost before = errors_of(outcomes@.take(i as int));
        assert(outcomes@.take(i + 1).drop_last() =~= outcomes@.take(i as int));
        if let Err(e) = &outcomes[i] {
            let ghost after = before.push(e@);
            assert(after.drop_last() =~= before);
            if n == 0 {
                text = e.clone();
            } else {
                text = text.concat("; ").concat(e.as_str());
            }
            n += 1;
        }
        i += 1;
    }
    assert(outcomes@.take(i as int) =~= outcomes@);
    if n == 0 {
        return MarkAction::Success {
            key: plan.key,
            lease_token: plan.lease_token,
            lag_millis: Some(lag_millis(plan.created_at, now)),
            label: plan.trigger_label,
        };
    }
    if plan.attempts + 1 >= cfg.max_attempts {
        MarkAction::Exhausted {
            key: plan.key,
            lease_token: plan.lease_token,
            error: text,
            label: plan.trigger_label,
        }
    } else {
        MarkAction::Retry {
            key: plan.key,
            lease_token: plan.lease_token,
            error: text,
            backoff: compute_backoff(plan.attempts, cfg),
            label: plan.trigger_label,
        }
    }
}

// ---------------------------------------------------------------------------
// Marking
// ---------------------------------------------------------------------------

/// The key that a mark is about.
pub open spec fn mark_key(m: MarkView) -> Seq<char> {
    match m {
        MarkView::Success { key, .. } => key,
        MarkView::Retry { key, .. } => key,
        MarkView::Exhausted { key, .. } => key,
    }
}

/// The claim that a mark is made under.
pub open spec fn mark_token(m: MarkView) -> u128 {
    match m {
        MarkView::Success { token, .. } => token,
        MarkView::Retry { token, .. } => token,
        MarkView::Exhausted { token, .. } => token,
    }
}

/// The position of the row that a mark is about.
pub open spec fn marked_at(outbox: Seq<OutboxRow>, m: MarkView) -> int {
    choose|i: int|
        0 <= i < outbox.len() && held(mark_key(m), mark_token(m))(#[trigger] outbox[i])
}

/// The queue after a mark. Where the claim lost the row nothing changes.
pub open spec fn marked_outbox(outbox: Seq<OutboxRow>, m: MarkView, now: int) -> Seq<OutboxRow> {
    let i = marked_at(outbox, m);
    if !holds_lease(outbox, mark_key(m), mark_token(m)) {
        outbox
    } else {
        match m {
            MarkView::Retry { error, backoff, .. } => outbox.update(
                i,
                retry_row(outbox[i], error, backoff, now),
            ),
            _ => outbox.remove(i),
        }
    }
}

/// The ledger after a mark.
pub open spec fn marked_ledger(
    outbox: Seq<OutboxRow>,
    ledger: Seq<LedgerRow>,
    m: MarkView,
    now: int,
) -> Seq<LedgerRow> {
    let r = outbox[marked_at(outbox, m)];
    if !holds_lease(outbox, mark_key(m), mark_token(m)) {
        ledger
    } else {
        match m {
            MarkView::Success { .. } => ledger_insert(
                ledger,
                history_row(r, WebhookExecutionStatus::Success, r.attempts, None, now),
            ),
            MarkView::Retry { .. } => ledger,
            MarkView::Exhausted { error, .. } => ledger_insert(
                ledger,
                history_row(
                    r,
                    WebhookExecutionStatus::Exhausted,
                    r.attempts + 1,
                    Some(truncated(error, MAX_ERROR_CHARS as int)),
                    now,
                ),
            ),
        }
    }
}

/// No attempt counter is at its limit.
pub open spec fn attempts_fit(outbox: Seq<OutboxRow>) -> bool {
    forall|i: int| 0 <= i < outbox.len() ==> (#[trigger] outbox[i]).attempts < i32::MAX
}

/// The backoff of a mark leads to an instant that can be stored.
pub open spec fn backoff_fits(m: MarkView, now: int) -> bool {
    m matches MarkView::Retry { backoff, .. } ==> i64::MIN <= now + backoff * 1_000_000
        <= i64::MAX
}

/// Records a mark. Returns `false`, and changes nothing, where the claim under
/// which the row was taken no longer holds it.
pub fn apply_mark(
    outbox: &mut Vec<WebhookOutbox>,
    ledger: &mut Vec<WebhookExecution>,
    mark: &MarkAction,
    now: i64,
) -> (r: bool)
    requires
        unique_queue_keys(outbox_rows(old(outbox)@)),
        attempts_fit(outbox_rows(old(outbox)@)),
        backoff_fits(mark@, now as int),
    ensures
        r == holds_lease(outbox_rows(old(outbox)@), mark_key(mark@), mark_token(mark@)),
        outbox_rows(final(outbox)@) == marked_outbox(
            outbox_rows(old(outbox)@),
            mark@,
            now as int,
        ),
        ledger_rows(final(ledger)@) == marked_ledger(
            outbox_rows(old(outbox)@),
            ledger_rows(old(ledger)@),
            mark@,
            now as int,
        ),
{
    let ghost os = outbox_rows(outbox@);
    let ghost m = mark@;
    proof {
        assert forall|i: int| 0 <= i < outbox@.len() implies (#[trigger] outbox@[i]).attempts
            < i32::MAX by {
            assert(os[i] == outbox@[i]@);
        }
        assert forall|i: int|
            0 <= i < os.len() && held(mark_key(m), mark_token(m))(#[trigger] os[i]) implies i
            == marked_at(os, m) by {
            let j = marked_at(os, m);
            assert(held(mark_key(m), mark_token(m))(os[j]));
            assert(os[i].key == os[j].key);
        }
    }
    match mark {
        MarkAction::Success { key, lease_token, .. } => {
            mark_outbox_success(outbox, ledger, key, *lease_token, now)
        },
        MarkAction::Retry { key, lease_token, error, backoff, .. } => {
            mark_outbox_retry(outbox, key, *lease_token, error.as_str(), *backoff, now)
        },
        MarkAction::Exhausted { key, lease_token, error, .. } => {
            mark_outbox_exhausted(outbox, ledger, key, *lease_token, error.as_str(), now)
        },
    }
}

// ---------------------------------------------------------------------------
// A round
// ---------------------------------------------------------------------------

/// The marks among prepared rows.
pub open spec fn marks_in(ps: Seq<PreparedView>) -> Seq<MarkView>
    decreases ps.len(),
{
    if ps.len() == 0 {
        Seq::empty()
    } else {
        let before = marks_in(ps.drop_last());
        match ps.last() {
            PreparedView::Mark(m) => before.push(m),
            PreparedView::Deliver(_) => before,
        }
    }
}

/// The plans among prepared rows.
pub open spec fn plans_in(ps: Seq<PreparedView>) -> Seq<PlanView>
    decreases ps.len(),
{
    if ps.len() == 0 {
        Seq::empty()
    } else {
        let before = plans_in(ps.drop_last());
        match ps.last() {
            PreparedView::Mark(_) => before,
            PreparedView::Deliver(p) => before.push(p),
        }
    }
}

/// The queue and the ledger after several marks.
pub open spec fn all_marked(
    outbox: Seq<OutboxRow>,
    ledger: Seq<LedgerRow>,
    marks: Seq<MarkView>,
    now: int,
) -> (Seq<OutboxRow>, Seq<LedgerRow>)
    decreases marks.len(),
{
    if marks.len() == 0 {
        (outbox, ledger)
    } else {
        let (o, l) = all_marked(outbox, ledger, marks.drop_last(), now);
        (marked_outbox(o, marks.last(), now), marked_ledger(o, l, marks.last(), now))
    }
}

/// For each of several marks, whether the claim still held its row when the ones
/// before it had been recorded.
pub open spec fn marks_held(
    outbox: Seq<OutboxRow>,
    ledger: Seq<LedgerRow>,
    marks: Seq<MarkView>,
    now: int,
) -> Seq<bool>
    decreases marks.len(),
{
    if marks.len() == 0 {
        Seq::empty()
    } else {
        let o = all_marked(outbox, ledger, marks.drop_last(), now).0;
        marks_held(outbox, ledger, marks.drop_last(), now).push(
            holds_lease(o, mark_key(marks.last()), mark_token(marks.last())),
        )
    }
}

/// The views of marks.
pub open spec fn mark_views(v: Seq<MarkAction>) -> Seq<MarkView> {
    v.map_values(|m: MarkAction| m@)
}

/// The views of plans.
pub open spec fn plan_views(v: Seq<DeliveryPlan>) -> Seq<PlanView> {
    v.map_values(|p: DeliveryPlan| p@)
}

/// A round of deliveries, as far as it needs no sending.
#[derive(Debug)]
pub struct DeliveryRound {
    /// Rows claimed.
    pub processed: usize,
    /// What was recorded at once.
    pub marks: Vec<MarkAction>,
    /// For each of these marks, whether the claim still held its row.
    pub applied: Vec<bool>,
    /// What has to be sent.
    pub plans: Vec<DeliveryPlan>,
}

proof fn lemma_mark_keeps(outbox: Seq<OutboxRow>, m: MarkView, now: int)
    requires
        unique_queue_keys(outbox),
        attempts_fit(outbox),
        !(m is Retry),
    ensures
        unique_queue_keys(marked_outbox(outbox, m, now)),
        attempts_fit(marked_outbox(outbox, m, now)),
{
    if holds_lease(outbox, mark_key(m), mark_token(m)) {
        let i = marked_at(outbox, m);
        let after = outbox.remove(i);
        assert forall|k: int| 0 <= k < after.len() implies (#[trigger] after[k]) == outbox[if k
            < i {
            k
        } else {
            k + 1
        }] by {}
    }
}

/// Claims the due rows, prepares them, and records those for which nothing has to
/// be sent. The plans are left to be sent without holding the transaction; each
/// one's outcome is judged by [`deliver_plan`] and recorded by [`apply_mark`].
pub fn run_delivery_once(store: &mut Store, cfg: DeliveryConfig, lease_token: u128, now: i64) -> (r:
    Result<DeliveryRound, ArcRunError>)
    requires
        cfg.batch_size >= 0,
        i64::MIN <= now + cfg.lease_secs * 1_000_000 <= i64::MAX,
        old(store).tasks@.len() <= i64::MAX,
        unique_queue_keys(old(store)@.outbox),
        attempts_fit(old(store)@.outbox),
    ensures
        r is Ok,
        ({
            let s = old(store)@;
            let taken = claimable(
                s.outbox,
                s.ledger,
                cfg.batch_size as int,
                now as int,
                cfg.start_stale_secs as int,
            );
            let after = leased(s.outbox, taken, lease_token, now as int, cfg.lease_secs as int);
            &&& r->Ok_0.processed == taken.len()
            &&& exists|ps: Seq<PreparedView>|
                {
                    &&& ps.len() == taken.len()
                    &&& forall|k: int|
                        0 <= k < ps.len() ==> prepared_from(
                            pick(after, taken)[k],
                            s.tasks,
                            s.actions,
                            s.batches,
                            now as int,
                            #[trigger] ps[k],
                        )
                    &&& mark_views(r->Ok_0.marks@) == #[trigger] marks_in(ps)
                    &&& r->Ok_0.applied@ == marks_held(
                        after,
                        s.ledger,
                        marks_in(ps),
                        now as int,
                    )
                    &&& plan_views(r->Ok_0.plans@) == plans_in(ps)
                    &&& final(store)@ == (Tables {
                        outbox: all_marked(after, s.ledger, marks_in(ps), now as int).0,
                        ledger: all_marked(after, s.ledger, marks_in(ps), now as int).1,
                        ..s
                    })
                }
        }),
{
    let ghost s = store@;
    let ghost taken = claimable(
        s.outbox,
        s.ledger,
        cfg.batch_size as int,
        now as int,
        cfg.start_stale_secs as int,
    );
    let ghost after = leased(s.outbox, taken, lease_token, now as int, cfg.lease_secs as int);
    let claimed: Vec<WebhookOutbox> = claim_due_outbox_leased(
        &mut store.outbox,
        &store.ledger,
        cfg.batch_size,
        cfg.lease_secs,
        cfg.start_stale_secs,
        lease_token,
        now,
    );
    let ghost got = claimed@;
    let processed: usize = claimed.len();
    proof {
        lemma_claimable(
            s.outbox,
            s.ledger,
            cfg.batch_size as int,
            now as int,
            cfg.start_stale_secs as int,
        );
        assert(outbox_rows(got) == pick(after, taken));
        assert(outbox_rows(got).len() == got.len());
        assert(pick(after, taken).len() == taken.len());
        assert forall|k: int| 0 <= k < got.len() implies (#[trigger] got[k])@
            == pick(after, taken)[k] && got[k]@.lease_token is Some by {
            assert(outbox_rows(got)[k] == got[k]@);
            assert(taken.contains(taken[k]));
        }
        assert forall|i: int, j: int|
            #![trigger after[i], after[j]]
            0 <= i < after.len() && 0 <= j < after.len() && after[i].key == after[j].key implies i
            == j by {
            assert(s.outbox[i].key == s.outbox[j].key);
        }
        assert forall|i: int| 0 <= i < after.len() implies (#[trigger] after[i]).attempts
            < i32::MAX by {
            assert(s.outbox[i].attempts < i32::MAX);
        }
    }
    let prepared: Vec<Prepared> = match prepare_rows(
        claimed,
        &store.tasks,
        &store.actions,
        &store.batches,
        now,
    ) {
        Ok(v) => v,
        Err(e) => {
            return Err(e);
        },
    };
    let ghost all = prepared@;
    let ghost ps = all.map_values(|p: Prepared| p@);
    let mut marks: Vec<MarkAction> = Vec::new();
    let mut applied: Vec<bool> = Vec::new();
    let mut plans: Vec<DeliveryPlan> = Vec::new();
    let ghost mut n: int = 0;
    proof {
        assert(ps.take(0) =~= Seq::empty());
        assert(mark_views(marks@) =~= Seq::empty());
        assert(plan_views(plans@) =~= Seq::empty());
        assert(store@ =~= Tables { outbox: after, ..s });
    }
    for p in it: prepared
        invariant
            it.seq() == all,
            n == it.index(),
            ps == all.map_values(|p: Prepared| p@),
            forall|k: int|
                0 <= k < ps.len() ==> prepared_from(
                    got[k]@,
                    s.tasks,
                    s.actions,
                    s.batches,
                    now as int,
                    #[trigger] ps[k],
                ),
            got.len() == ps.len(),
            mark_views(marks@) == marks_in(ps.take(n)),
            plan_views(plans@) == plans_in(ps.take(n)),
            applied@ == marks_held(after, s.ledger, marks_in(ps.take(n)), now as int),
            unique_queue_keys(store@.outbox),
            attempts_fit(store@.outbox),
            store@ == (Tables {
                outbox: all_marked(after, s.ledger, marks_in(ps.take(n)), now as int).0,
                ledger: all_marked(after, s.ledger, marks_in(ps.take(n)), now as int).1,
                ..s
            }),
    {
        proof {
            assert(ps[n] == p@);
            assert(ps.take(n + 1).drop_last() =~= ps.take(n));
            assert(ps.take(n + 1).last() == ps[n]);
        }
        match p {
            Prepared::Mark(m) => {
                let ghost before = store@;
                let ghost v = m@;
                proof {
                    assert(marks_in(ps.take(n + 1)) == marks_in(ps.take(n)).push(v));
                    assert(marks_in(ps.take(n + 1)).drop_last() =~= marks_in(ps.take(n)));
                    lemma_mark_keeps(before.outbox, v, now as int);
                }
                let done: bool = apply_mark(&mut store.outbox, &mut store.ledger, &m, now);
                let ghost old_marks = marks@;
                marks.push(m);
                applied.push(done);
                proof {
                    assert(mark_views(marks@) =~= mark_views(old_marks).push(v));
                    assert(store@ =~= Tables {
                        outbox: all_marked(
                            after,
                            s.ledger,
                            marks_in(ps.take(n + 1)),
                            now as int,
                        ).0,
                        ledger: all_marked(
                            after,
                            s.ledger,
                            marks_in(ps.take(n + 1)),
                            now as int,
                        ).1,
                        ..s
                    });
                }
            },
            Prepared::Deliver(plan) => {
                let ghost v = plan@;
                let ghost old_plans = plans@;
                plans.push(plan);
                assert(plan_views(plans@) =~= plan_views(old_plans).push(v));
            },
        }
        proof {
            n = n + 1;
        }
    }
    proof {
        assert(ps.take(n) =~= ps);
    }
    Ok(DeliveryRound { processed, marks, applied, plans })
}

/// A mark keeps queue and ledger disjoint and loses no event: one that was queued
/// is still queued, or is on record.
pub proof fn mark_loses_no_event(
    outbox: Seq<OutboxRow>,
    ledger: Seq<LedgerRow>,
    m: MarkView,
    now: int,
    key: Seq<char>,
)
    requires
        keys_disjoint(outbox, ledger),
        queued(outbox, key) || recorded(ledger, key),
    ensures
        ({
            let o = marked_outbox(outbox, m, now);
            let l = marked_ledger(outbox, ledger, m, now);
            &&& keys_disjoint(o, l)
            &&& queued(o, key) || recorded(l, key)
        }),
{
    let o = marked_outbox(outbox, m, now);
    let l = marked_ledger(outbox, ledger, m, now);
    if holds_lease(outbox, mark_key(m), mark_token(m)) {
        let i = marked_at(outbox, m);
        assert(held(mark_key(m), mark_token(m))(outbox[i]));
        if m is Retry {
            if queued(outbox, key) {
                let j = choose|j: int| 0 <= j < outbox.len() && (#[trigger] outbox[j]).key == key;
                assert(o[j].key == key);
            }
        } else {
            let row = match m {
                MarkView::Exhausted { error, .. } => history_row(
                    outbox[i],
                    WebhookExecutionStatus::Exhausted,
                    outbox[i].attempts + 1,
                    Some(truncated(error, MAX_ERROR_CHARS as int)),
                    now,
                ),
                _ => history_row(
                    outbox[i],
                    WebhookExecutionStatus::Success,
                    outbox[i].attempts,
                    None,
                    now,
                ),
            };
            historised_keeps_disjoint(outbox, ledger, o, l, i, row, outbox[i]);
            if recorded(ledger, key) {
                let j = choose|j: int| 0 <= j < ledger.len() && (#[trigger] ledger[j]).key == key;
                assert(l[j].key == key);
            } else {
                let j = choose|j: int| 0 <= j < outbox.len() && (#[trigger] outbox[j]).key == key;
                if j < i {
                    assert(o[j].key == key);
                } else if j > i {
                    assert(o[j - 1].key == key);
                }
            }
        }
    }
}

} // verus!
