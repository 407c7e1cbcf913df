//! The rows the orchestrator works on, and their mathematical views.
//!
//! Instants are microseconds since the Unix epoch, identifiers are 128-bit
//! UUIDs taken as numbers, and JSON columns hold JSON text.

use vstd::prelude::*;

verus! {

/// Task lifecycle status.
///
/// Valid transitions:
/// - Waiting -> Pending (automatic, when all dependencies are met)
/// - Pending -> Claimed (automatic, when a worker claims the task)
/// - Claimed -> Running (automatic, after the on_start webhook succeeds)
/// - Running -> Success (via the API)
/// - Running -> Failure (via the API, a timeout, or parent failure propagation)
/// - any active state -> Canceled
/// - Pending or Waiting -> Paused, and back
#[derive(Clone, Copy, Debug, PartialEq, Eq, Hash, Structural)]
pub enum StatusKind {
    /// Has unmet dependencies.
    Waiting,
    /// Ready to run.
    Pending,
    /// Claimed by a worker; its on_start webhook has not completed.
    Claimed,
    /// Executing; waiting for external completion.
    Running,
    /// Failed: set via the API, by timeout, or by parent failure propagation.
    Failure,
    /// Completed successfully.
    Success,
    /// Manually paused; workers ignore it.
    Paused,
    /// Canceled; treated like `Failure` for dependency propagation.
    Canceled,
}

impl StatusKind {
    /// Whether the status is final: no operation moves a task out of it.
    pub open spec fn terminal(self) -> bool {
        self == StatusKind::Success || self == StatusKind::Failure || self == StatusKind::Canceled
    }

    /// Whether propagation reaches a task in this status.
    pub open spec fn blocked(self) -> bool {
        self == StatusKind::Waiting || self == StatusKind::Paused
    }

    /// Whether a worker holds the task: its on_start webhook may have run.
    pub open spec fn active(self) -> bool {
        self == StatusKind::Claimed || self == StatusKind::Running
    }

    /// The name of the status.
    pub open spec fn name(self) -> Seq<char> {
        match self {
            StatusKind::Waiting => "Waiting"@,
            StatusKind::Pending => "Pending"@,
            StatusKind::Claimed => "Claimed"@,
            StatusKind::Running => "Running"@,
            StatusKind::Failure => "Failure"@,
            StatusKind::Success => "Success"@,
            StatusKind::Paused => "Paused"@,
            StatusKind::Canceled => "Canceled"@,
        }
    }

    /// The name of the status.
    pub fn label(self) -> (r: &'static str)
        ensures
            r@ == self.name(),
    {
        match self {
            StatusKind::Waiting => "Waiting",
            StatusKind::Pending => "Pending",
            StatusKind::Claimed => "Claimed",
            StatusKind::Running => "Running",
            StatusKind::Failure => "Failure",
            StatusKind::Success => "Success",
            StatusKind::Paused => "Paused",
            StatusKind::Canceled => "Canceled",
        }
    }

    /// The name of the status in the database.
    pub open spec fn stored_name(self) -> Seq<char> {
        match self {
            StatusKind::Waiting => "waiting"@,
            StatusKind::Pending => "pending"@,
            StatusKind::Claimed => "claimed"@,
            StatusKind::Running => "running"@,
            StatusKind::Failure => "failure"@,
            StatusKind::Success => "success"@,
            StatusKind::Paused => "paused"@,
            StatusKind::Canceled => "canceled"@,
        }
    }

    /// Executable form of [`StatusKind::stored_name`].
    pub fn stored(self) -> (r: &'static str)
        ensures
            r@ == self.stored_name(),
    {
        match self {
            StatusKind::Waiting => "waiting",
            StatusKind::Pending => "pending",
            StatusKind::Claimed => "claimed",
            StatusKind::Running => "running",
            StatusKind::Failure => "failure",
            StatusKind::Success => "success",
            StatusKind::Paused => "paused",
            StatusKind::Canceled => "canceled",
        }
    }

    /// Executable form of [`StatusKind::terminal`].
    pub fn is_terminal(self) -> (r: bool)
        ensures
            r == self.terminal(),
    {
        self == StatusKind::Success || self == StatusKind::Failure || self == StatusKind::Canceled
    }

    /// Executable form of [`StatusKind::blocked`].
    pub fn is_blocked(self) -> (r: bool)
        ensures
            r == self.blocked(),
    {
        self == StatusKind::Waiting || self == StatusKind::Paused
    }

    /// Executable form of [`StatusKind::active`].
    pub fn is_active(self) -> (r: bool)
        ensures
            r == self.active(),
    {
        self == StatusKind::Claimed || self == StatusKind::Running
    }
}

/// The type of action to execute.
#[derive(Clone, Copy, Debug, PartialEq, Eq, Structural)]
pub enum ActionKindEnum {
    /// HTTP webhook call.
    Webhook,
}

/// Different statuses have different names in the database.
pub proof fn lemma_stored_names(a: StatusKind, b: StatusKind)
    requires
        a.stored_name() == b.stored_name(),
    ensures
        a == b,
{
    reveal_strlit("waiting");
    reveal_strlit("pending");
    reveal_strlit("claimed");
    reveal_strlit("running");
    reveal_strlit("failure");
    reveal_strlit("success");
    reveal_strlit("paused");
    reveal_strlit("canceled");
    assert("waiting"@[0] == 'w' && "pending"@[0] == 'p' && "claimed"@[0] == 'c');
    assert("running"@[0] == 'r' && "failure"@[0] == 'f' && "success"@[0] == 's');
    assert("paused"@.len() == 6 && "canceled"@.len() == 8);
    assert(a.stored_name()[0] == b.stored_name()[0]);
}

/// When an action is triggered in the task lifecycle.
#[derive(Clone, Copy, Debug, PartialEq, Eq, Structural)]
pub enum TriggerKind {
    /// Fired when the worker starts the task.
    Start,
    /// Fired when the task reaches a terminal state.
    End,
    /// Fired when the task is canceled.
    Cancel,
    /// Fired once when the last task of a batch reaches a terminal state.
    BatchComplete,
}

/// Condition that determines which End-trigger action fires.
#[derive(Clone, Copy, Debug, PartialEq, Eq, Structural)]
pub enum TriggerCondition {
    /// Fires when the task ends with `Success`.
    Success,
    /// Fires when the task ends with `Failure`.
    Failure,
}

/// Status of a webhook execution record.
#[derive(Clone, Copy, Debug, PartialEq, Eq, Structural)]
pub enum WebhookExecutionStatus {
    /// Claimed but not yet completed, or awaiting delivery.
    Pending,
    /// Executed successfully.
    Success,
    /// Failed, eligible for retry.
    Failure,
    /// Failed permanently after the maximum number of attempts.
    Exhausted,
}

/// Which tasks a rule takes together: those with equal values in these fields of their
/// metadata, under a kind and a status. Start rules give them a slot in common; dedupe
/// rules take one of them for another.
#[derive(Debug)]
pub struct Matcher {
    /// Status.
    pub status: StatusKind,
    /// Kind.
    pub kind: String,
    /// Metadata fields.
    pub fields: Vec<String>,
}

/// A start rule of a task. Which slot it means follows from the metadata that the task
/// holds when it is claimed.
#[derive(Debug)]
pub enum Strategy {
    /// At most `max_concurency` tasks may hold the slot at once.
    Concurency {
        /// The slot's limit.
        max_concurency: i32,
        /// What tells the slot.
        matcher: Matcher,
    },
    /// The outstanding work of the slot's holders is kept under `max_capacity`.
    Capacity {
        /// The slot's limit.
        max_capacity: i32,
        /// What tells the slot.
        matcher: Matcher,
    },
}

/// The start rules of a task.
#[derive(Debug)]
pub struct Rules(pub Vec<Strategy>);

/// A task row.
#[derive(Debug)]
pub struct Task {
    /// Primary key.
    pub id: u128,
    /// Display name.
    pub name: String,
    /// Kind, matched by rules.
    pub kind: String,
    /// Lifecycle status.
    pub status: StatusKind,
    /// Timeout in seconds.
    pub timeout: i32,
    /// Creation instant.
    pub created_at: i64,
    /// When the task started running.
    pub started_at: Option<i64>,
    /// Last activity.
    pub last_updated: i64,
    /// Arbitrary JSON text.
    pub metadata: String,
    /// When the task reached a terminal state.
    pub ended_at: Option<i64>,
    /// Start rules.
    pub start_condition: Rules,
    /// Required parents that have not finished.
    pub wait_success: i32,
    /// Parents that have not finished.
    pub wait_finished: i32,
    /// Successes reported so far.
    pub success: i32,
    /// Failures reported so far.
    pub failures: i32,
    /// Why the task failed or was canceled.
    pub failure_reason: Option<String>,
    /// Owning batch.
    pub batch_id: Option<u128>,
    /// Number of items the task expects to process.
    pub expected_count: Option<i32>,
    /// Dead-end cancellation does not climb past the task.
    pub dead_end_barrier: bool,
    /// Scheduling priority, higher first.
    pub priority: i32,
    /// Slot keys consumed when the task was claimed; `None` when it holds none.
    pub claimed_slot_keys: Option<Vec<String>>,
    /// What the task currently contributes to each of its `cap:` slots.
    pub capacity_charge: Option<i32>,
}

/// A matcher, viewed mathematically.
#[verifier::ext_equal]
pub struct MatcherView {
    pub status: StatusKind,
    pub kind: Seq<char>,
    pub fields: Seq<Seq<char>>,
}

/// A rule, viewed mathematically.
pub enum StrategyView {
    /// See [`Strategy::Concurency`].
    Concurency { limit: int, matcher: MatcherView },
    /// See [`Strategy::Capacity`].
    Capacity { limit: int, matcher: MatcherView },
}

/// A task row, viewed mathematically.
#[verifier::ext_equal]
pub struct TaskRow {
    pub id: u128,
    pub name: Seq<char>,
    pub kind: Seq<char>,
    pub status: StatusKind,
    pub timeout: int,
    pub created_at: int,
    pub started_at: Option<int>,
    pub last_updated: int,
    pub metadata: Seq<char>,
    pub ended_at: Option<int>,
    pub rules: Seq<StrategyView>,
    pub wait_success: int,
    pub wait_finished: int,
    pub success: int,
    pub failures: int,
    pub failure_reason: Option<Seq<char>>,
    pub batch_id: Option<u128>,
    pub expected_count: Option<int>,
    pub dead_end_barrier: bool,
    pub priority: int,
    pub slot_keys: Option<Seq<Seq<char>>>,
    pub capacity_charge: Option<int>,
}

/// The view of an optional instant or count.
pub open spec fn opt_int_i64(o: Option<i64>) -> Option<int> {
    match o {
        Some(x) => Some(x as int),
        None => None,
    }
}

/// The view of an optional count.
pub open spec fn opt_int_i32(o: Option<i32>) -> Option<int> {
    match o {
        Some(x) => Some(x as int),
        None => None,
    }
}

/// The view of an optional text.
pub open spec fn opt_text(o: Option<String>) -> Option<Seq<char>> {
    match o {
        Some(x) => Some(x@),
        None => None,
    }
}

/// The views of a list of texts.
pub open spec fn texts(v: Seq<String>) -> Seq<Seq<char>> {
    v.map_values(|s: String| s@)
}

/// The view of an optional list of texts.
pub open spec fn opt_texts(o: Option<Vec<String>>) -> Option<Seq<Seq<char>>> {
    match o {
        Some(x) => Some(texts(x@)),
        None => None,
    }
}

impl View for Matcher {
    type V = MatcherView;

    open spec fn view(&self) -> MatcherView {
        MatcherView { status: self.status, kind: self.kind@, fields: texts(self.fields@) }
    }
}

impl View for Strategy {
    type V = StrategyView;

    open spec fn view(&self) -> StrategyView {
        match self {
            Strategy::Concurency { max_concurency, matcher } => StrategyView::Concurency {
                limit: *max_concurency as int,
                matcher: matcher@,
            },
            Strategy::Capacity { max_capacity, matcher } => StrategyView::Capacity {
                limit: *max_capacity as int,
                matcher: matcher@,
            },
        }
    }
}

impl View for Rules {
    type V = Seq<StrategyView>;

    open spec fn view(&self) -> Seq<StrategyView> {
        self.0@.map_values(|s: Strategy| s@)
    }
}

impl View for Task {
    type V = TaskRow;

    open spec fn view(&self) -> TaskRow {
        TaskRow {
            id: self.id,
            name: self.name@,
            kind: self.kind@,
            status: self.status,
            timeout: self.timeout as int,
            created_at: self.created_at as int,
            started_at: opt_int_i64(self.started_at),
            last_updated: self.last_updated as int,
            metadata: self.metadata@,
            ended_at: opt_int_i64(self.ended_at),
            rules: self.start_condition@,
            wait_success: self.wait_success as int,
            wait_finished: self.wait_finished as int,
            success: self.success as int,
            failures: self.failures as int,
            failure_reason: opt_text(self.failure_reason),
            batch_id: self.batch_id,
            expected_count: opt_int_i32(self.expected_count),
            dead_end_barrier: self.dead_end_barrier,
            priority: self.priority as int,
            slot_keys: opt_texts(self.claimed_slot_keys),
            capacity_charge: opt_int_i32(self.capacity_charge),
        }
    }
}

/// The views of a list of tasks.
pub open spec fn rows(v: Seq<Task>) -> Seq<TaskRow> {
    v.map_values(|t: Task| t@)
}

/// A copy of an optional text.
pub fn clone_opt_text(o: &Option<String>) -> (r: Option<String>)
    ensures
        opt_text(r) == opt_text(*o),
{
    match o {
        Some(s) => Some(s.clone()),
        None => None,
    }
}

/// A copy of a list of texts.
pub fn clone_texts(v: &Vec<String>) -> (r: Vec<String>)
    ensures
        texts(r@) == texts(v@),
        r@ == v@,
{
    let mut r: Vec<String> = Vec::new();
    let mut i: usize = 0;
    while i < v.len()
        invariant
            i <= v.len(),
            r@ == v@.take(i as int),
        decreases v.len() - i,
    {
        r.push(v[i].clone());
        i += 1;
    }
    r
}

impl Clone for Matcher {
    fn clone(&self) -> (r: Self)
        ensures
            r@ == self@,
    {
        Matcher {
            status: self.status,
            kind: self.kind.clone(),
            fields: clone_texts(&self.fields),
        }
    }
}

impl Clone for Strategy {
    fn clone(&self) -> (r: Self)
        ensures
            r@ == self@,
    {
        match self {
            Strategy::Concurency { max_concurency, matcher } => Strategy::Concurency {
                max_concurency: *max_concurency,
                matcher: matcher.clone(),
            },
            Strategy::Capacity { max_capacity, matcher } => Strategy::Capacity {
                max_capacity: *max_capacity,
                matcher: matcher.clone(),
            },
        }
    }
}

impl Clone for Rules {
    fn clone(&self) -> (r: Self)
        ensures
            r@ == self@,
    {
        let mut v: Vec<Strategy> = Vec::new();
        let mut i: usize = 0;
        while i < self.0.len()
            invariant
                i <= self.0.len(),
                v@.len() == i,
                forall|k: int| 0 <= k < i ==> (#[trigger] v@[k])@ == self.0@[k]@,
            decreases self.0.len() - i,
        {
            v.push(self.0[i].clone());
            i += 1;
        }
        let r: Rules = Rules(v);
        assert(r@ =~= self@);
        r
    }
}

impl Clone for Task {
    fn clone(&self) -> (r: Self)
        ensures
            r@ == self@,
    {
        Task {
            id: self.id,
            name: self.name.clone(),
            kind: self.kind.clone(),
            status: self.status,
            timeout: self.timeout,
            created_at: self.created_at,
            started_at: self.started_at,
            last_updated: self.last_updated,
            metadata: self.metadata.clone(),
            ended_at: self.ended_at,
            start_condition: self.start_condition.clone(),
            wait_success: self.wait_success,
            wait_finished: self.wait_finished,
            success: self.success,
            failures: self.failures,
            failure_reason: clone_opt_text(&self.failure_reason),
            batch_id: self.batch_id,
            expected_count: self.expected_count,
            dead_end_barrier: self.dead_end_barrier,
            priority: self.priority,
            claimed_slot_keys: match &self.claimed_slot_keys {
                Some(k) => Some(clone_texts(k)),
                None => None,
            },
            capacity_charge: self.capacity_charge,
        }
    }
}

/// A dependency between two tasks (parent -> child).
#[derive(Clone, Copy, Debug, PartialEq, Eq, Structural)]
pub struct Link {
    /// The task depended on.
    pub parent_id: u128,
    /// The dependent task.
    pub child_id: u128,
    /// Whether the child needs the parent to succeed, not only to finish.
    pub requires_success: bool,
}

/// An action to register: its kind and its parameters as JSON text.
#[derive(Debug)]
pub struct NewActionDto {
    /// The kind of action.
    pub kind: ActionKindEnum,
    /// The parameters, a `WebhookParams` object for a webhook.
    pub params: String,
}

impl Clone for NewActionDto {
    fn clone(&self) -> (r: Self)
        ensures
            r == *self,
    {
        NewActionDto { kind: self.kind, params: self.params.clone() }
    }
}

/// A copy of a list of actions.
pub fn clone_actions(v: &Vec<NewActionDto>) -> (r: Vec<NewActionDto>)
    ensures
        r@ == v@,
{
    let mut r: Vec<NewActionDto> = Vec::new();
    let mut i: usize = 0;
    while i < v.len()
        invariant
            i <= v.len(),
            r@ == v@.take(i as int),
        decreases v.len() - i,
    {
        r.push(v[i].clone());
        i += 1;
    }
    r
}

/// The stored `on_complete` payload of a batch.
#[derive(Debug)]
pub enum OnComplete {
    /// The actions to execute; empty for a batch without a webhook.
    Actions(Vec<NewActionDto>),
    /// A payload that does not parse as a list of actions.
    Malformed {
        /// What the parser reported.
        error: String,
        /// The number of items where the payload is a JSON array, else zero.
        items: usize,
    },
}

impl OnComplete {
    /// Whether the payload differs from the empty array.
    pub open spec fn registered(self) -> bool {
        match self {
            OnComplete::Actions(a) => a@.len() > 0,
            OnComplete::Malformed { .. } => true,
        }
    }

    /// Whether the payload is a non-empty array.
    pub open spec fn nonempty_array(self) -> bool {
        match self {
            OnComplete::Actions(a) => a@.len() > 0,
            OnComplete::Malformed { items, .. } => items > 0,
        }
    }

    /// Executable form of [`OnComplete::registered`].
    pub fn is_registered(&self) -> (r: bool)
        ensures
            r == self.registered(),
    {
        match self {
            OnComplete::Actions(a) => a.len() > 0,
            OnComplete::Malformed { .. } => true,
        }
    }

    /// Executable form of [`OnComplete::nonempty_array`].
    pub fn is_nonempty_array(&self) -> (r: bool)
        ensures
            r == self.nonempty_array(),
    {
        match self {
            OnComplete::Actions(a) => a.len() > 0,
            OnComplete::Malformed { items, .. } => *items > 0,
        }
    }
}

/// A batch row. Batches without a webhook, a scope or metadata have none.
#[derive(Debug)]
pub struct Batch {
    /// Primary key.
    pub id: u128,
    /// The actions to execute when the batch completes.
    pub on_complete: OnComplete,
    /// Creation instant.
    pub created_at: i64,
    /// Optional business-level label.
    pub scope: Option<String>,
    /// Arbitrary JSON text.
    pub metadata: String,
    /// Number of the batch's tasks that are not terminal yet.
    pub remaining: i32,
}

/// How many units of a start rule's slot are in use.
#[derive(Debug)]
pub struct RuleSlot {
    /// Canonical slot key.
    pub lock_key: String,
    /// Units in use.
    pub used: i32,
}

/// A slot row, viewed mathematically.
#[verifier::ext_equal]
pub struct SlotRow {
    pub key: Seq<char>,
    pub used: int,
}

impl View for RuleSlot {
    type V = SlotRow;

    open spec fn view(&self) -> SlotRow {
        SlotRow { key: self.lock_key@, used: self.used as int }
    }
}

/// An action row. A row that the database has not stored yet has no id.
#[derive(Debug)]
pub struct Action {
    /// Primary key, assigned by the database.
    pub id: Option<u128>,
    /// Owning task.
    pub task_id: u128,
    /// The kind of action.
    pub kind: ActionKindEnum,
    /// The parameters, as JSON text.
    pub params: String,
    /// When the action fires.
    pub trigger: TriggerKind,
    /// Which outcome it fires on.
    pub condition: TriggerCondition,
    /// Whether it succeeded.
    pub success: Option<bool>,
}

impl Clone for Action {
    fn clone(&self) -> (r: Self)
        ensures
            r == *self,
    {
        Action {
            id: self.id,
            task_id: self.task_id,
            kind: self.kind,
            params: self.params.clone(),
            trigger: self.trigger,
            condition: self.condition,
            success: self.success,
        }
    }
}

/// A row of the ledger: the record of a webhook event, keyed by its idempotency
/// key. For start and cancel events the condition is the `Success` sentinel. A row
/// that the database has not stored yet has no id.
#[derive(Debug)]
pub struct WebhookExecution {
    /// Primary key, assigned by the database.
    pub id: Option<u128>,
    /// Owning task, for task-level rows.
    pub task_id: Option<u128>,
    /// When the webhook fires.
    pub trigger: TriggerKind,
    /// Which outcome it fires on.
    pub condition: TriggerCondition,
    /// Unique key of the event.
    pub idempotency_key: String,
    /// Execution status.
    pub status: WebhookExecutionStatus,
    /// Number of attempts.
    pub attempts: i32,
    /// Creation instant.
    pub created_at: i64,
    /// Last change.
    pub updated_at: i64,
    /// When the row was or becomes due.
    pub next_attempt_at: i64,
    /// Last delivery error.
    pub last_error: Option<String>,
    /// Owning batch, for batch-level rows.
    pub batch_id: Option<u128>,
}

/// A ledger row, viewed mathematically.
#[verifier::ext_equal]
pub struct LedgerRow {
    pub id: Option<u128>,
    pub task_id: Option<u128>,
    pub trigger: TriggerKind,
    pub condition: TriggerCondition,
    pub key: Seq<char>,
    pub status: WebhookExecutionStatus,
    pub attempts: int,
    pub created_at: int,
    pub updated_at: int,
    pub next_attempt_at: int,
    pub last_error: Option<Seq<char>>,
    pub batch_id: Option<u128>,
}

impl View for WebhookExecution {
    type V = LedgerRow;

    open spec fn view(&self) -> LedgerRow {
        LedgerRow {
            id: self.id,
            task_id: self.task_id,
            trigger: self.trigger,
            condition: self.condition,
            key: self.idempotency_key@,
            status: self.status,
            attempts: self.attempts as int,
            created_at: self.created_at as int,
            updated_at: self.updated_at as int,
            next_attempt_at: self.next_attempt_at as int,
            last_error: opt_text(self.last_error),
            batch_id: self.batch_id,
        }
    }
}

impl Clone for WebhookExecution {
    fn clone(&self) -> (r: Self)
        ensures
            r@ == self@,
    {
        WebhookExecution {
            id: self.id,
            task_id: self.task_id,
            trigger: self.trigger,
            condition: self.condition,
            idempotency_key: self.idempotency_key.clone(),
            status: self.status,
            attempts: self.attempts,
            created_at: self.created_at,
            updated_at: self.updated_at,
            next_attempt_at: self.next_attempt_at,
            last_error: clone_opt_text(&self.last_error),
            batch_id: self.batch_id,
        }
    }
}

/// A row of the delivery queue. A present row awaits delivery. A row that the
/// database has not stored yet has no id.
#[derive(Debug)]
pub struct WebhookOutbox {
    /// Primary key, assigned by the database.
    pub id: Option<u128>,
    /// Owning task, for task-level rows.
    pub task_id: Option<u128>,
    /// Owning batch, for batch-level rows.
    pub batch_id: Option<u128>,
    /// When the webhook fires.
    pub trigger: TriggerKind,
    /// Which outcome it fires on.
    pub condition: TriggerCondition,
    /// Unique key of the event.
    pub idempotency_key: String,
    /// Number of failed attempts.
    pub attempts: i32,
    /// Creation instant.
    pub created_at: i64,
    /// Last change.
    pub updated_at: i64,
    /// When the row becomes due.
    pub next_attempt_at: i64,
    /// Last delivery error.
    pub last_error: Option<String>,
    /// The claim that currently holds the row.
    pub lease_token: Option<u128>,
}

/// A queue row, viewed mathematically.
#[verifier::ext_equal]
pub struct OutboxRow {
    pub id: Option<u128>,
    pub task_id: Option<u128>,
    pub batch_id: Option<u128>,
    pub trigger: TriggerKind,
    pub condition: TriggerCondition,
    pub key: Seq<char>,
    pub attempts: int,
    pub created_at: int,
    pub updated_at: int,
    pub next_attempt_at: int,
    pub last_error: Option<Seq<char>>,
    pub lease_token: Option<u128>,
}

impl View for WebhookOutbox {
    type V = OutboxRow;

    open spec fn view(&self) -> OutboxRow {
        OutboxRow {
            id: self.id,
            task_id: self.task_id,
            batch_id: self.batch_id,
            trigger: self.trigger,
            condition: self.condition,
            key: self.idempotency_key@,
            attempts: self.attempts as int,
            created_at: self.created_at as int,
            updated_at: self.updated_at as int,
            next_attempt_at: self.next_attempt_at as int,
            last_error: opt_text(self.last_error),
            lease_token: self.lease_token,
        }
    }
}

impl Clone for WebhookOutbox {
    fn clone(&self) -> (r: Self)
        ensures
            r@ == self@,
    {
        WebhookOutbox {
            id: self.id,
            task_id: self.task_id,
            batch_id: self.batch_id,
            trigger: self.trigger,
            condition: self.condition,
            idempotency_key: self.idempotency_key.clone(),
            attempts: self.attempts,
            created_at: self.created_at,
            updated_at: self.updated_at,
            next_attempt_at: self.next_attempt_at,
            last_error: clone_opt_text(&self.last_error),
            lease_token: self.lease_token,
        }
    }
}

/// A task moved to the archive.
#[derive(Debug)]
pub struct TaskArchive {
    /// The task as it was.
    pub task: Task,
    /// When it was archived.
    pub archived_at: i64,
}

/// An archived task, viewed mathematically.
#[verifier::ext_equal]
pub struct ArchiveRow {
    pub task: TaskRow,
    pub archived_at: int,
}

impl View for TaskArchive {
    type V = ArchiveRow;

    open spec fn view(&self) -> ArchiveRow {
        ArchiveRow { task: self.task@, archived_at: self.archived_at as int }
    }
}

/// The views of the slots.
pub open spec fn slot_rows(v: Seq<RuleSlot>) -> Seq<SlotRow> {
    v.map_values(|s: RuleSlot| s@)
}

/// The views of the ledger.
pub open spec fn ledger_rows(v: Seq<WebhookExecution>) -> Seq<LedgerRow> {
    v.map_values(|s: WebhookExecution| s@)
}

/// The views of the delivery queue.
pub open spec fn outbox_rows(v: Seq<WebhookOutbox>) -> Seq<OutboxRow> {
    v.map_values(|s: WebhookOutbox| s@)
}

/// The views of the archive.
pub open spec fn archive_rows(v: Seq<TaskArchive>) -> Seq<ArchiveRow> {
    v.map_values(|s: TaskArchive| s@)
}

} // verus!
