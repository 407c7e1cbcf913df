//! What requests carry, and what responses show.

pub mod query;

use crate::models::{
    clone_opt_text, opt_int_i32, opt_int_i64, opt_text, Action, Link, Matcher, NewActionDto,
    Rules, StatusKind, Task, TaskRow,
};
use vstd::prelude::*;

verus! {

/// A change of a running task.
#[derive(Debug)]
pub struct UpdateTaskDto {
    /// Target status: `Success` or `Failure`.
    pub status: Option<StatusKind>,
    /// Replacement metadata, as JSON text.
    pub metadata: Option<String>,
    /// Successes to add.
    pub new_success: Option<i32>,
    /// Failures to add.
    pub new_failures: Option<i32>,
    /// Why the task failed.
    pub failure_reason: Option<String>,
    /// New number of expected items.
    pub expected_count: Option<i32>,
    /// New priority.
    pub priority: Option<i32>,
}

/// A change of a running task, viewed mathematically.
pub struct UpdateView {
    pub status: Option<StatusKind>,
    pub metadata: Option<Seq<char>>,
    pub new_success: Option<int>,
    pub new_failures: Option<int>,
    pub failure_reason: Option<Seq<char>>,
    pub expected_count: Option<int>,
    pub priority: Option<int>,
}

impl View for UpdateTaskDto {
    type V = UpdateView;

    open spec fn view(&self) -> UpdateView {
        UpdateView {
            status: self.status,
            metadata: opt_text(self.metadata),
            new_success: opt_int_i32(self.new_success),
            new_failures: opt_int_i32(self.new_failures),
            failure_reason: opt_text(self.failure_reason),
            expected_count: opt_int_i32(self.expected_count),
            priority: opt_int_i32(self.priority),
        }
    }
}

/// A dependency on an earlier task of the same request.
#[derive(Debug)]
pub struct Dependency {
    /// The local id of the task depended on.
    pub id: String,
    /// Whether it has to succeed, not only to finish.
    pub requires_success: bool,
}

/// A task to create.
#[derive(Debug)]
pub struct NewTaskDto {
    /// Local id, for dependencies within the request.
    pub id: String,
    /// Display name.
    pub name: String,
    /// Kind.
    pub kind: String,
    /// Timeout in seconds.
    pub timeout: Option<i32>,
    /// Arbitrary JSON text.
    pub metadata: Option<String>,
    /// Start rules.
    pub rules: Option<Rules>,
    /// Tasks that this one waits for.
    pub dependencies: Option<Vec<Dependency>>,
    /// Action that starts the task.
    pub on_start: NewActionDto,
    /// Actions to execute when it fails.
    pub on_failure: Option<Vec<NewActionDto>>,
    /// Actions to execute when it succeeds.
    pub on_success: Option<Vec<NewActionDto>>,
    /// Rules that tell whether an equal task exists.
    pub dedupe_strategy: Option<Vec<Matcher>>,
    /// Number of items to process.
    pub expected_count: Option<i32>,
    /// Dead-end cancellation does not climb past the task.
    pub dead_end_barrier: Option<bool>,
    /// Scheduling priority.
    pub priority: Option<i32>,
}

/// A task without its rules and actions.
#[derive(Debug)]
pub struct BasicTaskDto {
    /// Identifier.
    pub id: u128,
    /// Display name.
    pub name: String,
    /// Kind.
    pub kind: String,
    /// Status.
    pub status: StatusKind,
    /// Timeout in seconds.
    pub timeout: i32,
    /// Creation instant.
    pub created_at: i64,
    /// When it started.
    pub started_at: Option<i64>,
    /// When it ended.
    pub ended_at: Option<i64>,
    /// Successes so far.
    pub success: i32,
    /// Failures so far.
    pub failures: i32,
    /// Why it failed.
    pub failure_reason: Option<String>,
    /// Expected items.
    pub expected_count: Option<i32>,
    /// Owning batch.
    pub batch_id: Option<u128>,
    /// Priority.
    pub priority: i32,
}

/// A task without its rules and actions, viewed mathematically.
#[verifier::ext_equal]
pub struct BasicRow {
    pub id: u128,
    pub name: Seq<char>,
    pub kind: Seq<char>,
    pub status: StatusKind,
    pub timeout: int,
    pub created_at: int,
    pub started_at: Option<int>,
    pub ended_at: Option<int>,
    pub success: int,
    pub failures: int,
    pub failure_reason: Option<Seq<char>>,
    pub expected_count: Option<int>,
    pub batch_id: Option<u128>,
    pub priority: int,
}

impl View for BasicTaskDto {
    type V = BasicRow;

    open spec fn view(&self) -> BasicRow {
        BasicRow {
            id: self.id,
            name: self.name@,
            kind: self.kind@,
            status: self.status,
            timeout: self.timeout as int,
            created_at: self.created_at as int,
            started_at: opt_int_i64(self.started_at),
            ended_at: opt_int_i64(self.ended_at),
            success: self.success as int,
            failures: self.failures as int,
            failure_reason: opt_text(self.failure_reason),
            expected_count: opt_int_i32(self.expected_count),
            batch_id: self.batch_id,
            priority: self.priority as int,
        }
    }
}

/// The summary of a task row.
pub open spec fn basic(r: TaskRow) -> BasicRow {
    BasicRow {
        id: r.id,
        name: r.name,
        kind: r.kind,
        status: r.status,
        timeout: r.timeout,
        created_at: r.created_at,
        started_at: r.started_at,
        ended_at: r.ended_at,
        success: r.success,
        failures: r.failures,
        failure_reason: r.failure_reason,
        expected_count: r.expected_count,
        batch_id: r.batch_id,
        priority: r.priority,
    }
}

/// The views of summaries.
pub open spec fn basic_rows(v: Seq<BasicTaskDto>) -> Seq<BasicRow> {
    v.map_values(|d: BasicTaskDto| d@)
}

impl BasicTaskDto {
    /// The summary of a task.
    pub fn of_task(t: &Task) -> (r: Self)
        ensures
            r@ == basic(t@),
    {
        BasicTaskDto {
            id: t.id,
            name: t.name.clone(),
            kind: t.kind.clone(),
            status: t.status,
            timeout: t.timeout,
            created_at: t.created_at,
            started_at: t.started_at,
            ended_at: t.ended_at,
            success: t.success,
            failures: t.failures,
            failure_reason: clone_opt_text(&t.failure_reason),
            expected_count: t.expected_count,
            batch_id: t.batch_id,
            priority: t.priority,
        }
    }
}

/// A task with its rules and actions.
#[derive(Debug)]
pub struct TaskDto {
    /// The task.
    pub task: Task,
    /// Its actions.
    pub actions: Vec<Action>,
}

/// The tasks and links of a batch.
#[derive(Debug)]
pub struct DagDto {
    /// The tasks, oldest first.
    pub tasks: Vec<BasicTaskDto>,
    /// The links between them.
    pub links: Vec<Link>,
}

} // verus!
