//! Task transitions asked for by callers and workers.

use crate::action::WebhookParams;
use crate::config::SecurityConfig;
use crate::db::task_crud::{
    has_status, release_slots_for_tasks, released_row, released_slot,
};
use crate::db::webhook_execution::{
    registered_batch, signalled, with_remaining, zero_batch_remaining_and_complete,
};
use crate::dtos::{UpdateTaskDto, UpdateView};
use crate::error::{ArcRunError, ErrorView};
use crate::models::{
    rows, Action, NewActionDto, StatusKind, Task, TaskRow, TriggerCondition, TriggerKind,
};
use crate::tally::{
    count, ids_where, lemma_count_take, lemma_filter_take, lemma_ids_where_none,
    lemma_ids_where_take,
};
use crate::validation::{params_refusal, validate_action_params};
use crate::workers::webhooks::{enqueue_cancels, with_cancels};
use crate::store::{Store, Tables};
use crate::text::{uuid_text, uuid_to_string};
use crate::workers::finish::{finish_task, finished, Notice};
use crate::workers::propagation::{cancel_row, canceled_row, unique_ids};
use vstd::prelude::*;

verus! {

/// Result of attempting to update a running task.
#[derive(Clone, Copy, Debug, PartialEq, Eq, Structural)]
pub enum UpdateTaskResult {
    /// The task was updated.
    Updated,
    /// The task holds the requested status already; nothing changed.
    AlreadyInRequestedState,
    /// The task does not exist.
    NotFound,
    /// The task is not running and does not hold the requested status; this is
    /// the status it holds.
    Conflict(StatusKind),
}

/// The given value, or `otherwise`.
pub open spec fn or_else<A>(o: Option<A>, otherwise: A) -> A {
    match o {
        Some(x) => x,
        None => otherwise,
    }
}

/// An active task after an update. A target status comes with the end instant
/// and the failure reason; without one those are left alone.
pub open spec fn updated_row(id: u128, dto: UpdateView, now: int) -> spec_fn(TaskRow) -> TaskRow {
    |r: TaskRow|
        if r.id == id && r.status.active() {
            TaskRow {
                last_updated: now,
                success: r.success + or_else(dto.new_success, 0),
                failures: r.failures + or_else(dto.new_failures, 0),
                metadata: or_else(dto.metadata, r.metadata),
                expected_count: match dto.expected_count {
                    Some(c) => Some(c),
                    None => r.expected_count,
                },
                priority: or_else(dto.priority, r.priority),
                status: or_else(dto.status, r.status),
                ended_at: if dto.status is Some {
                    Some(now)
                } else {
                    r.ended_at
                },
                failure_reason: if dto.status is Some && dto.failure_reason is Some {
                    dto.failure_reason
                } else {
                    r.failure_reason
                },
                ..r
            }
        } else {
            r
        }
}

/// Whether `id` is an active task.
pub open spec fn is_active_task(rows: Seq<TaskRow>, id: u128) -> bool {
    exists|i: int| 0 <= i < rows.len() && #[trigger] rows[i].id == id && rows[i].status.active()
}

/// Whether `id` is a task.
pub open spec fn is_task(rows: Seq<TaskRow>, id: u128) -> bool {
    exists|i: int| 0 <= i < rows.len() && #[trigger] rows[i].id == id
}

/// What an update answers.
pub open spec fn update_result(
    rows: Seq<TaskRow>,
    id: u128,
    status: Option<StatusKind>,
    r: UpdateTaskResult,
) -> bool {
    if is_active_task(rows, id) {
        r == UpdateTaskResult::Updated
    } else if is_task(rows, id) {
        exists|i: int|
            0 <= i < rows.len() && #[trigger] rows[i].id == id && r == if status == Some(
                rows[i].status,
            ) {
                UpdateTaskResult::AlreadyInRequestedState
            } else {
                UpdateTaskResult::Conflict(rows[i].status)
            }
    } else {
        r == UpdateTaskResult::NotFound
    }
}

/// The tables after an update of the task `id`. Nothing changes where it is not
/// active; a target status has all its consequences in the same transaction.
pub open spec fn after_update(
    s: Tables,
    id: u128,
    dto: UpdateView,
    dead_end_enabled: bool,
    now: int,
) -> Tables {
    if !is_active_task(s.tasks, id) {
        s
    } else {
        let t = Tables { tasks: s.tasks.map_values(updated_row(id, dto, now)), ..s };
        match dto.status {
            Some(status) => finished(t, id, status, dead_end_enabled, Notice::End, now),
            None => t,
        }
    }
}

/// The position of the task `id`.
pub fn find_task(tasks: &Vec<Task>, id: u128) -> (r: Option<usize>)
    ensures
        match r {
            Some(i) => i < tasks@.len() && tasks@[i as int].id == id,
            None => !is_task(rows(tasks@), id),
        },
{
    let mut i: usize = 0;
    while i < tasks.len()
        invariant
            i <= tasks.len(),
            forall|k: int| 0 <= k < i ==> (#[trigger] rows(tasks@)[k]).id != id,
        decreases tasks.len() - i,
    {
        assert(rows(tasks@)[i as int] == tasks@[i as int]@);
        if tasks[i].id == id {
            return Some(i);
        }
        i += 1;
    }
    None
}

/// A row-wise step that only touches the row at `i` is an update of it.
pub proof fn lemma_touch_one(
    rs: Seq<TaskRow>,
    i: int,
    step: spec_fn(TaskRow) -> TaskRow,
)
    requires
        unique_ids(rs),
        0 <= i < rs.len(),
        forall|k: int|
            0 <= k < rs.len() && (#[trigger] rs[k]).id != rs[i].id ==> step(rs[k]) == rs[k],
    ensures
        rs.map_values(step) == rs.update(i, step(rs[i])),
{
    assert forall|k: int| 0 <= k < rs.len() implies rs.map_values(step)[k] == rs.update(
        i,
        step(rs[i]),
    )[k] by {
        if k != i {
            assert(rs[k].id != rs[i].id);
        }
    }
    assert(rs.map_values(step) =~= rs.update(i, step(rs[i])));
}

/// A row-wise step that keeps identifiers, charges and counters keeps the tables
/// well formed.
pub proof fn lemma_step_keeps_wf(s: Tables, t: Tables)
    requires
        s.wf(),
        t.links == s.links,
        t.tasks.len() == s.tasks.len(),
        forall|i: int|
            0 <= i < s.tasks.len() ==> {
                &&& (#[trigger] t.tasks[i]).id == s.tasks[i].id
                &&& t.tasks[i].capacity_charge == s.tasks[i].capacity_charge
                &&& t.tasks[i].wait_finished == s.tasks[i].wait_finished
                &&& t.tasks[i].wait_success == s.tasks[i].wait_success
                &&& t.tasks[i].status.blocked() ==> s.tasks[i].status.blocked()
            },
    ensures
        t.wf(),
{
    assert forall|i: int, j: int|
        0 <= i < t.tasks.len() && 0 <= j < t.tasks.len() && #[trigger] t.tasks[i].id
            == #[trigger] t.tasks[j].id implies i == j by {
        assert(s.tasks[i].id == s.tasks[j].id);
    }
    assert forall|i: int|
        0 <= i < t.tasks.len() && (
        #[trigger] t.tasks[i]).capacity_charge is Some implies t.tasks[i].capacity_charge->0
        >= 0 by {
        assert(s.tasks[i].capacity_charge is Some);
    }
    assert forall|i: int| 0 <= i < t.tasks.len() && (
    #[trigger] t.tasks[i]).status.blocked() implies t.tasks[i].wait_finished - t.links.len() - 1
        >= i32::MIN && t.tasks[i].wait_success - 1 >= i32::MIN by {
        assert(s.tasks[i].wait_finished == t.tasks[i].wait_finished);
    }
}

/// The reported counts of the task `id`, where it is active, leave room for the
/// update.
pub open spec fn counts_fit(rows: Seq<TaskRow>, id: u128, dto: UpdateView) -> bool {
    forall|i: int|
        0 <= i < rows.len() && (#[trigger] rows[i]).id == id && rows[i].status.active()
            ==> i32::MIN <= rows[i].success
            + or_else(dto.new_success, 0) <= i32::MAX && i32::MIN <= rows[i].failures + or_else(
            dto.new_failures,
            0,
        ) <= i32::MAX
}

/// Updates a running task. A claimed task is accepted too: its worker may report
/// before the on_start webhook has returned.
///
/// A target status ends the task: its completion is propagated, dead ends are
/// canceled where that is enabled, the notifications are enqueued, and the tasks
/// that became terminal release their slots and count off their batches, all
/// together. Asking again for a status that the task holds already changes
/// nothing.
pub fn update_running_task(
    store: &mut Store,
    task_id: u128,
    dto: UpdateTaskDto,
    dead_end_enabled: bool,
    now: i64,
) -> (r: UpdateTaskResult)
    requires
        old(store)@.wf(),
        dto.status is None || dto.status == Some(StatusKind::Success) || dto.status == Some(
            StatusKind::Failure,
        ),
        counts_fit(old(store)@.tasks, task_id, dto@),
    ensures
        final(store)@ == after_update(
            old(store)@,
            task_id,
            dto@,
            dead_end_enabled,
            now as int,
        ),
        update_result(old(store)@.tasks, task_id, dto.status, r),
{
    let ghost s = store@;
    let ghost view = dto@;
    let i: usize = match find_task(&store.tasks, task_id) {
        Some(i) => i,
        None => {
            return UpdateTaskResult::NotFound;
        },
    };
    assert(s.tasks[i as int] == store.tasks@[i as int]@);
    let current: StatusKind = store.tasks[i].status;
    if !current.is_active() {
        assert(!is_active_task(s.tasks, task_id)) by {
            if is_active_task(s.tasks, task_id) {
                let k = choose|k: int|
                    0 <= k < s.tasks.len() && #[trigger] s.tasks[k].id == task_id
                        && s.tasks[k].status.active();
                assert(s.tasks[k].id == s.tasks[i as int].id);
            }
        }
        let same: bool = match dto.status {
            Some(wanted) => wanted == current,
            None => false,
        };
        return if same {
            UpdateTaskResult::AlreadyInRequestedState
        } else {
            UpdateTaskResult::Conflict(current)
        };
    }
    let status: Option<StatusKind> = dto.status;
    let ghost before = store.tasks@;
    apply_update(&mut store.tasks[i], dto, now);
    let ghost step = updated_row(task_id, view, now as int);
    proof {
        lemma_touch_one(s.tasks, i as int, step);
        assert(rows(store.tasks@) =~= s.tasks.update(i as int, step(s.tasks[i as int])));
        let t = store@;
        assert(t =~= Tables { tasks: s.tasks.map_values(step), ..s });
        lemma_step_keeps_wf(s, t);
    }
    if let Some(status) = status {
        let _ = finish_task(store, task_id, status, dead_end_enabled, Notice::End, now);
    }
    UpdateTaskResult::Updated
}

/// Applies an update to one active task.
fn apply_update(t: &mut Task, dto: UpdateTaskDto, now: i64)
    requires
        old(t)@.status.active(),
        i32::MIN <= old(t)@.success + or_else(dto@.new_success, 0) <= i32::MAX,
        i32::MIN <= old(t)@.failures + or_else(dto@.new_failures, 0) <= i32::MAX,
    ensures
        final(t)@ == updated_row(old(t).id, dto@, now as int)(old(t)@),
{
    t.last_updated = now;
    if let Some(e) = dto.new_success {
        t.success = t.success + e;
    }
    if let Some(e) = dto.new_failures {
        t.failures = t.failures + e;
    }
    if let Some(m) = dto.metadata {
        t.metadata = m;
    }
    if let Some(c) = dto.expected_count {
        t.expected_count = Some(c);
    }
    if let Some(p) = dto.priority {
        t.priority = p;
    }
    if let Some(s) = dto.status {
        t.status = s;
        t.ended_at = Some(now);
        if let Some(m) = dto.failure_reason {
            t.failure_reason = Some(m);
        }
    }
}

// ---------------------------------------------------------------------------
// Failing
// ---------------------------------------------------------------------------

/// An active task that failed for `reason`.
pub open spec fn failed_row(id: u128, reason: Seq<char>, now: int) -> spec_fn(TaskRow) -> TaskRow {
    |r: TaskRow|
        if r.id == id && r.status.active() {
            TaskRow {
                status: StatusKind::Failure,
                failure_reason: Some(reason),
                ended_at: Some(now),
                last_updated: now,
                ..r
            }
        } else {
            r
        }
}

/// Marks an active task as failed. Returns whether it was active.
pub fn mark_task_failed(tasks: &mut Vec<Task>, task_id: u128, reason: &str, now: i64) -> (r: bool)
    requires
        unique_ids(rows(old(tasks)@)),
    ensures
        rows(final(tasks)@) == rows(old(tasks)@).map_values(
            failed_row(task_id, reason@, now as int),
        ),
        r == is_active_task(rows(old(tasks)@), task_id),
{
    let ghost rs = rows(tasks@);
    let ghost step = failed_row(task_id, reason@, now as int);
    match find_task(tasks, task_id) {
        Some(i) => {
            assert(rs[i as int] == tasks@[i as int]@);
            proof {
                lemma_touch_one(rs, i as int, step);
            }
            if tasks[i].status.is_active() {
                assert(is_active_task(rs, task_id));
                tasks[i].status = StatusKind::Failure;
                tasks[i].failure_reason = Some(reason.to_string());
                tasks[i].ended_at = Some(now);
                tasks[i].last_updated = now;
                assert(rows(tasks@) =~= rs.update(i as int, step(rs[i as int])));
                true
            } else {
                proof {
                    if is_active_task(rs, task_id) {
                        let k = choose|k: int|
                            0 <= k < rs.len() && #[trigger] rs[k].id == task_id
                                && rs[k].status.active();
                        assert(rs[k].id == rs[i as int].id);
                    }
                    assert(rs.update(i as int, step(rs[i as int])) =~= rs);
                }
                false
            }
        },
        None => {
            assert(rs.map_values(step) =~= rs) by {
                assert forall|k: int| 0 <= k < rs.len() implies step(rs[k]) == rs[k] by {
                    assert(rs[k].id != task_id);
                }
            }
            false
        },
    }
}

/// Marks an active task as failed and carries out the consequences, in one
/// transaction. A task that is not active is left alone; returns whether it was.
pub fn fail_task_and_propagate(
    store: &mut Store,
    task_id: u128,
    reason: &str,
    dead_end_enabled: bool,
    now: i64,
) -> (r: bool)
    requires
        old(store)@.wf(),
    ensures
        r == is_active_task(old(store)@.tasks, task_id),
        !r ==> final(store)@ == old(store)@,
        r ==> final(store)@ == finished(
            (Tables {
                tasks: old(store)@.tasks.map_values(failed_row(task_id, reason@, now as int)),
                ..old(store)@
            }),
            task_id,
            StatusKind::Failure,
            dead_end_enabled,
            Notice::End,
            now as int,
        ),
{
    let ghost s = store@;
    let ghost step = failed_row(task_id, reason@, now as int);
    let updated: bool = mark_task_failed(&mut store.tasks, task_id, reason, now);
    if updated {
        proof {
            let t = store@;
            assert(t =~= Tables { tasks: s.tasks.map_values(step), ..s });
            lemma_step_keeps_wf(s, t);
        }
        let _ = finish_task(
            store,
            task_id,
            StatusKind::Failure,
            dead_end_enabled,
            Notice::End,
            now,
        );
    } else {
        assert(s.tasks.map_values(step) =~= s.tasks) by {
            assert forall|k: int| 0 <= k < s.tasks.len() implies step(s.tasks[k])
                == s.tasks[k] by {
                if s.tasks[k].id == task_id {
                    assert(!s.tasks[k].status.active());
                }
            }
        }
    }
    updated
}

// ---------------------------------------------------------------------------
// Pausing and resuming
// ---------------------------------------------------------------------------

/// A paused task.
pub open spec fn paused_row(id: u128, now: int) -> spec_fn(TaskRow) -> TaskRow {
    |r: TaskRow|
        if r.id == id && (r.status == StatusKind::Pending || r.status == StatusKind::Waiting) {
            TaskRow { status: StatusKind::Paused, last_updated: now, ..r }
        } else {
            r
        }
}

/// A resumed task: back to `Waiting` while it waits for a parent, else to
/// `Pending`.
pub open spec fn resumed_row(id: u128, now: int) -> spec_fn(TaskRow) -> TaskRow {
    |r: TaskRow|
        if r.id == id && r.status == StatusKind::Paused {
            TaskRow {
                status: if r.wait_finished > 0 || r.wait_success > 0 {
                    StatusKind::Waiting
                } else {
                    StatusKind::Pending
                },
                last_updated: now,
                ..r
            }
        } else {
            r
        }
}

/// The message for a task that does not exist.
pub open spec fn not_found_message(id: u128) -> Seq<char> {
    "Task "@ + uuid_text(id) + " not found"@
}

/// The message for a refused pause of a running task.
pub open spec fn pause_running_message() -> Seq<char> {
    "Cannot pause a Running task (its on_start webhook may have fired); cancel it instead (DELETE /task/{id})"@
}

/// The message for an operation refused in `status`.
pub open spec fn refused_message(op: Seq<char>, status: StatusKind, allowed: Seq<char>) -> Seq<
    char,
> {
    "Cannot "@ + op + " task in "@ + status.name() + " state (only "@ + allowed
        + " tasks can be "@ + op + "d)"@
}

/// The error for a refused pause or resume: not found where the task is gone,
/// otherwise an invalid state that names the current one.
pub open spec fn refusal(
    rows: Seq<TaskRow>,
    id: u128,
    op: Seq<char>,
    allowed: Seq<char>,
    e: ErrorView,
) -> bool {
    if !is_task(rows, id) {
        e == ErrorView::NotFound(not_found_message(id))
    } else {
        exists|i: int|
            0 <= i < rows.len() && #[trigger] rows[i].id == id && e == ErrorView::InvalidState(
                if rows[i].status == StatusKind::Running && op == "pause"@ {
                    pause_running_message()
                } else {
                    refused_message(op, rows[i].status, allowed)
                },
            )
    }
}

/// The error for a task that does not exist.
pub(crate) fn task_not_found(id: u128) -> (e: ArcRunError)
    ensures
        e@ == ErrorView::NotFound(not_found_message(id)),
{
    ArcRunError::NotFound {
        message: "Task ".to_string().concat(uuid_to_string(id).as_str()).concat(" not found"),
    }
}

/// Builds the error for a refused pause or resume.
pub fn refuse_transition(tasks: &Vec<Task>, task_id: u128, op: &str, allowed: &str) -> (e:
    ArcRunError)
    ensures
        refusal(rows(tasks@), task_id, op@, allowed@, e@),
{
    match find_task(tasks, task_id) {
        None => task_not_found(task_id),
        Some(i) => {
            assert(rows(tasks@)[i as int].id == task_id);
            let s: StatusKind = tasks[i].status;
            if s == StatusKind::Running && crate::text::same_text(op, "pause") {
                ArcRunError::InvalidState {
                    message: "Cannot pause a Running task (its on_start webhook may have fired); cancel it instead (DELETE /task/{id})".to_string(),
                }
            } else {
                ArcRunError::InvalidState {
                    message: "Cannot ".to_string().concat(op).concat(" task in ").concat(
                        s.label(),
                    ).concat(" state (only ").concat(allowed).concat(" tasks can be ").concat(
                        op,
                    ).concat("d)"),
                }
            }
        },
    }
}

/// Pauses a task that has not started: `Pending` or `Waiting`. A running or
/// claimed task is already executing and is refused, as is a terminal one.
pub fn pause_task(tasks: &mut Vec<Task>, task_id: u128, now: i64) -> (r: Result<(), ArcRunError>)
    requires
        unique_ids(rows(old(tasks)@)),
    ensures
        rows(final(tasks)@) == rows(old(tasks)@).map_values(paused_row(task_id, now as int)),
        r is Ok <==> has_status(rows(old(tasks)@), task_id, StatusKind::Pending) || has_status(
            rows(old(tasks)@),
            task_id,
            StatusKind::Waiting,
        ),
        r matches Err(e) ==> refusal(
            rows(old(tasks)@),
            task_id,
            "pause"@,
            "Pending or Waiting"@,
            e@,
        ),
{
    let ghost rs = rows(tasks@);
    let ghost step = paused_row(task_id, now as int);
    if let Some(i) = find_task(tasks, task_id) {
        assert(rs[i as int] == tasks@[i as int]@);
        proof {
            lemma_touch_one(rs, i as int, step);
            lemma_only_status(rs, i as int);
        }
        if tasks[i].status == StatusKind::Pending || tasks[i].status == StatusKind::Waiting {
            tasks[i].status = StatusKind::Paused;
            tasks[i].last_updated = now;
            assert(rows(tasks@) =~= rs.update(i as int, step(rs[i as int])));
            return Ok(());
        }
        assert(rs.update(i as int, step(rs[i as int])) =~= rs);
    } else {
        assert(rs.map_values(step) =~= rs) by {
            assert forall|k: int| 0 <= k < rs.len() implies step(rs[k]) == rs[k] by {
                assert(rs[k].id != task_id);
            }
        }
    }
    Err(refuse_transition(tasks, task_id, "pause", "Pending or Waiting"))
}

/// The status of the only row with an identifier.
proof fn lemma_only_status(rs: Seq<TaskRow>, i: int)
    requires
        unique_ids(rs),
        0 <= i < rs.len(),
    ensures
        forall|status: StatusKind| #[trigger]
            has_status(rs, rs[i].id, status) <==> rs[i].status == status,
{
    assert forall|status: StatusKind| #[trigger] has_status(rs, rs[i].id, status) <==> rs[i].status
        == status by {
        if has_status(rs, rs[i].id, status) {
            let k = choose|k: int|
                0 <= k < rs.len() && #[trigger] rs[k].id == rs[i].id && rs[k].status == status;
            assert(rs[k].id == rs[i].id);
        }
    }
}

/// Resumes a paused task: to `Waiting` where it still waits for a parent,
/// otherwise to `Pending`.
pub fn resume_task(tasks: &mut Vec<Task>, task_id: u128, now: i64) -> (r: Result<(), ArcRunError>)
    requires
        unique_ids(rows(old(tasks)@)),
    ensures
        rows(final(tasks)@) == rows(old(tasks)@).map_values(resumed_row(task_id, now as int)),
        r is Ok <==> has_status(rows(old(tasks)@), task_id, StatusKind::Paused),
        r matches Err(e) ==> refusal(rows(old(tasks)@), task_id, "resume"@, "Paused"@, e@),
{
    let ghost rs = rows(tasks@);
    let ghost step = resumed_row(task_id, now as int);
    if let Some(i) = find_task(tasks, task_id) {
        assert(rs[i as int] == tasks@[i as int]@);
        proof {
            lemma_touch_one(rs, i as int, step);
            lemma_only_status(rs, i as int);
        }
        if tasks[i].status == StatusKind::Paused {
            tasks[i].status = if tasks[i].wait_finished > 0 || tasks[i].wait_success > 0 {
                StatusKind::Waiting
            } else {
                StatusKind::Pending
            };
            tasks[i].last_updated = now;
            assert(rows(tasks@) =~= rs.update(i as int, step(rs[i as int])));
            return Ok(());
        }
        assert(rs.update(i as int, step(rs[i as int])) =~= rs);
    } else {
        assert(rs.map_values(step) =~= rs) by {
            assert forall|k: int| 0 <= k < rs.len() implies step(rs[k]) == rs[k] by {
                assert(rs[k].id != task_id);
            }
        }
    }
    Err(refuse_transition(tasks, task_id, "resume", "Paused"))
}

// ---------------------------------------------------------------------------
// Actions
// ---------------------------------------------------------------------------

/// An action row to insert.
pub open spec fn action_row(
    task: u128,
    dto: NewActionDto,
    trigger: TriggerKind,
    condition: TriggerCondition,
) -> Action {
    Action {
        id: None,
        task_id: task,
        kind: dto.kind,
        params: dto.params,
        trigger,
        condition,
        success: None,
    }
}

/// The action rows of a list of actions.
pub open spec fn action_rows(
    task: u128,
    dtos: Seq<NewActionDto>,
    trigger: TriggerKind,
    condition: TriggerCondition,
) -> Seq<Action> {
    dtos.map_values(|d: NewActionDto| action_row(task, d, trigger, condition))
}

/// Registers actions of a task.
pub fn insert_actions(
    actions: &mut Vec<Action>,
    task_id: u128,
    dtos: &Vec<NewActionDto>,
    trigger: TriggerKind,
    condition: TriggerCondition,
)
    ensures
        final(actions)@ == old(actions)@ + action_rows(task_id, dtos@, trigger, condition),
{
    let ghost before = actions@;
    let ghost new = action_rows(task_id, dtos@, trigger, condition);
    let mut i: usize = 0;
    while i < dtos.len()
        invariant
            i <= dtos.len(),
            new == action_rows(task_id, dtos@, trigger, condition),
            actions@ =~= before + new.take(i as int),
        decreases dtos.len() - i,
    {
        let row: Action = Action {
            id: None,
            task_id,
            kind: dtos[i].kind,
            params: dtos[i].params.clone(),
            trigger,
            condition,
            success: None,
        };
        assert(new[i as int] == row);
        actions.push(row);
        i += 1;
    }
    assert(new.take(i as int) =~= new);
}

/// An action that an on_start webhook returned, with the outcome of parsing its
/// parameters.
#[derive(Debug)]
pub struct CancelAction {
    /// The action.
    pub dto: NewActionDto,
    /// Its parameters.
    pub params: Result<WebhookParams, String>,
}

/// The actions whose parameters are accepted.
pub open spec fn accepted(config: SecurityConfig) -> spec_fn(CancelAction) -> bool {
    |a: CancelAction| params_refusal(a.params, config) is None
}

/// Registers the cancel actions that a task's on_start webhook returned. An action
/// whose parameters are refused is skipped; it does not make the others fail.
pub fn save_cancel_actions(
    actions: &mut Vec<Action>,
    task_id: u128,
    cancel_tasks: &Vec<CancelAction>,
    config: &SecurityConfig,
)
    ensures
        final(actions)@ == old(actions)@ + action_rows(
            task_id,
            cancel_tasks@.filter(accepted(*config)).map_values(|a: CancelAction| a.dto),
            TriggerKind::Cancel,
            TriggerCondition::Success,
        ),
{
    let ghost p = accepted(*config);
    let ghost f = |a: CancelAction| a.dto;
    let mut valid: Vec<NewActionDto> = Vec::new();
    let mut i: usize = 0;
    proof {
        reveal(Seq::filter);
        assert(valid@ =~= cancel_tasks@.take(0).filter(p).map_values(f));
    }
    while i < cancel_tasks.len()
        invariant
            i <= cancel_tasks.len(),
            p == accepted(*config),
            f == (|a: CancelAction| a.dto),
            valid@ =~= cancel_tasks@.take(i as int).filter(p).map_values(f),
        decreases cancel_tasks.len() - i,
    {
        proof {
            lemma_filter_take(cancel_tasks@, p, i as int);
        }
        if validate_action_params(&cancel_tasks[i].params, config).is_ok() {
            valid.push(cancel_tasks[i].dto.clone());
        }
        i += 1;
    }
    assert(cancel_tasks@.take(i as int) =~= cancel_tasks@);
    insert_actions(
        actions,
        task_id,
        &valid,
        TriggerKind::Cancel,
        TriggerCondition::Success,
    );
}

// ---------------------------------------------------------------------------
// Stopping a batch
// ---------------------------------------------------------------------------

/// Result of stopping a batch: how many tasks were canceled per former status.
#[derive(Debug)]
pub struct StopBatchResult {
    /// Formerly waiting.
    pub canceled_waiting: i64,
    /// Formerly pending.
    pub canceled_pending: i64,
    /// Formerly claimed.
    pub canceled_claimed: i64,
    /// The formerly running tasks.
    pub canceled_running_ids: Vec<u128>,
    /// Formerly paused.
    pub canceled_paused: i64,
    /// Terminal before.
    pub already_terminal: i64,
    /// Batch completions enqueued.
    pub batches_completed: usize,
}

/// The tasks of `batch` in `status`.
pub open spec fn batch_tasks_in(batch: u128, status: StatusKind) -> spec_fn(TaskRow) -> bool {
    |r: TaskRow| r.batch_id == Some(batch) && r.status == status
}

/// The tasks of `batch`.
pub open spec fn batch_tasks(batch: u128) -> spec_fn(TaskRow) -> bool {
    |r: TaskRow| r.batch_id == Some(batch)
}

/// The terminal tasks of `batch`.
pub open spec fn batch_terminal(batch: u128) -> spec_fn(TaskRow) -> bool {
    |r: TaskRow| r.batch_id == Some(batch) && r.status.terminal()
}

/// The tasks of `batch` that are not terminal.
pub open spec fn batch_live(batch: u128) -> spec_fn(TaskRow) -> bool {
    |r: TaskRow| r.batch_id == Some(batch) && !r.status.terminal()
}

/// A task of a stopped batch.
pub open spec fn stopped_row(batch: u128, now: int) -> spec_fn(TaskRow) -> TaskRow {
    |r: TaskRow|
        if batch_live(batch)(r) {
            canceled_row(r, "Batch stopped"@, now)
        } else {
            r
        }
}

/// The message for a batch without tasks.
pub open spec fn no_batch_message(batch: u128) -> Seq<char> {
    "No tasks found for batch "@ + uuid_text(batch)
}

/// The active tasks of a batch, which get a cancel notification: the running
/// ones, then the claimed ones.
pub open spec fn stop_notified(tasks: Seq<TaskRow>, batch: u128) -> Seq<u128> {
    ids_where(tasks, batch_tasks_in(batch, StatusKind::Running)) + ids_where(
        tasks,
        batch_tasks_in(batch, StatusKind::Claimed),
    )
}

/// The tables after a batch was stopped: its live tasks are canceled and release
/// their slots, the active ones are notified, and the batch is complete.
pub open spec fn after_stop(s: Tables, batch: u128, now: int) -> Tables {
    let ids = ids_where(s.tasks, batch_live(batch));
    let canceled = s.tasks.map_values(stopped_row(batch, now));
    let told = with_cancels(s.outbox, s.ledger, stop_notified(s.tasks, batch), now);
    Tables {
        tasks: canceled.map_values(released_row(ids)),
        slots: s.slots.map_values(released_slot(canceled, ids)),
        batches: s.batches.map_values(with_remaining(batch, 0)),
        outbox: signalled(told, s.ledger, s.batches, registered_batch(batch), now),
        ..s
    }
}

/// Stops a batch: cancels all its tasks that are not terminal, in one
/// transaction. Links join tasks of one batch, so nothing is propagated. Refused
/// where the batch has no tasks.
pub fn stop_batch(store: &mut Store, batch_id: u128, now: i64) -> (r: Result<
    StopBatchResult,
    ArcRunError,
>)
    requires
        old(store)@.wf(),
        old(store).tasks@.len() <= i64::MAX,
    ensures
        ({
            let s = old(store)@;
            match r {
                Err(e) => {
                    &&& count(s.tasks, batch_tasks(batch_id)) == 0
                    &&& e@ == ErrorView::NotFound(no_batch_message(batch_id))
                    &&& final(store)@ == s
                },
                Ok(x) => {
                    &&& count(s.tasks, batch_tasks(batch_id)) > 0
                    &&& final(store)@ == after_stop(s, batch_id, now as int)
                    &&& x.canceled_waiting == count(
                        s.tasks,
                        batch_tasks_in(batch_id, StatusKind::Waiting),
                    )
                    &&& x.canceled_pending == count(
                        s.tasks,
                        batch_tasks_in(batch_id, StatusKind::Pending),
                    )
                    &&& x.canceled_claimed == count(
                        s.tasks,
                        batch_tasks_in(batch_id, StatusKind::Claimed),
                    )
                    &&& x.canceled_running_ids@ == ids_where(
                        s.tasks,
                        batch_tasks_in(batch_id, StatusKind::Running),
                    )
                    &&& x.canceled_paused == count(
                        s.tasks,
                        batch_tasks_in(batch_id, StatusKind::Paused),
                    )
                    &&& x.already_terminal == count(s.tasks, batch_terminal(batch_id))
                    &&& x.batches_completed == final(store)@.outbox.len() - with_cancels(
                        s.outbox,
                        s.ledger,
                        stop_notified(s.tasks, batch_id),
                        now as int,
                    ).len()
                },
            }
        }),
{
    let ghost s = store@;
    let ghost before = store.tasks@;
    let ghost step = stopped_row(batch_id, now as int);
    let mut total: i64 = 0;
    let mut waiting: i64 = 0;
    let mut pending: i64 = 0;
    let mut claimed: i64 = 0;
    let mut paused: i64 = 0;
    let mut terminal: i64 = 0;
    let mut running_ids: Vec<u128> = Vec::new();
    let mut claimed_ids: Vec<u128> = Vec::new();
    let mut live_ids: Vec<u128> = Vec::new();
    let mut i: usize = 0;
    proof {
        lemma_ids_where_none(s.tasks, batch_tasks_in(batch_id, StatusKind::Running));
        lemma_ids_where_none(s.tasks, batch_tasks_in(batch_id, StatusKind::Claimed));
        lemma_ids_where_none(s.tasks, batch_live(batch_id));
    }
    while i < store.tasks.len()
        invariant
            i <= store.tasks.len(),
            store.tasks@.len() == before.len(),
            before.len() <= i64::MAX,
            s.tasks == rows(before),
            store@ == (Tables { tasks: rows(store.tasks@), ..s }),
            step == stopped_row(batch_id, now as int),
            forall|k: int| 0 <= k < i ==> (#[trigger] store.tasks@[k])@ == step(before[k]@),
            forall|k: int| i <= k < before.len() ==> (#[trigger] store.tasks@[k]) == before[k],
            total == count(s.tasks.take(i as int), batch_tasks(batch_id)),
            waiting == count(
                s.tasks.take(i as int),
                batch_tasks_in(batch_id, StatusKind::Waiting),
            ),
            pending == count(
                s.tasks.take(i as int),
                batch_tasks_in(batch_id, StatusKind::Pending),
            ),
            claimed == count(
                s.tasks.take(i as int),
                batch_tasks_in(batch_id, StatusKind::Claimed),
            ),
            paused == count(s.tasks.take(i as int), batch_tasks_in(batch_id, StatusKind::Paused)),
            terminal == count(s.tasks.take(i as int), batch_terminal(batch_id)),
            total <= i,
            waiting <= i,
            pending <= i,
            claimed <= i,
            paused <= i,
            terminal <= i,
            running_ids@ == ids_where(
                s.tasks.take(i as int),
                batch_tasks_in(batch_id, StatusKind::Running),
            ),
            claimed_ids@ == ids_where(
                s.tasks.take(i as int),
                batch_tasks_in(batch_id, StatusKind::Claimed),
            ),
            live_ids@ == ids_where(s.tasks.take(i as int), batch_live(batch_id)),
        decreases store.tasks.len() - i,
    {
        proof {
            let k = i as int;
            lemma_count_take(s.tasks, batch_tasks(batch_id), k);
            lemma_count_take(s.tasks, batch_tasks_in(batch_id, StatusKind::Waiting), k);
            lemma_count_take(s.tasks, batch_tasks_in(batch_id, StatusKind::Pending), k);
            lemma_count_take(s.tasks, batch_tasks_in(batch_id, StatusKind::Claimed), k);
            lemma_count_take(s.tasks, batch_tasks_in(batch_id, StatusKind::Paused), k);
            lemma_count_take(s.tasks, batch_terminal(batch_id), k);
            lemma_ids_where_take(s.tasks, batch_tasks_in(batch_id, StatusKind::Running), k);
            lemma_ids_where_take(s.tasks, batch_tasks_in(batch_id, StatusKind::Claimed), k);
            lemma_ids_where_take(s.tasks, batch_live(batch_id), k);
            assert(store.tasks@[k] == before[k]);
            assert(s.tasks[k] == before[k]@);
        }
        let mine: bool = match store.tasks[i].batch_id {
            Some(b) => b == batch_id,
            None => false,
        };
        if mine {
            total += 1;
            let id: u128 = store.tasks[i].id;
            let status: StatusKind = store.tasks[i].status;
            match status {
                StatusKind::Waiting => {
                    waiting += 1;
                },
                StatusKind::Pending => {
                    pending += 1;
                },
                StatusKind::Claimed => {
                    claimed += 1;
                    claimed_ids.push(id);
                },
                StatusKind::Running => {
                    running_ids.push(id);
                },
                StatusKind::Paused => {
                    paused += 1;
                },
                _ => {
                    terminal += 1;
                },
            }
            if !status.is_terminal() {
                live_ids.push(id);
                cancel_row(&mut store.tasks[i], "Batch stopped", now);
            }
        }
        i += 1;
    }
    proof {
        assert(s.tasks.take(i as int) =~= s.tasks);
        assert(rows(store.tasks@) =~= s.tasks.map_values(step));
    }
    if total == 0 {
        proof {
            crate::tally::lemma_count_zero(s.tasks, batch_tasks(batch_id));
            assert forall|k: int| 0 <= k < s.tasks.len() implies step(s.tasks[k])
                == s.tasks[k] by {
                assert(!batch_tasks(batch_id)(s.tasks[k]));
            }
            assert(s.tasks.map_values(step) =~= s.tasks);
        }
        return Err(
            ArcRunError::NotFound {
                message: "No tasks found for batch ".to_string().concat(
                    uuid_to_string(batch_id).as_str(),
                ),
            },
        );
    }
    proof {
        lemma_step_keeps_wf(s, store@);
    }
    let mut notified: Vec<u128> = crate::workers::propagation::clone_ids(&running_ids);
    crate::workers::propagation::push_all(&mut notified, &claimed_ids);
    enqueue_cancels(&mut store.outbox, &store.ledger, &notified, now);
    assert(store@.outbox.len() == store.outbox@.len());
    release_slots_for_tasks(&mut store.tasks, &mut store.slots, &live_ids);
    let batches_completed: usize = zero_batch_remaining_and_complete(
        &mut store.batches,
        &mut store.outbox,
        &store.ledger,
        batch_id,
        now,
    );
    assert(store@.outbox.len() == store.outbox@.len());
    Ok(
        StopBatchResult {
            canceled_waiting: waiting,
            canceled_pending: pending,
            canceled_claimed: claimed,
            canceled_running_ids: running_ids,
            canceled_paused: paused,
            already_terminal: terminal,
            batches_completed,
        },
    )
}

} // verus!
