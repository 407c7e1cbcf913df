//! Requests on one task.

use crate::db::task_crud::has_status;
use crate::db::task_lifecycle::{
    after_update, counts_fit, find_task, is_task, not_found_message, or_else, paused_row, refusal,
    resumed_row, update_result, update_running_task, UpdateTaskResult,
};
use crate::dtos::{UpdateTaskDto, UpdateView};
use crate::error::{ArcRunError, ErrorView};
use crate::handlers::{
    error_answer, error_reply, invalid_answer, invalid_reply, no_nudges, Body, BodyText, Nudges,
    Reply, ReplyView,
};
use crate::models::{rows, texts, StatusKind, Task};
use crate::store::{Store, Tables};
use crate::workers::batch_updater::UpdateEvent;
use crate::workers::cancel::{cancel_notice, cancel_task_row, cannot_cancel_message};
use crate::workers::finish::finished;
use crate::workers::propagation::unique_ids;
use vstd::prelude::*;

verus! {

// ---------------------------------------------------------------------------
// Updates
// ---------------------------------------------------------------------------

/// Why an update is refused before it is tried, if it is: only `Success` and
/// `Failure` can be asked for, and a failure comes with its reason.
pub open spec fn update_refusal(dto: UpdateView) -> Option<Seq<char>> {
    match dto.status {
        None => None,
        Some(StatusKind::Success) => None,
        Some(StatusKind::Failure) => if dto.failure_reason is None {
            Some("failure_reason: required when status is Failure"@)
        } else {
            None
        },
        Some(_) => Some("status: only Success and Failure can be set"@),
    }
}

/// Checks an update before it is tried.
pub fn validate_update_task(dto: &UpdateTaskDto) -> (r: Result<(), String>)
    ensures
        match update_refusal(dto@) {
            None => r is Ok,
            Some(m) => r matches Err(e) && e@ == m,
        },
{
    match dto.status {
        None => Ok(()),
        Some(StatusKind::Success) => Ok(()),
        Some(StatusKind::Failure) => if dto.failure_reason.is_none() {
            Err("failure_reason: required when status is Failure".to_string())
        } else {
            Ok(())
        },
        Some(_) => Err("status: only Success and Failure can be set".to_string()),
    }
}

/// What an update of a task is answered. Only a real transition gives work to the
/// loops; asking again for a status that the task holds is no error.
pub open spec fn update_answer(r: UpdateTaskResult) -> ReplyView {
    match r {
        UpdateTaskResult::Updated => ReplyView {
            status: 200,
            body: BodyText::Text("Task updated successfully"@),
            nudges: Nudges { start: true, delivery: true },
        },
        UpdateTaskResult::AlreadyInRequestedState => ReplyView {
            status: 200,
            body: BodyText::Text("Task already in the requested state (idempotent no-op)"@),
            nudges: no_nudges(),
        },
        UpdateTaskResult::NotFound => ReplyView {
            status: 404,
            body: BodyText::Error("Task not found"@, None),
            nudges: no_nudges(),
        },
        UpdateTaskResult::Conflict(current) => ReplyView {
            status: 409,
            body: BodyText::Error("Task is not in a Running state"@, Some(current)),
            nudges: no_nudges(),
        },
    }
}

/// Answers an update.
pub fn update_reply(r: UpdateTaskResult) -> (reply: Reply)
    ensures
        reply@ == update_answer(r),
{
    match r {
        UpdateTaskResult::Updated => Reply {
            status: 200,
            body: Body::Text("Task updated successfully".to_string()),
            nudges: Nudges { start: true, delivery: true },
        },
        UpdateTaskResult::AlreadyInRequestedState => Reply {
            status: 200,
            body: Body::Text(
                "Task already in the requested state (idempotent no-op)".to_string(),
            ),
            nudges: Nudges { start: false, delivery: false },
        },
        UpdateTaskResult::NotFound => Reply {
            status: 404,
            body: Body::Error { error: "Task not found".to_string(), current_status: None },
            nudges: Nudges { start: false, delivery: false },
        },
        UpdateTaskResult::Conflict(current) => Reply {
            status: 409,
            body: Body::Error {
                error: "Task is not in a Running state".to_string(),
                current_status: Some(current),
            },
            nudges: Nudges { start: false, delivery: false },
        },
    }
}

/// The given count, or zero.
fn or_zero(o: Option<i32>) -> (r: i32)
    ensures
        r == or_else(crate::models::opt_int_i32(o), 0),
{
    match o {
        Some(n) => n,
        None => 0,
    }
}

/// Whether the counts of a task leave room for an update.
fn has_room(tasks: &Vec<Task>, id: u128, dto: &UpdateTaskDto) -> (r: bool)
    requires
        unique_ids(rows(tasks@)),
    ensures
        r == counts_fit(rows(tasks@), id, dto@),
{
    let ghost rs = rows(tasks@);
    match find_task(tasks, id) {
        None => {
            assert forall|i: int| 0 <= i < rs.len() implies (#[trigger] rs[i]).id != id by {}
            true
        },
        Some(i) => {
            assert(rs[i as int] == tasks@[i as int]@);
            assert forall|k: int| 0 <= k < rs.len() && (#[trigger] rs[k]).id == id implies k
                == i by {
                assert(rs[k].id == rs[i as int].id);
            }
            let s: i64 = tasks[i].success as i64 + or_zero(dto.new_success) as i64;
            let f: i64 = tasks[i].failures as i64 + or_zero(dto.new_failures) as i64;
            let low: i64 = i32::MIN as i64;
            let high: i64 = i32::MAX as i64;
            !tasks[i].status.is_active() || (low <= s && s <= high && low <= f && f <= high)
        },
    }
}

/// The message for counts that do not fit their column.
pub open spec fn out_of_range() -> Seq<char> {
    "integer out of range"@
}

/// Updates a running task. A refused update and one whose counts do not fit change
/// nothing.
pub fn update_task(
    store: &mut Store,
    task_id: u128,
    dto: UpdateTaskDto,
    dead_end_enabled: bool,
    now: i64,
) -> (r: Reply)
    requires
        old(store)@.wf(),
    ensures
        ({
            let s = old(store)@;
            match update_refusal(dto@) {
                Some(m) => {
                    &&& final(store)@ == s
                    &&& r@ == invalid_answer(None, seq![m])
                },
                None => if !counts_fit(s.tasks, task_id, dto@) {
                    &&& final(store)@ == s
                    &&& r@ == error_answer(ErrorView::Internal(out_of_range()))
                } else {
                    &&& final(store)@ == after_update(
                        s,
                        task_id,
                        dto@,
                        dead_end_enabled,
                        now as int,
                    )
                    &&& exists|x: UpdateTaskResult| #[trigger]
                        update_result(s.tasks, task_id, dto.status, x) && r@ == update_answer(x)
                },
            }
        }),
{
    if let Err(e) = validate_update_task(&dto) {
        let mut details: Vec<String> = Vec::new();
        details.push(e);
        assert(texts(details@) =~= seq![e@]);
        return invalid_reply(None, details);
    }
    if !has_room(&store.tasks, task_id, &dto) {
        return error_reply(&ArcRunError::Internal("integer out of range".to_string()));
    }
    let x: UpdateTaskResult = update_running_task(store, task_id, dto, dead_end_enabled, now);
    update_reply(x)
}

// ---------------------------------------------------------------------------
// Counts
// ---------------------------------------------------------------------------

/// The message for a report without counts.
pub open spec fn no_counts() -> Seq<char> {
    "At least one of new_success or new_failures must be non-zero"@
}

/// The answer to a report without counts.
pub open spec fn no_counts_answer() -> ReplyView {
    ReplyView { status: 400, body: BodyText::Text(no_counts()), nudges: no_nudges() }
}

/// The counts that a report adds to a task. A report that did not pass its checks is
/// refused, and so is one without counts.
pub fn batch_task_updater(
    task_id: u128,
    dto: &UpdateTaskDto,
    checked: Result<(), Vec<String>>,
) -> (r: Result<UpdateEvent, Reply>)
    ensures
        ({
            let success = or_else(dto@.new_success, 0);
            let failures = or_else(dto@.new_failures, 0);
            if let Err(details) = checked {
                r matches Err(e) && e@ == invalid_answer(None, texts(details@))
            } else if success == 0 && failures == 0 {
                r matches Err(e) && e@ == no_counts_answer()
            } else {
                r matches Ok(evt) && evt.task_id == task_id && evt.success == success
                    && evt.failures == failures
            }
        }),
{
    if let Err(details) = checked {
        return Err(invalid_reply(None, details));
    }
    let success: i32 = or_zero(dto.new_success);
    let failures: i32 = or_zero(dto.new_failures);
    if success == 0 && failures == 0 {
        Err(
            Reply {
                status: 400,
                body: Body::Text(
                    "At least one of new_success or new_failures must be non-zero".to_string(),
                ),
                nudges: Nudges { start: false, delivery: false },
            },
        )
    } else {
        Ok(UpdateEvent { success, failures, task_id })
    }
}

// ---------------------------------------------------------------------------
// Cancel, pause, resume
// ---------------------------------------------------------------------------

/// The answer to an operation that succeeded.
pub open spec fn done(start: bool, delivery: bool) -> ReplyView {
    ReplyView { status: 200, body: BodyText::Empty, nudges: Nudges { start, delivery } }
}

fn done_reply(start: bool, delivery: bool) -> (r: Reply)
    ensures
        r@ == done(start, delivery),
{
    Reply { status: 200, body: Body::Empty, nudges: Nudges { start, delivery } }
}

/// Cancels a task that is not terminal. Both loops may have work then.
pub fn cancel_task(store: &mut Store, task_id: u128, dead_end_enabled: bool, now: i64) -> (r: Reply)
    requires
        old(store)@.wf(),
    ensures
        ({
            let s = old(store)@;
            if !is_task(s.tasks, task_id) {
                &&& r@ == error_answer(ErrorView::NotFound(not_found_message(task_id)))
                &&& final(store)@ == s
            } else {
                exists|i: int|
                    0 <= i < s.tasks.len() && #[trigger] s.tasks[i].id == task_id
                        && if s.tasks[i].status.terminal() {
                        &&& r@ == error_answer(
                            ErrorView::InvalidState(cannot_cancel_message(s.tasks[i].status)),
                        )
                        &&& final(store)@ == s
                    } else {
                        &&& r@ == done(true, true)
                        &&& final(store)@ == finished(
                            (Tables {
                                tasks: s.tasks.map_values(cancel_task_row(task_id, now as int)),
                                ..s
                            }),
                            task_id,
                            StatusKind::Canceled,
                            dead_end_enabled,
                            cancel_notice(s.tasks[i].status),
                            now as int,
                        )
                    }
            }
        }),
{
    match crate::workers::cancel::cancel_task(store, task_id, dead_end_enabled, now) {
        Ok(_) => done_reply(true, true),
        Err(e) => error_reply(&e),
    }
}

/// Pauses a task that has not started.
pub fn pause_task(tasks: &mut Vec<Task>, task_id: u128, now: i64) -> (r: Reply)
    requires
        unique_ids(rows(old(tasks)@)),
    ensures
        rows(final(tasks)@) == rows(old(tasks)@).map_values(paused_row(task_id, now as int)),
        if has_status(rows(old(tasks)@), task_id, StatusKind::Pending) || has_status(
            rows(old(tasks)@),
            task_id,
            StatusKind::Waiting,
        ) {
            r@ == done(false, false)
        } else {
            exists|e: ErrorView| #[trigger]
                refusal(rows(old(tasks)@), task_id, "pause"@, "Pending or Waiting"@, e) && r@
                    == error_answer(e)
        },
{
    match crate::db::task_lifecycle::pause_task(tasks, task_id, now) {
        Ok(_) => done_reply(false, false),
        Err(e) => error_reply(&e),
    }
}

/// Resumes a paused task. The start loop may have work then.
pub fn resume_task(tasks: &mut Vec<Task>, task_id: u128, now: i64) -> (r: Reply)
    requires
        unique_ids(rows(old(tasks)@)),
    ensures
        rows(final(tasks)@) == rows(old(tasks)@).map_values(resumed_row(task_id, now as int)),
        if has_status(rows(old(tasks)@), task_id, StatusKind::Paused) {
            r@ == done(true, false)
        } else {
            exists|e: ErrorView| #[trigger]
                refusal(rows(old(tasks)@), task_id, "resume"@, "Paused"@, e) && r@ == error_answer(
                    e,
                )
        },
{
    match crate::db::task_lifecycle::resume_task(tasks, task_id, now) {
        Ok(_) => done_reply(true, false),
        Err(e) => error_reply(&e),
    }
}

} // verus!
