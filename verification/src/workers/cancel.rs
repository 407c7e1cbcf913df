//! Canceling one task.

use crate::db::task_lifecycle::{
    find_task, is_task, lemma_step_keeps_wf, lemma_touch_one, not_found_message, task_not_found,
};
use crate::error::{ArcRunError, ErrorView};
use crate::models::{rows, StatusKind, TaskRow};
use crate::store::{Store, Tables};
use crate::workers::finish::{finish_task, finished, reported, Finish, Notice};
use vstd::prelude::*;

verus! {

/// The canceled task.
pub open spec fn cancel_task_row(id: u128, now: int) -> spec_fn(TaskRow) -> TaskRow {
    |r: TaskRow|
        if r.id == id {
            TaskRow {
                status: StatusKind::Canceled,
                ended_at: Some(now),
                last_updated: now,
                ..r
            }
        } else {
            r
        }
}

/// The message for a task that cannot be canceled.
pub open spec fn cannot_cancel_message(status: StatusKind) -> Seq<char> {
    "Cannot cancel task in "@ + status.name()
        + " state (only Pending, Waiting, Paused, Claimed, or Running tasks can be canceled)"@
}

/// The notification of a canceled task: none where its on_start webhook cannot
/// have run.
pub open spec fn cancel_notice(status: StatusKind) -> Notice {
    if status.active() {
        Notice::Cancel
    } else {
        Notice::Silent
    }
}

/// Cancels a task that is not terminal and carries out the consequences, in one
/// transaction. The cancellation is propagated like a failure. The task itself is
/// notified only where it was claimed or running.
pub fn cancel_task(store: &mut Store, task_id: u128, dead_end_enabled: bool, now: i64) -> (r: Result<
    Finish,
    ArcRunError,
>)
    requires
        old(store)@.wf(),
    ensures
        ({
            let s = old(store)@;
            if !is_task(s.tasks, task_id) {
                &&& r matches Err(e) && e@ == ErrorView::NotFound(not_found_message(task_id))
                &&& final(store)@ == s
            } else {
                exists|i: int|
                    0 <= i < s.tasks.len() && #[trigger] s.tasks[i].id == task_id
                        && if s.tasks[i].status.terminal() {
                        &&& r matches Err(e) && e@ == ErrorView::InvalidState(
                            cannot_cancel_message(s.tasks[i].status),
                        )
                        &&& final(store)@ == s
                    } else {
                        &&& r is Ok
                        &&& final(store)@ == finished(
                            (Tables {
                                tasks: s.tasks.map_values(cancel_task_row(task_id, now as int)),
                                ..s
                            }),
                            task_id,
                            StatusKind::Canceled,
                            dead_end_enabled,
                            cancel_notice(s.tasks[i].status),
                            now as int,
                        )
                        &&& reported(
                            (Tables {
                                tasks: s.tasks.map_values(cancel_task_row(task_id, now as int)),
                                ..s
                            }),
                            task_id,
                            StatusKind::Canceled,
                            dead_end_enabled,
                            cancel_notice(s.tasks[i].status),
                            now as int,
                            r->Ok_0,
                        )
                    }
            }
        }),
{
    let ghost s = store@;
    let i: usize = match find_task(&store.tasks, task_id) {
        Some(i) => i,
        None => {
            return Err(task_not_found(task_id));
        },
    };
    assert(s.tasks[i as int] == store.tasks@[i as int]@);
    assert(s.tasks[i as int].id == task_id);
    let status: StatusKind = store.tasks[i].status;
    if status.is_terminal() {
        return Err(
            ArcRunError::InvalidState {
                message: "Cannot cancel task in ".to_string().concat(status.label()).concat(
                    " state (only Pending, Waiting, Paused, Claimed, or Running tasks can be canceled)",
                ),
            },
        );
    }
    store.tasks[i].status = StatusKind::Canceled;
    store.tasks[i].ended_at = Some(now);
    store.tasks[i].last_updated = now;
    let ghost step = cancel_task_row(task_id, now as int);
    proof {
        lemma_touch_one(s.tasks, i as int, step);
        assert(rows(store.tasks@) =~= s.tasks.update(i as int, step(s.tasks[i as int])));
        let t = store@;
        assert(t =~= Tables { tasks: s.tasks.map_values(step), ..s });
        lemma_step_keeps_wf(s, t);
    }
    let notice: Notice = if status.is_active() {
        Notice::Cancel
    } else {
        Notice::Silent
    };
    Ok(finish_task(store, task_id, StatusKind::Canceled, dead_end_enabled, notice, now))
}

} // verus!
