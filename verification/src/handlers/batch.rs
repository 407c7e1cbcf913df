//! Requests on a batch.

use crate::db::batch_listing::{ruled_row, unstarted};
use crate::db::task_lifecycle::{
    after_stop, batch_live, batch_tasks, batch_tasks_in, batch_terminal, no_batch_message,
};
use crate::error::{ArcRunError, ErrorView};
use crate::handlers::{error_answer, error_reply, invalid_answer, invalid_reply, Reply};
use crate::metrics::{record_tasks_cancelled, Metrics};
use crate::models::{rows, texts, Rules, StatusKind, Task, TaskRow};
use crate::store::Store;
use crate::tally::{count, lemma_count_len, lemma_ids_where_len};
use crate::text::{trim, trimmed};
use vstd::prelude::*;

verus! {

/// How many tasks of a stopped batch were canceled, per former status.
#[derive(Clone, Copy, Debug, PartialEq, Eq, Structural)]
pub struct StopBatchResponseDto {
    /// The batch.
    pub batch_id: u128,
    /// Formerly waiting.
    pub canceled_waiting: i64,
    /// Formerly pending.
    pub canceled_pending: i64,
    /// Formerly claimed.
    pub canceled_claimed: i64,
    /// Formerly running.
    pub canceled_running: i64,
    /// Formerly paused.
    pub canceled_paused: i64,
    /// Terminal before.
    pub already_terminal: i64,
}

/// The tasks canceled in all.
pub open spec fn total_canceled(d: StopBatchResponseDto) -> int {
    d.canceled_waiting + d.canceled_pending + d.canceled_claimed + d.canceled_running
        + d.canceled_paused
}

/// The live tasks of a batch, by status.
proof fn lemma_live_by_status(tasks: Seq<TaskRow>, batch: u128)
    ensures
        count(tasks, batch_live(batch)) == count(
            tasks,
            batch_tasks_in(batch, StatusKind::Waiting),
        ) + count(tasks, batch_tasks_in(batch, StatusKind::Pending)) + count(
            tasks,
            batch_tasks_in(batch, StatusKind::Claimed),
        ) + count(tasks, batch_tasks_in(batch, StatusKind::Running)) + count(
            tasks,
            batch_tasks_in(batch, StatusKind::Paused),
        ),
    decreases tasks.len(),
{
    if tasks.len() > 0 {
        lemma_live_by_status(tasks.drop_last(), batch);
    }
}

/// Stops a batch and counts its canceled tasks: every live task of it.
pub fn stop_batch(store: &mut Store, metrics: &mut Metrics, batch_id: u128, now: i64) -> (r: Result<
    StopBatchResponseDto,
    ArcRunError,
>)
    requires
        old(store)@.wf(),
        old(store).tasks@.len() <= i64::MAX,
    ensures
        ({
            let s = old(store)@;
            match r {
                Err(e) => {
                    &&& count(s.tasks, batch_tasks(batch_id)) == 0
                    &&& e@ == ErrorView::NotFound(no_batch_message(batch_id))
                    &&& final(store)@ == s
                    &&& *final(metrics) == *old(metrics)
                },
                Ok(d) => {
                    &&& count(s.tasks, batch_tasks(batch_id)) > 0
                    &&& final(store)@ == after_stop(s, batch_id, now as int)
                    &&& d.batch_id == batch_id
                    &&& d.canceled_waiting == count(
                        s.tasks,
                        batch_tasks_in(batch_id, StatusKind::Waiting),
                    )
                    &&& d.canceled_pending == count(
                        s.tasks,
                        batch_tasks_in(batch_id, StatusKind::Pending),
                    )
                    &&& d.canceled_claimed == count(
                        s.tasks,
                        batch_tasks_in(batch_id, StatusKind::Claimed),
                    )
                    &&& d.canceled_running == count(
                        s.tasks,
                        batch_tasks_in(batch_id, StatusKind::Running),
                    )
                    &&& d.canceled_paused == count(
                        s.tasks,
                        batch_tasks_in(batch_id, StatusKind::Paused),
                    )
                    &&& d.already_terminal == count(s.tasks, batch_terminal(batch_id))
                    &&& total_canceled(d) == count(s.tasks, batch_live(batch_id))
                    &&& crate::metrics::counter_value(final(metrics).tasks_cancelled_total)
                        == crate::metrics::counter_value(
                        old(metrics).tasks_cancelled_total,
                    ).wrapping_add(total_canceled(d) as u64)
                    &&& *final(metrics) == (Metrics {
                        tasks_cancelled_total: final(metrics).tasks_cancelled_total,
                        ..*old(metrics)
                    })
                },
            }
        }),
{
    let ghost s = store@;
    proof {
        assert(s.tasks.len() == store.tasks@.len());
        lemma_live_by_status(s.tasks, batch_id);
        lemma_count_len(s.tasks, batch_live(batch_id));
        lemma_ids_where_len(s.tasks, batch_tasks_in(batch_id, StatusKind::Running));
    }
    match crate::db::task_lifecycle::stop_batch(store, batch_id, now) {
        Err(e) => Err(e),
        Ok(x) => {
            let canceled_running: i64 = x.canceled_running_ids.len() as i64;
            let total: i64 = x.canceled_waiting + x.canceled_pending + x.canceled_claimed
                + canceled_running + x.canceled_paused;
            record_tasks_cancelled(metrics, total as u64);
            Ok(
                StopBatchResponseDto {
                    batch_id,
                    canceled_waiting: x.canceled_waiting,
                    canceled_pending: x.canceled_pending,
                    canceled_claimed: x.canceled_claimed,
                    canceled_running,
                    canceled_paused: x.canceled_paused,
                    already_terminal: x.already_terminal,
                },
            )
        },
    }
}

/// The message for a change of rules without a kind.
pub open spec fn no_kind() -> Seq<char> {
    "kind: Task kind cannot be empty"@
}

/// Why a change of rules is refused before it is tried, if it is: it has no kind, or the
/// rules did not pass their checks.
pub open spec fn rules_refusal(kind: Seq<char>, checked: Result<(), Vec<String>>) -> Option<
    Seq<Seq<char>>,
> {
    if trimmed(kind).len() == 0 {
        Some(seq![no_kind()])
    } else {
        match checked {
            Err(details) => Some(texts(details@)),
            Ok(_) => None,
        }
    }
}

/// Checks a change of rules before it is tried, given the outcome of checking the rules
/// themselves.
pub fn check_rules_request(kind: &str, checked: Result<(), Vec<String>>) -> (r: Result<(), Reply>)
    ensures
        match rules_refusal(kind@, checked) {
            Some(details) => r matches Err(e) && e@ == invalid_answer(None, details),
            None => r is Ok,
        },
{
    if trim(kind).unicode_len() == 0 {
        let mut details: Vec<String> = Vec::new();
        details.push("kind: Task kind cannot be empty".to_string());
        assert(texts(details@) =~= seq![no_kind()]);
        return Err(invalid_reply(None, details));
    }
    match checked {
        Err(details) => Err(invalid_reply(None, details)),
        Ok(()) => Ok(()),
    }
}

/// Replaces the rules of a kind of tasks in a batch. Refused without a kind, where the
/// rules did not pass their checks, and where the batch has no tasks.
pub fn update_batch_rules(
    tasks: &mut Vec<Task>,
    batch_id: u128,
    kind: &str,
    rules: &Rules,
    checked: Result<(), Vec<String>>,
) -> (r: Result<usize, Reply>)
    ensures
        ({
            let before = rows(old(tasks)@);
            if let Some(details) = rules_refusal(kind@, checked) {
                &&& r matches Err(e) && e@ == invalid_answer(None, details)
                &&& rows(final(tasks)@) == before
            } else if count(before, batch_tasks(batch_id)) == 0 {
                &&& r matches Err(e) && e@ == error_answer(
                    ErrorView::NotFound(no_batch_message(batch_id)),
                )
                &&& rows(final(tasks)@) == before
            } else {
                &&& r matches Ok(n) && n == count(before, unstarted(batch_id, kind@))
                &&& rows(final(tasks)@) == before.map_values(
                    ruled_row(batch_id, kind@, rules@),
                )
            }
        }),
{
    if let Err(refusal) = check_rules_request(kind, checked) {
        return Err(refusal);
    }
    match crate::db::batch_listing::update_batch_rules(tasks, batch_id, kind, rules) {
        Ok(n) => Ok(n),
        Err(e) => Err(error_reply(&e)),
    }
}

} // verus!
