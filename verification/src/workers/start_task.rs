//! From a claimed task to a running one.
//!
//! The preamble claims the start event and loads the actions; the actions are
//! executed without holding a transaction; then the task starts running, or fails,
//! in one more transaction.

use crate::action::{idem_key, idempotency_key};
use crate::config::SecurityConfig;
use crate::db::task_crud::{mark_task_running, running_row, has_status};
use crate::db::task_lifecycle::{
    accepted, action_rows, fail_task_and_propagate, failed_row, find_task, is_active_task, is_task,
    save_cancel_actions, CancelAction,
};
use crate::db::webhook_execution::{
    capped, complete_webhook_execution, completed_row, execution_claim,
    try_claim_webhook_execution, unique_ledger_keys,
};
use crate::models::{
    ledger_rows, rows, Action, LedgerRow, StatusKind, Task, TaskRow, TriggerCondition, TriggerKind,
    WebhookExecution,
};
use crate::store::{Store, Tables};
use crate::tally::lemma_filter_take;
use crate::workers::finish::{finished, Notice};
use vstd::prelude::*;

verus! {

/// What the preamble of a start leads to.
#[derive(Debug)]
pub enum StartPhaseA {
    /// No action has to be executed: the event is taken already, or the task left
    /// `Claimed`.
    Skip {
        /// Idempotency key of the start event.
        idempotency_key: String,
    },
    /// These actions have to be executed.
    Proceed {
        /// Idempotency key of the start event.
        idempotency_key: String,
        /// The task's start actions.
        actions: Vec<Action>,
    },
}

/// The idempotency key of a task's start.
pub open spec fn start_key(task: u128) -> Seq<char> {
    idem_key(task, TriggerKind::Start, TriggerCondition::Success)
}

/// The start actions of a task.
pub open spec fn start_actions(task: u128) -> spec_fn(Action) -> bool {
    |a: Action| a.task_id == task && a.trigger == TriggerKind::Start
}

/// The message for a task that is gone.
pub open spec fn recheck_message() -> Seq<char> {
    "Failed to re-check task status: Record not found"@
}

/// The preamble turns the ledger `before` into `after` and answers `r`. Once the
/// event is claimed the task's status is looked at again: it may have been canceled
/// meanwhile, and then nothing must be started; the event is completed, so that it
/// holds back nothing.
pub open spec fn preamble(
    tasks: Seq<TaskRow>,
    actions: Seq<Action>,
    before: Seq<LedgerRow>,
    after: Seq<LedgerRow>,
    task: u128,
    timeout: Option<int>,
    now: int,
    r: Result<StartPhaseA, String>,
) -> bool {
    exists|mid: Seq<LedgerRow>, proceed: bool|
        {
            &&& #[trigger] execution_claim(
                before,
                mid,
                task,
                TriggerKind::Start,
                TriggerCondition::Success,
                start_key(task),
                timeout,
                now,
                proceed,
            )
            &&& if !proceed {
                &&& after == mid
                &&& r matches Ok(StartPhaseA::Skip { idempotency_key }) && idempotency_key@
                    == start_key(task)
            } else if !is_task(tasks, task) {
                &&& after == mid
                &&& r matches Err(e) && e@ == recheck_message()
            } else if !has_status(tasks, task, StatusKind::Claimed) {
                &&& after == mid.map_values(completed_row(start_key(task), true, now))
                &&& r matches Ok(StartPhaseA::Skip { idempotency_key }) && idempotency_key@
                    == start_key(task)
            } else {
                &&& after == mid
                &&& r matches Ok(StartPhaseA::Proceed { idempotency_key, actions: own })
                    && idempotency_key@ == start_key(task) && own@ == actions.filter(
                    start_actions(task),
                )
            }
        }
}

/// No attempt counter of the ledger is at its limit.
pub open spec fn ledger_attempts_fit(ledger: Seq<LedgerRow>) -> bool {
    forall|i: int| 0 <= i < ledger.len() ==> (#[trigger] ledger[i]).attempts < i32::MAX
}

/// The preamble of a start: claims the start event, so that the actions are
/// executed once, and loads them.
pub fn start_task_phase_a(
    tasks: &Vec<Task>,
    actions: &Vec<Action>,
    ledger: &mut Vec<WebhookExecution>,
    task_id: u128,
    webhook_idempotency_timeout: u128,
    now: i64,
) -> (r: Result<StartPhaseA, String>)
    requires
        crate::workers::propagation::unique_ids(rows(tasks@)),
        unique_ledger_keys(ledger_rows(old(ledger)@)),
        ledger_attempts_fit(ledger_rows(old(ledger)@)),
    ensures
        preamble(
            rows(tasks@),
            actions@,
            ledger_rows(old(ledger)@),
            ledger_rows(final(ledger)@),
            task_id,
            capped(Some(webhook_idempotency_timeout)),
            now as int,
            r,
        ),
{
    let ghost ts = rows(tasks@);
    let ghost before = ledger_rows(ledger@);
    let key: String = idempotency_key(
        task_id,
        &TriggerKind::Start,
        &TriggerCondition::Success,
    );
    proof {
        assert forall|i: int| 0 <= i < ledger@.len() implies (#[trigger] ledger@[i]).attempts
            < i32::MAX by {
            assert(ledger_rows(ledger@)[i] == ledger@[i]@);
        }
    }
    let proceed: bool = try_claim_webhook_execution(
        ledger,
        task_id,
        TriggerKind::Start,
        TriggerCondition::Success,
        &key,
        Some(webhook_idempotency_timeout),
        now,
    );
    let ghost mid = ledger_rows(ledger@);
    assert(execution_claim(
        before,
        mid,
        task_id,
        TriggerKind::Start,
        TriggerCondition::Success,
        start_key(task_id),
        capped(Some(webhook_idempotency_timeout)),
        now as int,
        proceed,
    ));
    if !proceed {
        return Ok(StartPhaseA::Skip { idempotency_key: key });
    }
    let i: usize = match find_task(tasks, task_id) {
        Some(i) => i,
        None => {
            return Err("Failed to re-check task status: Record not found".to_string());
        },
    };
    assert(ts[i as int] == tasks@[i as int]@);
    assert(ts[i as int].id == task_id);
    if tasks[i].status != StatusKind::Claimed {
        proof {
            if has_status(ts, task_id, StatusKind::Claimed) {
                let k = choose|k: int|
                    0 <= k < ts.len() && #[trigger] ts[k].id == task_id && ts[k].status
                        == StatusKind::Claimed;
                assert(ts[k].id == ts[i as int].id);
            }
        }
        complete_webhook_execution(ledger, &key, true, now);
        return Ok(StartPhaseA::Skip { idempotency_key: key });
    }
    assert(ts[i as int].id == task_id && ts[i as int].status == StatusKind::Claimed);
    let ghost p = start_actions(task_id);
    let mut own: Vec<Action> = Vec::new();
    let mut j: usize = 0;
    proof {
        reveal(Seq::filter);
        assert(actions@.take(0).filter(p) =~= Seq::empty());
    }
    while j < actions.len()
        invariant
            j <= actions.len(),
            p == start_actions(task_id),
            own@ == actions@.take(j as int).filter(p),
        decreases actions.len() - j,
    {
        proof {
            lemma_filter_take(actions@, p, j as int);
        }
        if actions[j].task_id == task_id && actions[j].trigger == TriggerKind::Start {
            own.push(actions[j].clone());
        }
        j += 1;
    }
    assert(actions@.take(j as int) =~= actions@);
    Ok(StartPhaseA::Proceed { idempotency_key: key, actions: own })
}

/// How a start goes on once its actions were executed.
#[derive(Clone, Copy, Debug, PartialEq, Eq, Structural)]
pub enum StartNext {
    /// The task starts running; the actions were executed where `executed` holds.
    Commit {
        /// Whether the actions were executed.
        executed: bool,
    },
    /// The task fails; the start event is completed as failed where the actions
    /// were executed.
    Fail {
        /// Whether the actions were executed.
        executed: bool,
    },
}

/// Decides how a start goes on: `errors` are those of its actions. A preamble that
/// failed fails the task, and so does any action.
pub fn after_actions(phase: &Result<StartPhaseA, String>, errors: &Vec<String>) -> (r: StartNext)
    ensures
        r == match phase {
            Err(_) => (StartNext::Fail { executed: false }),
            Ok(StartPhaseA::Skip { .. }) => (StartNext::Commit { executed: false }),
            Ok(StartPhaseA::Proceed { .. }) => if errors@.len() == 0 {
                (StartNext::Commit { executed: true })
            } else {
                (StartNext::Fail { executed: true })
            },
        },
{
    match phase {
        Err(_) => StartNext::Fail { executed: false },
        Ok(StartPhaseA::Skip { .. }) => StartNext::Commit { executed: false },
        Ok(StartPhaseA::Proceed { .. }) => {
            if errors.len() == 0 {
                StartNext::Commit { executed: true }
            } else {
                StartNext::Fail { executed: true }
            }
        },
    }
}

/// The tables after a start was committed.
pub open spec fn after_start(
    s: Tables,
    task: u128,
    key: Seq<char>,
    executed: bool,
    cancel: Seq<CancelAction>,
    config: SecurityConfig,
    now: int,
) -> Tables {
    let t = Tables { tasks: s.tasks.map_values(running_row(task, now)), ..s };
    if executed {
        Tables {
            actions: s.actions + action_rows(
                task,
                cancel.filter(accepted(config)).map_values(|a: CancelAction| a.dto),
                TriggerKind::Cancel,
                TriggerCondition::Success,
            ),
            ledger: s.ledger.map_values(completed_row(key, true, now)),
            ..t
        }
    } else {
        t
    }
}

/// Commits a start: the task moves from `Claimed` to `Running` and, where its
/// actions were executed, the cancel actions that they returned are registered and
/// the start event is completed, all together. Returns whether the task was still
/// claimed; where it was not, the cancel actions are registered all the same, for
/// the cancellation that is under way.
pub fn commit_start(
    store: &mut Store,
    task_id: u128,
    key: &String,
    executed: bool,
    cancel_tasks: &Vec<CancelAction>,
    config: &SecurityConfig,
    now: i64,
) -> (r: bool)
    ensures
        r == has_status(old(store)@.tasks, task_id, StatusKind::Claimed),
        final(store)@ == after_start(
            old(store)@,
            task_id,
            key@,
            executed,
            cancel_tasks@,
            *config,
            now as int,
        ),
{
    let ran: bool = mark_task_running(&mut store.tasks, task_id, now);
    if executed {
        save_cancel_actions(&mut store.actions, task_id, cancel_tasks, config);
        complete_webhook_execution(&mut store.ledger, key, true, now);
    }
    ran
}

/// Fails a task whose start failed: completes its start event as failed where a key
/// is given, and carries out the failure. Returns whether the task was active.
pub fn fail_started_task(
    store: &mut Store,
    task_id: u128,
    reason: &str,
    complete_start_false: Option<&String>,
    dead_end_enabled: bool,
    now: i64,
) -> (r: bool)
    requires
        old(store)@.wf(),
    ensures
        r == is_active_task(old(store)@.tasks, task_id),
        ({
            let s = old(store)@;
            let t = match complete_start_false {
                Some(key) => (Tables {
                    ledger: s.ledger.map_values(completed_row(key@, false, now as int)),
                    ..s
                }),
                None => s,
            };
            final(store)@ == if r {
                finished(
                    (Tables {
                        tasks: t.tasks.map_values(failed_row(task_id, reason@, now as int)),
                        ..t
                    }),
                    task_id,
                    StatusKind::Failure,
                    dead_end_enabled,
                    Notice::End,
                    now as int,
                )
            } else {
                t
            }
        }),
{
    if let Some(key) = complete_start_false {
        complete_webhook_execution(&mut store.ledger, key, false, now);
    }
    fail_task_and_propagate(store, task_id, reason, dead_end_enabled, now)
}

/// What came of one action: the cancel action that its response registers, if any,
/// or an error.
pub type ActionOutcome = Result<Option<CancelAction>, String>;

/// The cancel actions among the outcomes.
pub open spec fn cancels_in(outcomes: Seq<ActionOutcome>) -> Seq<CancelAction>
    decreases outcomes.len(),
{
    if outcomes.len() == 0 {
        Seq::empty()
    } else {
        let rest = cancels_in(outcomes.drop_last());
        match outcomes.last() {
            Ok(Some(c)) => rest.push(c),
            _ => rest,
        }
    }
}

/// The errors among the outcomes.
pub open spec fn errors_in(outcomes: Seq<ActionOutcome>) -> Seq<String>
    decreases outcomes.len(),
{
    if outcomes.len() == 0 {
        Seq::empty()
    } else {
        let rest = errors_in(outcomes.drop_last());
        match outcomes.last() {
            Err(e) => rest.push(e),
            _ => rest,
        }
    }
}

/// Sorts the outcomes of a start's actions into cancel actions and errors.
pub fn sort_outcomes(outcomes: Vec<ActionOutcome>) -> (r: (Vec<CancelAction>, Vec<String>))
    ensures
        r.0@ == cancels_in(outcomes@),
        r.1@ == errors_in(outcomes@),
{
    let ghost all = outcomes@;
    let mut cancels: Vec<CancelAction> = Vec::new();
    let mut errors: Vec<String> = Vec::new();
    let ghost mut n: int = 0;
    assert(all.take(0) =~= Seq::empty());
    for o in it: outcomes
        invariant
            it.seq() == all,
            n == it.index(),
            cancels@ == cancels_in(all.take(n)),
            errors@ == errors_in(all.take(n)),
    {
        proof {
            assert(all.take(n + 1).drop_last() =~= all.take(n));
            assert(all.take(n + 1).last() == all[n]);
        }
        match o {
            Ok(Some(c)) => {
                cancels.push(c);
            },
            Ok(None) => {},
            Err(e) => {
                errors.push(e);
            },
        }
        proof {
            n = n + 1;
        }
    }
    assert(all.take(n) =~= all);
    (cancels, errors)
}

/// The reason of a start that failed.
pub open spec fn start_failure() -> Seq<char> {
    "on_start webhook failed"@
}

/// The tables after a start failed.
pub open spec fn after_failed_start(
    s: Tables,
    task: u128,
    completed: Option<Seq<char>>,
    dead_end_enabled: bool,
    now: int,
) -> Tables {
    let t = match completed {
        Some(key) => Tables { ledger: s.ledger.map_values(completed_row(key, false, now)), ..s },
        None => s,
    };
    if is_active_task(s.tasks, task) {
        finished(
            Tables { tasks: t.tasks.map_values(failed_row(task, start_failure(), now)), ..t },
            task,
            StatusKind::Failure,
            dead_end_enabled,
            Notice::End,
            now,
        )
    } else {
        t
    }
}

/// What a start came to.
#[derive(Clone, Copy, Debug, PartialEq, Eq, Structural)]
pub struct StartReport {
    /// Whether no action failed.
    pub ok: bool,
    /// Whether the task moved from `Claimed` to `Running`.
    pub started: bool,
    /// Whether notifications were enqueued, so that the delivery loop should run.
    pub nudge_delivery: bool,
}

/// Concludes a start after its preamble answered `phase` and its actions were
/// executed with these outcomes, none of them where the preamble asked for none.
/// The task starts running where no action failed, and fails otherwise.
pub fn execute_webhook_for_task(
    store: &mut Store,
    task_id: u128,
    phase: Result<StartPhaseA, String>,
    outcomes: Vec<ActionOutcome>,
    config: &SecurityConfig,
    dead_end_enabled: bool,
    now: i64,
) -> (r: StartReport)
    requires
        old(store)@.wf(),
    ensures
        ({
            let s = old(store)@;
            let claimed = has_status(s.tasks, task_id, StatusKind::Claimed);
            match phase {
                Err(_) => {
                    &&& r == (StartReport { ok: false, started: false, nudge_delivery: true })
                    &&& final(store)@ == after_failed_start(
                        s,
                        task_id,
                        None,
                        dead_end_enabled,
                        now as int,
                    )
                },
                Ok(StartPhaseA::Skip { idempotency_key: key }) => {
                    &&& r == (StartReport { ok: true, started: claimed, nudge_delivery: false })
                    &&& final(store)@ == after_start(
                        s,
                        task_id,
                        key@,
                        false,
                        Seq::empty(),
                        *config,
                        now as int,
                    )
                },
                Ok(StartPhaseA::Proceed { idempotency_key: key, actions: _ }) => if errors_in(
                    outcomes@,
                ).len() == 0 {
                    &&& r == (StartReport { ok: true, started: claimed, nudge_delivery: false })
                    &&& final(store)@ == after_start(
                        s,
                        task_id,
                        key@,
                        true,
                        cancels_in(outcomes@),
                        *config,
                        now as int,
                    )
                } else {
                    &&& r == (StartReport { ok: false, started: false, nudge_delivery: true })
                    &&& final(store)@ == after_failed_start(
                        s,
                        task_id,
                        Some(key@),
                        dead_end_enabled,
                        now as int,
                    )
                },
            }
        }),
{
    let (cancels, errors) = sort_outcomes(outcomes);
    let next: StartNext = after_actions(&phase, &errors);
    match phase {
        Err(_) => {
            let _ = fail_started_task(
                store,
                task_id,
                "on_start webhook failed",
                None,
                dead_end_enabled,
                now,
            );
            StartReport { ok: false, started: false, nudge_delivery: true }
        },
        Ok(StartPhaseA::Skip { idempotency_key: key }) => {
            let none: Vec<CancelAction> = Vec::new();
            let started: bool = commit_start(store, task_id, &key, false, &none, config, now);
            StartReport { ok: true, started, nudge_delivery: false }
        },
        Ok(StartPhaseA::Proceed { idempotency_key: key, actions: _ }) => {
            if next == (StartNext::Commit { executed: true }) {
                let started: bool = commit_start(
                    store,
                    task_id,
                    &key,
                    true,
                    &cancels,
                    config,
                    now,
                );
                StartReport { ok: true, started, nudge_delivery: false }
            } else {
                let _ = fail_started_task(
                    store,
                    task_id,
                    "on_start webhook failed",
                    Some(&key),
                    dead_end_enabled,
                    now,
                );
                StartReport { ok: false, started: false, nudge_delivery: true }
            }
        },
    }
}

/// A claimed task after a heartbeat.
pub open spec fn beaten_row(id: u128, now: int) -> spec_fn(TaskRow) -> TaskRow {
    |r: TaskRow|
        if r.id == id && r.status == StatusKind::Claimed {
            TaskRow { last_updated: now, ..r }
        } else {
            r
        }
}

/// Refreshes a claimed task that waits for its turn, so that its claim does not
/// go stale.
pub fn heartbeat(tasks: &mut Vec<Task>, task_id: u128, now: i64)
    ensures
        rows(final(tasks)@) == rows(old(tasks)@).map_values(beaten_row(task_id, now as int)),
{
    let ghost before = tasks@;
    let ghost step = beaten_row(task_id, now as int);
    let mut i: usize = 0;
    while i < tasks.len()
        invariant
            i <= tasks.len(),
            tasks@.len() == before.len(),
            step == beaten_row(task_id, now as int),
            forall|k: int| 0 <= k < i ==> (#[trigger] tasks@[k])@ == step(before[k]@),
            forall|k: int| i <= k < before.len() ==> (#[trigger] tasks@[k]) == before[k],
        decreases tasks.len() - i,
    {
        assert(tasks@[i as int] == before[i as int]);
        if tasks[i].id == task_id && tasks[i].status == StatusKind::Claimed {
            tasks[i].last_updated = now;
        }
        i += 1;
    }
    assert(rows(tasks@) =~= rows(before).map_values(step));
}

/// The interval of heartbeats: a third of the time after which a claim goes stale,
/// so that a waiting task is refreshed at least twice before that.
pub fn heartbeat_interval(claim_timeout_micros: u128) -> (r: u128)
    ensures
        r == claim_timeout_micros / 3,
        2 * r <= claim_timeout_micros,
{
    claim_timeout_micros / 3
}

} // verus!
