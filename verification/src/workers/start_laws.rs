//! What starting a task does, and that it does so once.

use crate::config::SecurityConfig;
use crate::db::task_lifecycle::{accepted, action_rows, is_active_task, CancelAction};
use crate::db::webhook_execution::{capped, completed_row, execution_claim, unique_ledger_keys};
use crate::models::{
    Action, LedgerRow, StatusKind, TaskRow, TriggerCondition, TriggerKind, WebhookExecutionStatus,
};
use crate::store::Tables;
use crate::tally::{count, lemma_filter_count, lemma_filter_has};
use crate::validation::params_refusal;
use crate::workers::propagation::unique_ids;
use crate::workers::start_task::{
    after_failed_start, after_start, cancels_in, errors_in, preamble, start_actions, start_key,
    ActionOutcome, StartPhaseA,
};
use vstd::prelude::*;

verus! {

/// The record of an event.
pub open spec fn on_record(ledger: Seq<LedgerRow>, key: Seq<char>, i: int) -> bool {
    0 <= i < ledger.len() && ledger[i].key == key
}

/// An event may be taken: it is not on record, it failed, or it has been pending for longer
/// than the given time.
pub open spec fn free_to_take(
    ledger: Seq<LedgerRow>,
    key: Seq<char>,
    timeout: Option<int>,
    now: int,
) -> bool {
    forall|i: int| #[trigger]
        on_record(ledger, key, i) ==> {
            ||| ledger[i].status == WebhookExecutionStatus::Failure
            ||| ledger[i].status == WebhookExecutionStatus::Pending && timeout is Some && now
                - ledger[i].updated_at > timeout->0
        }
}

/// An event is taken by whoever asks first, and again only where it failed or was left
/// pending for too long; one that succeeded or was given up is never taken again. Whoever
/// takes it leaves it pending, as of now, with one more attempt. Nothing else on record
/// changes.
pub proof fn events_are_taken_once(
    before: Seq<LedgerRow>,
    after: Seq<LedgerRow>,
    task: u128,
    trigger: TriggerKind,
    condition: TriggerCondition,
    key: Seq<char>,
    timeout: Option<int>,
    now: int,
    proceed: bool,
)
    requires
        unique_ledger_keys(before),
        execution_claim(before, after, task, trigger, condition, key, timeout, now, proceed),
    ensures
        proceed <==> free_to_take(before, key, timeout, now),
        !proceed ==> after == before,
        forall|i: int|
            0 <= i < before.len() && (#[trigger] before[i]).key != key ==> i < after.len()
                && after[i] == before[i],
        proceed ==> exists|i: int| #[trigger]
            on_record(after, key, i) && after[i].status == WebhookExecutionStatus::Pending
                && after[i].updated_at == now && after[i].attempts == if i < before.len() {
                before[i].attempts + 1
            } else {
                1
            } && (i >= before.len() ==> after[i].task_id == Some(task) && after[i].trigger == trigger
                && after[i].condition == condition && after[i].created_at == now
                && after[i].batch_id is None),
        unique_ledger_keys(after),
        forall|i: int| #[trigger]
            on_record(after, key, i) && i < before.len() ==> on_record(before, key, i),
{
    if crate::db::webhook_outbox::recorded(before, key) {
        let i = choose|i: int|
            0 <= i < before.len() && (#[trigger] before[i]).key == key && proceed
                == crate::db::webhook_execution::reclaimable(before[i], timeout, now) && after
                == if proceed {
                before.update(i, crate::db::webhook_execution::reclaimed_row(before[i], now))
            } else {
                before
            };
        assert(on_record(before, key, i));
        assert forall|k: int| #[trigger] on_record(before, key, k) implies k == i by {
            assert(before[k].key == before[i].key);
        }
        if proceed {
            assert(on_record(after, key, i));
            assert forall|a: int, b: int|
                #![trigger after[a], after[b]]
                0 <= a < after.len() && 0 <= b < after.len() && after[a].key
                    == after[b].key implies a == b by {
                assert(before[a].key == after[a].key && before[b].key == after[b].key);
            }
        }
    } else {
        let n = before.len() as int;
        assert(on_record(after, key, n));
        assert forall|k: int| !#[trigger] on_record(before, key, k) by {
            if on_record(before, key, k) {
                assert(before[k].key == key);
            }
        }
        assert forall|a: int, b: int|
            #![trigger after[a], after[b]]
            0 <= a < after.len() && 0 <= b < after.len() && after[a].key == after[b].key implies a
            == b by {
            if a < n && b < n {
                assert(before[a].key == before[b].key);
            } else if a < n {
                assert(before[a].key == key);
            } else if b < n {
                assert(before[b].key == key);
            }
        }
    }
}

/// A time that is given counts, up to the largest 64-bit number.
pub proof fn bounds_are_kept(stale_after: Option<u128>)
    ensures
        stale_after is None <==> capped(stale_after) is None,
        stale_after matches Some(m) ==> (m <= i64::MAX ==> capped(stale_after) == Some(m as int))
            && (m > i64::MAX ==> capped(stale_after) == Some(i64::MAX as int)),
{
}

/// The task is there, and claimed.
pub open spec fn is_claimed(tasks: Seq<TaskRow>, task: u128) -> bool {
    exists|i: int|
        0 <= i < tasks.len() && (#[trigger] tasks[i]).id == task && tasks[i].status
            == StatusKind::Claimed
}

/// The preamble of a start hands out the task's actions for its start, all of them and no
/// others, in order. It does so if and only if the start may be taken and the task is
/// claimed.
pub proof fn start_hands_out_start_actions(
    tasks: Seq<TaskRow>,
    actions: Seq<Action>,
    before: Seq<LedgerRow>,
    after: Seq<LedgerRow>,
    task: u128,
    timeout: Option<int>,
    now: int,
    r: Result<StartPhaseA, String>,
)
    requires
        unique_ledger_keys(before),
        preamble(tasks, actions, before, after, task, timeout, now, r),
    ensures
        (r matches Ok(StartPhaseA::Proceed { .. })) <==> free_to_take(
            before,
            start_key(task),
            timeout,
            now,
        ) && is_claimed(tasks, task),
        r matches Ok(StartPhaseA::Proceed { idempotency_key, actions: own }) ==> {
            &&& idempotency_key@ == start_key(task)
            &&& forall|k: int|
                0 <= k < own@.len() ==> (#[trigger] own@[k]).task_id == task && own@[k].trigger
                    == TriggerKind::Start && actions.contains(own@[k])
            &&& forall|a: Action| #[trigger]
                actions.contains(a) && a.task_id == task && a.trigger == TriggerKind::Start
                    ==> own@.contains(a)
            &&& own@.len() == count(
                actions,
                |a: Action| a.task_id == task && a.trigger == TriggerKind::Start,
            )
            &&& forall|i: int| #[trigger]
                on_record(after, start_key(task), i) ==> after[i].status
                    == WebhookExecutionStatus::Pending && after[i].updated_at == now
        },
{
    let (mid, proceed) = choose|mid: Seq<LedgerRow>, proceed: bool|
        {
            &&& #[trigger] execution_claim(
                before,
                mid,
                task,
                TriggerKind::Start,
                TriggerCondition::Success,
                start_key(task),
                timeout,
                now,
                proceed,
            )
            &&& if !proceed {
                &&& after == mid
                &&& r matches Ok(StartPhaseA::Skip { idempotency_key }) && idempotency_key@
                    == start_key(task)
            } else if !crate::db::task_lifecycle::is_task(tasks, task) {
                &&& after == mid
                &&& r matches Err(e) && e@ == crate::workers::start_task::recheck_message()
            } else if !crate::db::task_crud::has_status(tasks, task, StatusKind::Claimed) {
                &&& after == mid.map_values(completed_row(start_key(task), true, now))
                &&& r matches Ok(StartPhaseA::Skip { idempotency_key }) && idempotency_key@
                    == start_key(task)
            } else {
                &&& after == mid
                &&& r matches Ok(StartPhaseA::Proceed { idempotency_key, actions: own })
                    && idempotency_key@ == start_key(task) && own@ == actions.filter(
                    start_actions(task),
                )
            }
        };
    events_are_taken_once(
        before,
        mid,
        task,
        TriggerKind::Start,
        TriggerCondition::Success,
        start_key(task),
        timeout,
        now,
        proceed,
    );
    if is_claimed(tasks, task) {
        let i = choose|i: int|
            0 <= i < tasks.len() && (#[trigger] tasks[i]).id == task && tasks[i].status
                == StatusKind::Claimed;
        assert(tasks[i].id == task);
    }
    if crate::db::task_crud::has_status(tasks, task, StatusKind::Claimed) {
        let i = choose|i: int|
            0 <= i < tasks.len() && #[trigger] tasks[i].id == task && tasks[i].status
                == StatusKind::Claimed;
        assert(tasks[i].id == task);
        assert(is_claimed(tasks, task));
    }
    if let Ok(StartPhaseA::Proceed { idempotency_key, actions: own }) = r {
        let p = start_actions(task);
        assert forall|k: int| 0 <= k < own@.len() implies (#[trigger] own@[k]).task_id == task
            && own@[k].trigger == TriggerKind::Start && actions.contains(own@[k]) by {
            assert(own@.contains(own@[k]));
            lemma_filter_has(actions, p, own@[k]);
        }
        assert forall|a: Action| #[trigger]
            actions.contains(a) && a.task_id == task && a.trigger
                == TriggerKind::Start implies own@.contains(a) by {
            lemma_filter_has(actions, p, a);
        }
        let q = |a: Action| a.task_id == task && a.trigger == TriggerKind::Start;
        lemma_filter_count(actions, p, q);
        assert forall|i: int| #[trigger] on_record(after, start_key(task), i) implies after[i].status
            == WebhookExecutionStatus::Pending && after[i].updated_at == now by {
            let k = choose|k: int| #[trigger]
                on_record(mid, start_key(task), k) && mid[k].status
                    == WebhookExecutionStatus::Pending && mid[k].updated_at == now;
            assert(mid[k].key == mid[i].key);
        }
    }
}

/// The actions of a start are not handed out twice within the time that a start may take:
/// whoever comes second, before that time is over, is told to skip.
pub proof fn starts_do_not_overlap(
    tasks: Seq<TaskRow>,
    actions: Seq<Action>,
    before: Seq<LedgerRow>,
    between: Seq<LedgerRow>,
    after: Seq<LedgerRow>,
    task: u128,
    timeout: int,
    now: int,
    later: int,
    first: Result<StartPhaseA, String>,
    tasks2: Seq<TaskRow>,
    actions2: Seq<Action>,
    second: Result<StartPhaseA, String>,
)
    requires
        unique_ledger_keys(before),
        preamble(tasks, actions, before, between, task, Some(timeout), now, first),
        preamble(tasks2, actions2, between, after, task, Some(timeout), later, second),
        unique_ledger_keys(between),
        first matches Ok(StartPhaseA::Proceed { .. }),
        later - now <= timeout,
    ensures
        !(second matches Ok(StartPhaseA::Proceed { .. })),
{
    start_hands_out_start_actions(
        tasks,
        actions,
        before,
        between,
        task,
        Some(timeout),
        now,
        first,
    );
    start_hands_out_start_actions(
        tasks2,
        actions2,
        between,
        after,
        task,
        Some(timeout),
        later,
        second,
    );
    if free_to_take(between, start_key(task), Some(timeout), later) {
        lemma_taken_is_on_record(tasks, actions, before, between, task, Some(timeout), now, first);
        let i = choose|i: int| #[trigger] on_record(between, start_key(task), i);
        assert(on_record(between, start_key(task), i));
    }
}

proof fn lemma_taken_is_on_record(
    tasks: Seq<TaskRow>,
    actions: Seq<Action>,
    before: Seq<LedgerRow>,
    after: Seq<LedgerRow>,
    task: u128,
    timeout: Option<int>,
    now: int,
    r: Result<StartPhaseA, String>,
)
    requires
        unique_ledger_keys(before),
        preamble(tasks, actions, before, after, task, timeout, now, r),
        r matches Ok(StartPhaseA::Proceed { .. }),
    ensures
        exists|i: int| #[trigger] on_record(after, start_key(task), i),
{
    assert(exists|proceed: bool| #[trigger]
        execution_claim(
            before,
            after,
            task,
            TriggerKind::Start,
            TriggerCondition::Success,
            start_key(task),
            timeout,
            now,
            proceed,
        ) && proceed);
    events_are_taken_once(
        before,
        after,
        task,
        TriggerKind::Start,
        TriggerCondition::Success,
        start_key(task),
        timeout,
        now,
        true,
    );
}

/// The errors among outcomes are there if and only if an action failed, and the cancel
/// actions are those that the others returned.
pub proof fn outcomes_are_sorted(outcomes: Seq<ActionOutcome>)
    ensures
        errors_in(outcomes).len() == 0 <==> forall|i: int|
            0 <= i < outcomes.len() ==> (#[trigger] outcomes[i]) is Ok,
        forall|c: CancelAction| #[trigger]
            cancels_in(outcomes).contains(c) <==> exists|i: int|
                0 <= i < outcomes.len() && (#[trigger] outcomes[i]) == (Ok::<
                    Option<CancelAction>,
                    String,
                >(Some(c))),
        errors_in(outcomes).len() + cancels_in(outcomes).len() <= outcomes.len(),
    decreases outcomes.len(),
{
    if outcomes.len() > 0 {
        let init = outcomes.drop_last();
        let n = outcomes.len() - 1;
        outcomes_are_sorted(init);
        assert(outcomes[n] == outcomes.last());
        assert(errors_in(outcomes).len() == 0 <==> forall|i: int|
            0 <= i < outcomes.len() ==> (#[trigger] outcomes[i]) is Ok) by {
            if errors_in(outcomes).len() == 0 {
                assert forall|i: int| 0 <= i < outcomes.len() implies (
                #[trigger] outcomes[i]) is Ok by {
                    if i < n {
                        assert(init[i] is Ok);
                    }
                }
            }
            if forall|i: int| 0 <= i < outcomes.len() ==> (#[trigger] outcomes[i]) is Ok {
                assert(outcomes[n] is Ok);
                assert forall|i: int| 0 <= i < init.len() implies (#[trigger] init[i]) is Ok by {
                    assert(outcomes[i] is Ok);
                }
            }
        }
        assert forall|c: CancelAction| #[trigger] cancels_in(outcomes).contains(c) <==> exists|
            i: int,
        |
            0 <= i < outcomes.len() && (#[trigger] outcomes[i]) == (Ok::<
                Option<CancelAction>,
                String,
            >(Some(c))) by {
            let a = cancels_in(init);
            let b = cancels_in(outcomes);
            if b.contains(c) {
                let k = choose|k: int| 0 <= k < b.len() && b[k] == c;
                if k < a.len() {
                    assert(a[k] == c);
                    assert(a.contains(c));
                    let i = choose|i: int|
                        0 <= i < init.len() && (#[trigger] init[i]) == (Ok::<
                            Option<CancelAction>,
                            String,
                        >(Some(c)));
                    assert(outcomes[i] == init[i]);
                } else {
                    assert(outcomes[n] == (Ok::<Option<CancelAction>, String>(Some(c))));
                }
            }
            if exists|i: int|
                0 <= i < outcomes.len() && (#[trigger] outcomes[i]) == (Ok::<
                    Option<CancelAction>,
                    String,
                >(Some(c))) {
                let i = choose|i: int|
                    0 <= i < outcomes.len() && (#[trigger] outcomes[i]) == (Ok::<
                        Option<CancelAction>,
                        String,
                    >(Some(c)));
                if i < n {
                    assert(init[i] == outcomes[i]);
                    assert(a.contains(c));
                    let k = choose|k: int| 0 <= k < a.len() && a[k] == c;
                    assert(b[k] == c);
                } else {
                    assert(b[b.len() - 1] == c);
                }
            }
        }
    }
}

/// A start that went well makes the claimed task run as of now, and no other task. Where
/// its actions were executed, the event counts as done, and the cancel actions that they
/// returned are kept for the task's cancellation, except those whose parameters are
/// refused. Nothing else changes.
pub proof fn good_starts_make_a_task_run(
    s: Tables,
    task: u128,
    key: Seq<char>,
    executed: bool,
    cancel: Seq<CancelAction>,
    config: SecurityConfig,
    now: int,
)
    ensures
        ({
            let f = after_start(s, task, key, executed, cancel, config, now);
            &&& f.tasks.len() == s.tasks.len()
            &&& forall|i: int|
                0 <= i < s.tasks.len() ==> (#[trigger] f.tasks[i]) == if s.tasks[i].id == task
                    && s.tasks[i].status == StatusKind::Claimed {
                    TaskRow {
                        status: StatusKind::Running,
                        started_at: Some(now),
                        last_updated: now,
                        ..s.tasks[i]
                    }
                } else {
                    s.tasks[i]
                }
            &&& f.ledger.len() == s.ledger.len()
            &&& forall|i: int|
                0 <= i < s.ledger.len() ==> (#[trigger] f.ledger[i]) == if executed
                    && s.ledger[i].key == key {
                    LedgerRow {
                        status: WebhookExecutionStatus::Success,
                        updated_at: now,
                        ..s.ledger[i]
                    }
                } else {
                    s.ledger[i]
                }
            &&& f.actions.len() >= s.actions.len()
            &&& forall|i: int|
                0 <= i < s.actions.len() ==> (#[trigger] f.actions[i]) == s.actions[i]
            &&& forall|i: int|
                s.actions.len() <= i < f.actions.len() ==> executed && (
                #[trigger] f.actions[i]).task_id == task && f.actions[i].trigger
                    == TriggerKind::Cancel && exists|c: CancelAction| #[trigger]
                    cancel.contains(c) && params_refusal(c.params, config) is None
                        && f.actions[i].params == c.dto.params
            &&& executed ==> forall|c: CancelAction| #[trigger]
                cancel.contains(c) && params_refusal(c.params, config) is None ==> exists|i: int|
                    s.actions.len() <= i < f.actions.len() && (#[trigger] f.actions[i]).params
                        == c.dto.params && f.actions[i].kind == c.dto.kind
            &&& f.links == s.links && f.batches == s.batches && f.slots == s.slots && f.outbox
                == s.outbox && f.archive == s.archive
        }),
{
    let f = after_start(s, task, key, executed, cancel, config, now);
    if executed {
        let p = accepted(config);
        let sel = cancel.filter(p);
        let dtos = sel.map_values(|a: CancelAction| a.dto);
        let more = action_rows(task, dtos, TriggerKind::Cancel, TriggerCondition::Success);
        assert(f.actions == s.actions + more);
        assert forall|i: int| s.actions.len() <= i < f.actions.len() implies executed && (
        #[trigger] f.actions[i]).task_id == task && f.actions[i].trigger == TriggerKind::Cancel
            && exists|c: CancelAction| #[trigger]
            cancel.contains(c) && params_refusal(c.params, config) is None && f.actions[i].params
                == c.dto.params by {
            let k = i - s.actions.len();
            assert(f.actions[i] == more[k]);
            let c = sel[k];
            assert(sel.contains(c));
            lemma_filter_has(cancel, p, c);
            assert(cancel.contains(c));
        }
        assert forall|c: CancelAction| #[trigger]
            cancel.contains(c) && params_refusal(c.params, config) is None implies exists|i: int|
            s.actions.len() <= i < f.actions.len() && (#[trigger] f.actions[i]).params
                == c.dto.params && f.actions[i].kind == c.dto.kind by {
            lemma_filter_has(cancel, p, c);
            let k = choose|k: int| 0 <= k < sel.len() && sel[k] == c;
            assert(f.actions[s.actions.len() + k] == more[k]);
        }
    }
}

/// A start that went wrong fails the task if a worker still holds it, and says so; else it
/// changes no task. Where actions were executed, the event counts as failed, and may be
/// taken again.
pub proof fn bad_starts_fail_a_task(
    s: Tables,
    task: u128,
    completed: Option<Seq<char>>,
    dead_end_enabled: bool,
    now: int,
    i: int,
)
    requires
        unique_ids(s.tasks),
        0 <= i < s.tasks.len(),
        s.tasks[i].id == task,
    ensures
        ({
            let f = after_failed_start(s, task, completed, dead_end_enabled, now);
            let r = s.tasks[i];
            &&& r.status == StatusKind::Claimed || r.status == StatusKind::Running ==> f.tasks[i]
                == (TaskRow {
                status: StatusKind::Failure,
                failure_reason: Some("on_start webhook failed"@),
                ended_at: Some(now),
                last_updated: now,
                slot_keys: None,
                capacity_charge: f.tasks[i].capacity_charge,
                ..r
            })
            &&& r.status != StatusKind::Claimed && r.status != StatusKind::Running ==> f.tasks
                == s.tasks && f.outbox == s.outbox && f.slots == s.slots && f.batches == s.batches
            &&& f.ledger.len() == s.ledger.len()
            &&& forall|k: int|
                0 <= k < s.ledger.len() ==> (#[trigger] f.ledger[k]) == if completed == Some(
                    s.ledger[k].key,
                ) {
                    LedgerRow {
                        status: WebhookExecutionStatus::Failure,
                        updated_at: now,
                        ..s.ledger[k]
                    }
                } else {
                    s.ledger[k]
                }
            &&& f.actions == s.actions && f.links == s.links && f.archive == s.archive
        }),
{
    let t = match completed {
        Some(key) => Tables { ledger: s.ledger.map_values(completed_row(key, false, now)), ..s },
        None => s,
    };
    let r = s.tasks[i];
    if r.status == StatusKind::Claimed || r.status == StatusKind::Running {
        assert(is_active_task(s.tasks, task));
        crate::workers::life_laws::ends_are_noted(
            t,
            task,
            "on_start webhook failed"@,
            dead_end_enabled,
            crate::workers::finish::Notice::End,
            now,
            i,
        );
    } else if is_active_task(s.tasks, task) {
        let k = choose|k: int|
            0 <= k < s.tasks.len() && #[trigger] s.tasks[k].id == task
                && s.tasks[k].status.active();
        assert(s.tasks[k].id == s.tasks[i].id);
    }
}

} // verus!
