//! What starts, deliveries and changes of rules leave consistent.

use crate::config::SecurityConfig;
use crate::db::batch_listing::ruled_row;
use crate::db::task_lifecycle::{is_active_task, CancelAction};
use crate::db::webhook_execution::{completed_row, execution_claim};
use crate::db::webhook_outbox::{keys_disjoint, leased, queued, recorded};
use crate::models::{LedgerRow, OutboxRow, StrategyView, TriggerCondition, TriggerKind};
use crate::store::Tables;
use crate::workers::delivery_loop::{
    mark_loses_no_event, marked_ledger, marked_outbox, MarkView,
};
use crate::workers::finish_laws::consistent;
use crate::workers::propagation::row_deps_ok;
use crate::workers::start_task::{
    after_failed_start, after_start, beaten_row, preamble, start_failure, start_key, StartPhaseA,
};
use crate::workers::transition_laws::{
    failure_keeps_consistent, lemma_live_steps, live_transitions_keep_consistent,
};
use vstd::prelude::*;

verus! {

/// Completing events changes no key.
proof fn lemma_completed_keys(
    outbox: Seq<OutboxRow>,
    ledger: Seq<LedgerRow>,
    key: Seq<char>,
    succeeded: bool,
    now: int,
)
    requires
        keys_disjoint(outbox, ledger),
    ensures
        keys_disjoint(outbox, ledger.map_values(completed_row(key, succeeded, now))),
{
    let after = ledger.map_values(completed_row(key, succeeded, now));
    assert forall|i: int| 0 <= i < ledger.len() implies (#[trigger] after[i]).key
        == ledger[i].key by {}
}

/// Claiming an event that is not queued records it once.
proof fn lemma_claim_keys(
    outbox: Seq<OutboxRow>,
    before: Seq<LedgerRow>,
    after: Seq<LedgerRow>,
    task: u128,
    key: Seq<char>,
    timeout: Option<int>,
    now: int,
    proceed: bool,
)
    requires
        keys_disjoint(outbox, before),
        !queued(outbox, key),
        execution_claim(
            before,
            after,
            task,
            TriggerKind::Start,
            TriggerCondition::Success,
            key,
            timeout,
            now,
            proceed,
        ),
    ensures
        keys_disjoint(outbox, after),
{
    if recorded(before, key) {
        assert forall|i: int| 0 <= i < before.len() implies (#[trigger] after[i]).key
            == before[i].key by {}
    } else {
        let n = before.len() as int;
        assert forall|i: int, j: int|
            #![trigger after[i], after[j]]
            0 <= i < after.len() && 0 <= j < after.len() && after[i].key
                == after[j].key implies i == j by {
            if i < n && j < n {
                assert(before[i].key == before[j].key);
            } else if i < n {
                assert(before[i].key == key);
            } else if j < n {
                assert(before[j].key == key);
            }
        }
        assert forall|i: int, j: int|
            #![trigger outbox[i], after[j]]
            0 <= i < outbox.len() && 0 <= j < after.len() implies outbox[i].key
            != after[j].key by {
            if j < n {
                assert(outbox[i].key != before[j].key);
            }
        }
    }
}

/// The preamble of a start keeps the tables consistent. Start events are never
/// queued: they are executed at once.
pub proof fn preamble_keeps_consistent(
    s: Tables,
    ledger: Seq<LedgerRow>,
    task: u128,
    timeout: Option<int>,
    now: int,
    r: Result<StartPhaseA, String>,
)
    requires
        consistent(s),
        !queued(s.outbox, start_key(task)),
        preamble(s.tasks, s.actions, s.ledger, ledger, task, timeout, now, r),
    ensures
        consistent(Tables { ledger, ..s }),
{
    let key = start_key(task);
    let (mid, proceed) = choose|mid: Seq<LedgerRow>, proceed: bool|
        #[trigger] execution_claim(
            s.ledger,
            mid,
            task,
            TriggerKind::Start,
            TriggerCondition::Success,
            key,
            timeout,
            now,
            proceed,
        ) && (ledger == mid || ledger == mid.map_values(completed_row(key, true, now)));
    lemma_claim_keys(s.outbox, s.ledger, mid, task, key, timeout, now, proceed);
    lemma_completed_keys(s.outbox, mid, key, true, now);
}

/// Concluding a start keeps the tables consistent, whether the task starts or
/// fails.
pub proof fn start_keeps_consistent(
    s: Tables,
    task: u128,
    key: Seq<char>,
    executed: bool,
    cancel: Seq<CancelAction>,
    config: SecurityConfig,
    completed: Option<Seq<char>>,
    dead_end_enabled: bool,
    now: int,
)
    requires
        consistent(s),
    ensures
        consistent(after_start(s, task, key, executed, cancel, config, now)),
        consistent(after_failed_start(s, task, completed, dead_end_enabled, now)),
{
    live_transitions_keep_consistent(s, Seq::empty(), task, now);
    lemma_completed_keys(s.outbox, s.ledger, key, true, now);
    let t = match completed {
        Some(k) => Tables { ledger: s.ledger.map_values(completed_row(k, false, now)), ..s },
        None => s,
    };
    if completed is Some {
        lemma_completed_keys(s.outbox, s.ledger, completed->0, false, now);
    }
    assert(consistent(t));
    if is_active_task(s.tasks, task) {
        failure_keeps_consistent(t, task, start_failure(), dead_end_enabled, now);
    }
}

/// Leasing deliveries and marking them keeps the tables consistent.
pub proof fn delivery_keeps_consistent(
    s: Tables,
    taken: Seq<int>,
    token: u128,
    lease_secs: int,
    m: MarkView,
    now: int,
)
    requires
        consistent(s),
    ensures
        consistent(Tables { outbox: leased(s.outbox, taken, token, now, lease_secs), ..s }),
        consistent(
            Tables {
                outbox: marked_outbox(s.outbox, m, now),
                ledger: marked_ledger(s.outbox, s.ledger, m, now),
                ..s
            },
        ),
{
    let o = leased(s.outbox, taken, token, now, lease_secs);
    assert forall|i: int| 0 <= i < s.outbox.len() implies (#[trigger] o[i]).key
        == s.outbox[i].key by {}
    if s.outbox.len() > 0 {
        assert(s.outbox[0].key == s.outbox[0].key);
        assert(queued(s.outbox, s.outbox[0].key));
        mark_loses_no_event(s.outbox, s.ledger, m, now, s.outbox[0].key);
    }
}

/// Changing the rules of tasks that have not started, and refreshing a claim, keep
/// the tables consistent.
pub proof fn touches_keep_consistent(
    s: Tables,
    batch: u128,
    kind: Seq<char>,
    rules: Seq<StrategyView>,
    task: u128,
    now: int,
)
    requires
        consistent(s),
    ensures
        consistent(Tables { tasks: s.tasks.map_values(ruled_row(batch, kind, rules)), ..s }),
        consistent(Tables { tasks: s.tasks.map_values(beaten_row(task, now)), ..s }),
{
    let none = Seq::<u128>::empty();
    assert forall|i: int| 0 <= i < s.tasks.len() implies row_deps_ok(
        s.tasks,
        s.links,
        none,
        #[trigger] s.tasks[i],
    ) by {}
    lemma_live_steps(s, Tables { tasks: s.tasks.map_values(ruled_row(batch, kind, rules)), ..s });
    lemma_live_steps(s, Tables { tasks: s.tasks.map_values(beaten_row(task, now)), ..s });
}

} // verus!
