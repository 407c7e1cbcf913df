//! What a scan of the queue keeps true.

use crate::db::task_crud::{
    charge, claim_outcome, claim_outcome_with, claim_row, evaluable, room_for, slots_of, ClaimResult,
    SlotAsk,
};
use crate::models::TaskRow;
use crate::rule::keyed;
use crate::store::Tables;
use crate::workers::claim_scan::{full, scan_step, scan_trace, Scan};
use crate::workers::finish_laws::consistent;
use crate::workers::transition_laws::{claim_keeps_consistent, live_transitions_keep_consistent};
use vstd::prelude::*;

verus! {

/// A scan only ever adds to what is claimed.
proof fn lemma_claimed_grows(
    trace: Seq<Scan>,
    queue: Seq<TaskRow>,
    cap: int,
    now: int,
    k: int,
    n: int,
)
    requires
        scan_trace(trace, queue, cap, now),
        0 <= k <= n < trace.len(),
    ensures
        trace[k].claimed.len() <= trace[n].claimed.len(),
        forall|t: TaskRow| trace[k].claimed.contains(t) ==> #[trigger] trace[n].claimed.contains(t),
    decreases n - k,
{
    if k < n {
        lemma_claimed_grows(trace, queue, cap, now, k, n - 1);
        let a = trace[n - 1];
        let b = trace[n];
        assert(scan_step(trace[n - 1], queue[n - 1], cap, now, trace[n - 1 + 1]));
        assert(b.claimed == a.claimed || b.claimed == a.claimed.push(queue[n - 1]));
        assert forall|t: TaskRow| trace[k].claimed.contains(t) implies #[trigger] trace[n].claimed.contains(
            t,
        ) by {
            assert(a.claimed.contains(t));
            let i = choose|i: int| 0 <= i < a.claimed.len() && a.claimed[i] == t;
            assert(b.claimed[i] == t);
        }
    }
}

/// Where the cap does not stop a scan, it claims every task without rules,
/// wherever in the queue it stands.
pub proof fn scan_claims_every_free_task(
    trace: Seq<Scan>,
    queue: Seq<TaskRow>,
    cap: int,
    now: int,
    k: int,
)
    requires
        scan_trace(trace, queue, cap, now),
        0 <= k < queue.len(),
        queue[k].rules.len() == 0,
        !full(cap, trace.last().claimed.len() as int),
    ensures
        trace.last().claimed.contains(queue[k]),
{
    let n = trace.len() - 1;
    lemma_claimed_grows(trace, queue, cap, now, k, n);
    assert(scan_step(trace[k], queue[k], cap, now, trace[k + 1]));
    assert(!full(cap, trace[k].claimed.len() as int));
    assert(trace[k + 1].claimed[trace[k].claimed.len() as int] == queue[k]);
    assert(trace[k + 1].claimed.contains(queue[k]));
    lemma_claimed_grows(trace, queue, cap, now, k + 1, n);
}

proof fn lemma_step_consistent(s: Tables, a: Scan, t: TaskRow, cap: int, now: int, b: Scan)
    requires
        consistent(Tables { tasks: a.tasks, slots: a.slots, ..s }),
        scan_step(a, t, cap, now, b),
    ensures
        consistent(Tables { tasks: b.tasks, slots: b.slots, ..s }),
{
    let sa = Tables { tasks: a.tasks, slots: a.slots, ..s };
    if full(cap, a.claimed.len() as int) {
    } else if t.rules.len() == 0 {
        live_transitions_keep_consistent(sa, seq![t.id], t.id, now);
        assert(Tables { tasks: b.tasks, slots: b.slots, ..s } =~= Tables {
            tasks: sa.tasks.map_values(claim_row(seq![t.id], now)),
            ..sa
        });
    } else if room_for(a.slots, t) {
        let (result, why) = choose|result: ClaimResult, why: Option<(Seq<char>, int)>|
            #[trigger] claim_outcome(
                a.tasks,
                a.slots,
                t,
                now,
                b.tasks,
                b.slots,
                result,
                why,
            ) && b.claimed == (if result == ClaimResult::Claimed {
                a.claimed.push(t)
            } else {
                a.claimed
            }) && b.blocked == a.blocked + if result == ClaimResult::RuleBlocked {
                1int
            } else {
                0int
            };
        if !exists|i: int|
            0 <= i < keyed(t).len() && !evaluable(#[trigger] keyed(t)[i], t.expected_count) {
            let wanted = choose|wanted: Seq<SlotAsk>| #[trigger]
                slots_of(keyed(t), charge(t), wanted) && claim_outcome_with(
                    a.tasks,
                    a.slots,
                    t,
                    wanted,
                    now,
                    b.tasks,
                    b.slots,
                    result,
                    why,
                );
            claim_keeps_consistent(sa, t, wanted, now, b.tasks, b.slots, result, why);
            assert(Tables { tasks: b.tasks, slots: b.slots, ..s } =~= Tables {
                tasks: b.tasks,
                slots: b.slots,
                ..sa
            });
        }
    }
}

/// A scan keeps the tables consistent, after every task that it looks at.
pub proof fn scan_keeps_consistent(
    s: Tables,
    trace: Seq<Scan>,
    queue: Seq<TaskRow>,
    cap: int,
    now: int,
    n: int,
)
    requires
        consistent(s),
        scan_trace(trace, queue, cap, now),
        trace[0].tasks == s.tasks,
        trace[0].slots == s.slots,
        0 <= n < trace.len(),
    ensures
        consistent(Tables { tasks: trace[n].tasks, slots: trace[n].slots, ..s }),
    decreases n,
{
    if n == 0 {
        assert(Tables { tasks: trace[0].tasks, slots: trace[0].slots, ..s } =~= s);
    } else {
        scan_keeps_consistent(s, trace, queue, cap, now, n - 1);
        assert(scan_step(trace[n - 1], queue[n - 1], cap, now, trace[n - 1 + 1]));
        lemma_step_consistent(s, trace[n - 1], queue[n - 1], cap, now, trace[n]);
    }
}

} // verus!
