//! The order in which pending tasks are claimed.

use crate::db::slot_laws::lemma_none_blocked;
use crate::db::task_crud::{
    admits, all_taken, ask_ok, asked, blocked_at, charge, claim_outcome, claim_outcome_with,
    claim_row, evaluable, room_for, rule_key, rule_limit, slots_of, taken, ClaimResult, SlotAsk,
};
use crate::db::task_query::{
    after_cursor, pending_after, pending_key, sorted_where, PendingCursor,
};
use crate::models::{SlotRow, TaskRow};
use crate::order::{key_le, order, order_sorts, SortKey};
use crate::rule::{keyed, lemma_keyed_len};
use crate::tally::lemma_filter_has;
use crate::workers::propagation::unique_ids;
use vstd::prelude::*;

verus! {

// ---------------------------------------------------------------------------
// The queue
// ---------------------------------------------------------------------------

/// The sort keys of the rows fit their columns.
pub open spec fn keys_fit(rows: Seq<TaskRow>) -> bool {
    forall|i: int|
        0 <= i < rows.len() ==> i32::MIN <= (#[trigger] rows[i]).priority <= i32::MAX && i64::MIN
            <= rows[i].created_at <= i64::MAX
}

/// The pending tasks in the order in which they are looked at: by descending
/// priority, then age, then identifier.
pub open spec fn claim_queue(rows: Seq<TaskRow>) -> Seq<TaskRow> {
    sorted_where(rows, pending_after(None), |t: TaskRow| pending_key(t))
}

/// `a` comes strictly before `b`.
pub open spec fn key_lt(a: SortKey, b: SortKey) -> bool {
    key_le(a, b) && a != b
}

/// Rows in strictly ascending order of their keys.
pub open spec fn strictly_sorted(s: Seq<TaskRow>) -> bool {
    forall|i: int, j: int|
        0 <= i < j < s.len() ==> key_lt(
            pending_key(#[trigger] s[i]),
            pending_key(#[trigger] s[j]),
        )
}

/// A sorted selection holds the selected rows, strictly sorted where the
/// identifiers are unique.
pub proof fn lemma_sorted_where(rows: Seq<TaskRow>, p: spec_fn(TaskRow) -> bool)
    requires
        unique_ids(rows),
    ensures
        ({
            let s = sorted_where(rows, p, |t: TaskRow| pending_key(t));
            &&& strictly_sorted(s)
            &&& forall|t: TaskRow| #[trigger] s.contains(t) <==> rows.contains(t) && p(t)
        }),
{
    let kf = |t: TaskRow| pending_key(t);
    let found = rows.filter(p);
    let keys = found.map_values(kf);
    let o = order(keys);
    let s = sorted_where(rows, p, kf);
    order_sorts(keys);
    lemma_distinct_filter(rows, p);
    assert forall|i: int, j: int| 0 <= i < j < s.len() implies key_lt(
        pending_key(#[trigger] s[i]),
        pending_key(#[trigger] s[j]),
    ) by {
        assert(key_le(keys[o[i]], keys[o[j]]));
        assert(o[i] != o[j]);
        assert(found[o[i]].id != found[o[j]].id);
    }
    assert forall|t: TaskRow| #[trigger] s.contains(t) <==> rows.contains(t) && p(t) by {
        lemma_filter_has(rows, p, t);
        if s.contains(t) {
            let i = choose|i: int| 0 <= i < s.len() && s[i] == t;
            assert(found[o[i]] == t);
        }
        if found.contains(t) {
            let k = choose|k: int| 0 <= k < found.len() && found[k] == t;
            assert(o.contains(k));
            let i = choose|i: int| 0 <= i < o.len() && o[i] == k;
            assert(s[i] == t);
        }
    }
}

proof fn lemma_distinct_filter(rows: Seq<TaskRow>, p: spec_fn(TaskRow) -> bool)
    requires
        unique_ids(rows),
    ensures
        forall|i: int, j: int|
            0 <= i < rows.filter(p).len() && 0 <= j < rows.filter(p).len() && i != j
                ==> #[trigger] rows.filter(p)[i].id != #[trigger] rows.filter(p)[j].id,
    decreases rows.len(),
{
    reveal(Seq::filter);
    if rows.len() > 0 {
        let n = rows.len() - 1;
        let init = rows.drop_last();
        assert forall|i: int, j: int|
            0 <= i < init.len() && 0 <= j < init.len() && #[trigger] init[i].id
                == #[trigger] init[j].id implies i == j by {
            assert(rows[i].id == rows[j].id);
        }
        lemma_distinct_filter(init, p);
        let sub = init.filter(p);
        let all = rows.filter(p);
        assert forall|i: int, j: int|
            0 <= i < all.len() && 0 <= j < all.len() && i != j implies #[trigger] all[i].id
            != #[trigger] all[j].id by {
            if p(rows[n]) {
                assert(all =~= sub.push(rows[n]));
                if i < sub.len() && j < sub.len() {
                    assert(sub[i].id != sub[j].id);
                } else if i < sub.len() {
                    lemma_filter_has(init, p, sub[i]);
                    assert(sub.contains(sub[i]));
                    let w = choose|w: int| 0 <= w < init.len() && init[w] == sub[i];
                    assert(rows[w].id == sub[i].id);
                } else {
                    lemma_filter_has(init, p, sub[j]);
                    assert(sub.contains(sub[j]));
                    let w = choose|w: int| 0 <= w < init.len() && init[w] == sub[j];
                    assert(rows[w].id == sub[j].id);
                }
            } else {
                assert(sub[i].id != sub[j].id);
            }
        }
    }
}

/// Strictly sorted rows are determined by which rows they are.
proof fn lemma_sorted_unique(a: Seq<TaskRow>, b: Seq<TaskRow>)
    requires
        strictly_sorted(a),
        strictly_sorted(b),
        forall|t: TaskRow| #[trigger] a.contains(t) <==> b.contains(t),
    ensures
        a =~= b,
    decreases a.len(),
{
    if a.len() == 0 {
        if b.len() > 0 {
            assert(b.contains(b[0]));
            assert(a.contains(b[0]));
        }
    } else {
        let n = a.len() - 1;
        assert(a.contains(a[n]));
        assert(b.contains(a[n]));
        let w = choose|w: int| 0 <= w < b.len() && b[w] == a[n];
        let m = b.len() - 1;
        assert(b.contains(b[m]));
        assert(a.contains(b[m]));
        let v = choose|v: int| 0 <= v < a.len() && a[v] == b[m];
        if w < m {
            assert(key_lt(pending_key(b[w]), pending_key(b[m])));
            if v < n {
                assert(key_lt(pending_key(a[v]), pending_key(a[n])));
            }
        }
        assert(a[n] == b[m]);
        let a0 = a.drop_last();
        let b0 = b.drop_last();
        assert forall|i: int, j: int| 0 <= i < j < a0.len() implies key_lt(
            pending_key(#[trigger] a0[i]),
            pending_key(#[trigger] a0[j]),
        ) by {
            assert(key_lt(pending_key(a[i]), pending_key(a[j])));
        }
        assert forall|i: int, j: int| 0 <= i < j < b0.len() implies key_lt(
            pending_key(#[trigger] b0[i]),
            pending_key(#[trigger] b0[j]),
        ) by {
            assert(key_lt(pending_key(b[i]), pending_key(b[j])));
        }
        assert forall|t: TaskRow| #[trigger] a0.contains(t) <==> b0.contains(t) by {
            if a0.contains(t) {
                let i = choose|i: int| 0 <= i < a0.len() && a0[i] == t;
                assert(a[i] == t);
                assert(a.contains(t));
                assert(b.contains(t));
                let j = choose|j: int| 0 <= j < b.len() && b[j] == t;
                if j == m {
                    assert(key_lt(pending_key(a[i]), pending_key(a[n])));
                }
                assert(b0[j] == t);
            }
            if b0.contains(t) {
                let j = choose|j: int| 0 <= j < b0.len() && b0[j] == t;
                assert(b[j] == t);
                assert(b.contains(t));
                assert(a.contains(t));
                let i = choose|i: int| 0 <= i < a.len() && a[i] == t;
                if i == n {
                    assert(key_lt(pending_key(b[j]), pending_key(b[m])));
                }
                assert(a0[i] == t);
            }
        }
        lemma_sorted_unique(a0, b0);
        assert(a =~= a0.push(a[n]));
        assert(b =~= b0.push(b[m]));
    }
}

/// `now` is `start`, where rows up to the cursor may have changed in what does
/// not order them.
pub open spec fn same_after(
    start: Seq<TaskRow>,
    now: Seq<TaskRow>,
    cursor: Option<PendingCursor>,
) -> bool {
    &&& now.len() == start.len()
    &&& forall|i: int|
        0 <= i < start.len() ==> {
            &&& (#[trigger] now[i]).id == start[i].id
            &&& now[i].priority == start[i].priority
            &&& now[i].created_at == start[i].created_at
            &&& now[i] == start[i] || (cursor is Some && !after_cursor(start[i], cursor->0))
        }
}

/// The cursor after the first `n` tasks of the queue.
pub open spec fn cursor_at(queue: Seq<TaskRow>, n: int, cursor: Option<PendingCursor>) -> bool {
    if n == 0 {
        cursor is None
    } else {
        &&& cursor is Some
        &&& cursor->0.priority == queue[n - 1].priority
        &&& cursor->0.created_at == queue[n - 1].created_at
        &&& cursor->0.id == queue[n - 1].id
    }
}

/// The pending tasks after the cursor are the rest of the queue, however the
/// tasks before it changed.
pub proof fn lemma_rest_of_queue(
    start: Seq<TaskRow>,
    now: Seq<TaskRow>,
    cursor: Option<PendingCursor>,
    n: int,
)
    requires
        unique_ids(start),
        keys_fit(start),
        same_after(start, now, cursor),
        0 <= n <= claim_queue(start).len(),
        cursor_at(claim_queue(start), n, cursor),
    ensures
        sorted_where(now, pending_after(cursor), |t: TaskRow| pending_key(t)) == claim_queue(
            start,
        ).skip(n),
{
    let q = claim_queue(start);
    let rest = q.skip(n);
    let s = sorted_where(now, pending_after(cursor), |t: TaskRow| pending_key(t));
    lemma_sorted_where(start, pending_after(None));
    assert forall|i: int, j: int|
        0 <= i < now.len() && 0 <= j < now.len() && #[trigger] now[i].id
            == #[trigger] now[j].id implies i == j by {
        assert(start[i].id == start[j].id);
    }
    lemma_sorted_where(now, pending_after(cursor));
    assert forall|i: int, j: int| 0 <= i < j < rest.len() implies key_lt(
        pending_key(#[trigger] rest[i]),
        pending_key(#[trigger] rest[j]),
    ) by {
        assert(key_lt(pending_key(q[n + i]), pending_key(q[n + j])));
    }
    assert forall|t: TaskRow| #[trigger] s.contains(t) <==> rest.contains(t) by {
        if s.contains(t) {
            assert(now.contains(t) && pending_after(cursor)(t));
            let i = choose|i: int| 0 <= i < now.len() && now[i] == t;
            assert(now[i].id == start[i].id);
            assert(t == start[i]);
            assert(start.contains(t) && pending_after(None)(t));
            assert(q.contains(t));
            let k = choose|k: int| 0 <= k < q.len() && q[k] == t;
            if k < n {
                assert(start[i].priority == t.priority);
                assert(q.contains(q[n - 1]));
                let w = choose|w: int| 0 <= w < start.len() && start[w] == q[n - 1];
                assert(i32::MIN <= start[w].priority);
                if k < n - 1 {
                    assert(key_lt(pending_key(q[k]), pending_key(q[n - 1])));
                }
                assert(false);
            }
            assert(rest[k - n] == t);
        }
        if rest.contains(t) {
            let k = choose|k: int| 0 <= k < rest.len() && rest[k] == t;
            assert(q[n + k] == t);
            assert(q.contains(t));
            assert(start.contains(t) && pending_after(None)(t));
            let i = choose|i: int| 0 <= i < start.len() && start[i] == t;
            assert(i32::MIN <= start[i].priority);
            if n > 0 {
                assert(key_lt(pending_key(q[n - 1]), pending_key(q[n + k])));
                assert(q.contains(q[n - 1]));
                let w = choose|w: int| 0 <= w < start.len() && start[w] == q[n - 1];
                assert(i32::MIN <= start[w].priority);
                assert(after_cursor(t, cursor->0));
            }
            assert(now[i].id == start[i].id);
            assert(now[i] == t);
            assert(now.contains(t));
            assert(s.contains(t));
        }
    }
    lemma_sorted_unique(s, rest);
}

// ---------------------------------------------------------------------------
// One scan of the queue
// ---------------------------------------------------------------------------

/// A scan: the tasks, the slots, the tasks claimed so far as they were listed, and
/// how many a rule blocked.
#[verifier::ext_equal]
pub struct Scan {
    pub tasks: Seq<TaskRow>,
    pub slots: Seq<SlotRow>,
    pub claimed: Seq<TaskRow>,
    pub blocked: int,
}

/// As many tasks as wanted are claimed. A cap that is not positive is none.
pub open spec fn full(cap: int, n: int) -> bool {
    cap > 0 && n >= cap
}

/// What looking at one task of the queue does. Nothing once enough are claimed. A
/// task without rules is claimed; one with rules where they admit it. A task whose
/// claim would overflow the counter of one of its slots is left alone.
pub open spec fn scan_step(a: Scan, t: TaskRow, cap: int, now: int, b: Scan) -> bool {
    if full(cap, a.claimed.len() as int) {
        b == a
    } else if t.rules.len() == 0 {
        b == (Scan {
            tasks: a.tasks.map_values(claim_row(seq![t.id], now)),
            claimed: a.claimed.push(t),
            ..a
        })
    } else if !room_for(a.slots, t) {
        b == a
    } else {
        exists|result: ClaimResult, blocked: Option<(Seq<char>, int)>|
            #[trigger] claim_outcome(
                a.tasks,
                a.slots,
                t,
                now,
                b.tasks,
                b.slots,
                result,
                blocked,
            ) && b.claimed == (if result == ClaimResult::Claimed {
                a.claimed.push(t)
            } else {
                a.claimed
            }) && b.blocked == a.blocked + if result == ClaimResult::RuleBlocked {
                1int
            } else {
                0int
            }
    }
}

/// `trace` are the states of a scan of `queue`, task by task.
pub open spec fn scan_trace(trace: Seq<Scan>, queue: Seq<TaskRow>, cap: int, now: int) -> bool {
    &&& trace.len() == queue.len() + 1
    &&& forall|k: int|
        0 <= k < queue.len() ==> scan_step(
            #[trigger] trace[k],
            queue[k],
            cap,
            now,
            trace[k + 1],
        )
}

// ---------------------------------------------------------------------------
// Slots known to be full
// ---------------------------------------------------------------------------

/// At least `threshold` units of the slot `key` are in use.
pub open spec fn used_up(slots: Seq<SlotRow>, key: Seq<char>, threshold: int) -> bool {
    exists|i: int|
        0 <= i < slots.len() && (#[trigger] slots[i]).key == key && slots[i].used >= threshold
}

proof fn lemma_taken_keeps_used_up(
    slots: Seq<SlotRow>,
    a: SlotAsk,
    key: Seq<char>,
    threshold: int,
)
    requires
        used_up(slots, key, threshold),
        a.increment >= 0,
    ensures
        used_up(taken(slots, a), key, threshold),
{
    let i = choose|i: int|
        0 <= i < slots.len() && (#[trigger] slots[i]).key == key && slots[i].used >= threshold;
    let after = taken(slots, a);
    assert(after[i].key == key && after[i].used >= threshold);
}

proof fn lemma_all_taken_keeps_used_up(
    slots: Seq<SlotRow>,
    wanted: Seq<SlotAsk>,
    key: Seq<char>,
    threshold: int,
)
    requires
        used_up(slots, key, threshold),
        forall|k: int| 0 <= k < wanted.len() ==> (#[trigger] wanted[k]).increment >= 0,
    ensures
        used_up(all_taken(slots, wanted), key, threshold),
    decreases wanted.len(),
{
    if wanted.len() > 0 {
        assert forall|k: int| 0 <= k < wanted.drop_last().len() implies (
        #[trigger] wanted.drop_last()[k]).increment >= 0 by {
            assert(wanted[k].increment >= 0);
        }
        assert(wanted[wanted.len() - 1].increment >= 0);
        lemma_all_taken_keeps_used_up(slots, wanted.drop_last(), key, threshold);
        lemma_taken_keeps_used_up(
            all_taken(slots, wanted.drop_last()),
            wanted.last(),
            key,
            threshold,
        );
    }
}

/// Claims only take units, so a slot found full stays full for the rest of a scan.
pub proof fn claim_keeps_used_up(
    tasks: Seq<TaskRow>,
    slots: Seq<SlotRow>,
    t: TaskRow,
    now: int,
    after_tasks: Seq<TaskRow>,
    after_slots: Seq<SlotRow>,
    result: ClaimResult,
    blocked: Option<(Seq<char>, int)>,
    key: Seq<char>,
    threshold: int,
)
    requires
        claim_outcome(tasks, slots, t, now, after_tasks, after_slots, result, blocked),
        used_up(slots, key, threshold),
    ensures
        used_up(after_slots, key, threshold),
{
    if t.rules.len() > 0 && !exists|i: int|
        0 <= i < keyed(t).len() && !evaluable(#[trigger] keyed(t)[i], t.expected_count) {
        let wanted = choose|wanted: Seq<SlotAsk>| #[trigger]
            slots_of(keyed(t), charge(t), wanted) && claim_outcome_with(
                tasks,
                slots,
                t,
                wanted,
                now,
                after_tasks,
                after_slots,
                result,
                blocked,
            );
        assert forall|k: int| 0 <= k < wanted.len() implies (#[trigger] wanted[k]).increment
            >= 0 by {
            assert(ask_ok(keyed(t), charge(t), wanted[k]));
        }
        lemma_all_taken_keeps_used_up(slots, wanted, key, threshold);
    }
}

/// A slot that blocked a claim was found full.
pub proof fn blocked_slot_is_used_up(
    tasks: Seq<TaskRow>,
    slots: Seq<SlotRow>,
    t: TaskRow,
    now: int,
    after_tasks: Seq<TaskRow>,
    after_slots: Seq<SlotRow>,
    result: ClaimResult,
    blocked: Option<(Seq<char>, int)>,
)
    requires
        claim_outcome(tasks, slots, t, now, after_tasks, after_slots, result, blocked),
        blocked is Some,
    ensures
        used_up(after_slots, (blocked->0).0, (blocked->0).1),
        result == ClaimResult::RuleBlocked,
{
    let wanted = choose|wanted: Seq<SlotAsk>| #[trigger]
        slots_of(keyed(t), charge(t), wanted) && claim_outcome_with(
            tasks,
            slots,
            t,
            wanted,
            now,
            after_tasks,
            after_slots,
            result,
            blocked,
        );
    let k = choose|k: int| #[trigger]
        blocked_at(slots, wanted, k) && blocked == if wanted[k].concurrency {
            Some((wanted[k].key, wanted[k].threshold))
        } else {
            None
        };
    assert(!admits(slots, wanted[k]));
    let i = choose|i: int|
        0 <= i < slots.len() && (#[trigger] slots[i]).key == wanted[k].key && !(slots[i].used
            < wanted[k].threshold);
    assert(slots[i].key == wanted[k].key && slots[i].used >= wanted[k].threshold);
}

/// A task with a concurrency rule on a slot that is found full up to the rule's
/// limit cannot be claimed: asking would answer so.
pub proof fn used_up_blocks_claim(
    tasks: Seq<TaskRow>,
    slots: Seq<SlotRow>,
    t: TaskRow,
    wanted: Seq<SlotAsk>,
    now: int,
    w: int,
    threshold: int,
)
    requires
        0 <= w < keyed(t).len(),
        rule_key(keyed(t)[w]) is Some,
        rule_limit(keyed(t)[w]) <= threshold,
        used_up(slots, rule_key(keyed(t)[w])->0, threshold),
        forall|i: int|
            0 <= i < keyed(t).len() ==> evaluable(#[trigger] keyed(t)[i], t.expected_count),
        slots_of(keyed(t), charge(t), wanted),
    ensures
        exists|blocked: Option<(Seq<char>, int)>| #[trigger]
            claim_outcome(
                tasks,
                slots,
                t,
                now,
                tasks,
                slots,
                ClaimResult::RuleBlocked,
                blocked,
            ),
{
    lemma_keyed_len(t);
    let key = rule_key(keyed(t)[w])->0;
    assert(asked(wanted, keyed(t)[w]));
    let k = choose|k: int|
        0 <= k < wanted.len() && rule_key(keyed(t)[w]) == Some((#[trigger] wanted[k]).key);
    assert(ask_ok(keyed(t), charge(t), wanted[k]));
    assert(rule_limit(keyed(t)[w]) >= wanted[k].threshold);
    let i = choose|i: int|
        0 <= i < slots.len() && (#[trigger] slots[i]).key == key && slots[i].used >= threshold;
    assert(!admits(slots, wanted[k])) by {
        assert(slots[i].key == wanted[k].key && !(slots[i].used < wanted[k].threshold));
    }
    if !exists|j: int| blocked_at(slots, wanted, j) {
        lemma_none_blocked(slots, wanted, wanted.len() as int);
    }
    let j = choose|j: int| blocked_at(slots, wanted, j);
    let blocked = if wanted[j].concurrency {
        Some((wanted[j].key, wanted[j].threshold))
    } else {
        None
    };
    assert(claim_outcome_with(
        tasks,
        slots,
        t,
        wanted,
        now,
        tasks,
        slots,
        ClaimResult::RuleBlocked,
        blocked,
    ));
    assert(claim_outcome(
        tasks,
        slots,
        t,
        now,
        tasks,
        slots,
        ClaimResult::RuleBlocked,
        blocked,
    ));
}

} // verus!
