//! Claiming pending tasks, and the steps from a claim to a running task.

use crate::db::task_crud::{
    asks, batch_claim_tasks, charge, claim_outcome, claim_outcome_with, claim_row,
    claim_task_with_rules_detailed, evaluable, has_room, has_status, pending_among, room_for, rule_key, rule_limit,
    slots_of, ClaimOutcome, ClaimResult, RuleQueryParams, SlotAsk,
};
use crate::db::task_query::{
    after_cursor, list_pending_page, pending_after, pending_key, sorted_where, PendingCursor,
};
use crate::models::{
    rows, slot_rows, RuleSlot, SlotRow, StatusKind, Task, TaskRow,
};
use crate::order::first_n;
use crate::rule::{keyed, keyed_rules, keyed_views, KeyedRule, KeyedView};
use crate::tally::{has_id, lemma_ids_where_has};
use crate::workers::claim_scan::{
    blocked_slot_is_used_up, claim_keeps_used_up, claim_queue, cursor_at, full, key_lt, keys_fit,
    lemma_rest_of_queue, lemma_sorted_where, same_after, scan_step, scan_trace, used_up,
    used_up_blocks_claim, Scan,
};
use crate::workers::propagation::unique_ids;
use vstd::prelude::*;

verus! {

/// Number of pending tasks loaded at a time.
pub const CLAIM_PAGE_SIZE: i64 = 500;

// ---------------------------------------------------------------------------
// Slots known to be full
// ---------------------------------------------------------------------------

/// What a scan has learned: for each concurrency slot that blocked a claim, the
/// greatest threshold that its use is known to have reached.
#[derive(Debug)]
pub struct EvaluationContext {
    /// Slot keys with their thresholds.
    pub ko: Vec<(String, i32)>,
}

impl View for EvaluationContext {
    type V = Seq<(Seq<char>, int)>;

    open spec fn view(&self) -> Seq<(Seq<char>, int)> {
        self.ko@.map_values(|p: (String, i32)| (p.0@, p.1 as int))
    }
}

/// The slot `key` is known to be full for a rule with this limit.
pub open spec fn known_full(ko: Seq<(Seq<char>, int)>, key: Seq<char>, limit: int) -> bool {
    exists|i: int| 0 <= i < ko.len() && (#[trigger] ko[i]).0 == key && limit <= ko[i].1
}

/// Everything known holds of the slots.
pub open spec fn ko_ok(ko: Seq<(Seq<char>, int)>, slots: Seq<SlotRow>) -> bool {
    forall|i: int| 0 <= i < ko.len() ==> used_up(slots, (#[trigger] ko[i]).0, ko[i].1)
}

impl EvaluationContext {
    /// Nothing is known.
    pub fn new() -> (r: Self)
        ensures
            r@.len() == 0,
    {
        EvaluationContext { ko: Vec::new() }
    }

    /// Whether the slot is known to be full for a rule with this limit.
    pub fn is_full(&self, key: &String, limit: i32) -> (r: bool)
        ensures
            r == known_full(self@, key@, limit as int),
    {
        let mut i: usize = 0;
        while i < self.ko.len()
            invariant
                i <= self.ko.len(),
                forall|k: int|
                    0 <= k < i ==> !((#[trigger] self@[k]).0 == key@ && limit <= self@[k].1),
            decreases self.ko.len() - i,
        {
            assert(self@[i as int] == (self.ko@[i as int].0@, self.ko@[i as int].1 as int));
            if self.ko[i].0 == *key && limit <= self.ko[i].1 {
                return true;
            }
            i += 1;
        }
        false
    }

    /// Learns that the use of the slot has reached `threshold`. The greatest one
    /// is kept: rules with higher limits have to be asked again.
    pub fn learn(&mut self, key: String, threshold: i32)
        ensures
            forall|k: Seq<char>, l: int| #[trigger]
                known_full(final(self)@, k, l) <==> known_full(old(self)@, k, l) || (k == key@ && l
                    <= threshold),
            forall|i: int|
                0 <= i < final(self)@.len() ==> old(self)@.contains(#[trigger] final(self)@[i])
                    || final(self)@[i] == (key@, threshold as int),
    {
        let ghost before = self@;
        let ghost name = key@;
        let mut i: usize = 0;
        while i < self.ko.len()
            invariant
                i <= self.ko.len(),
                self@ == before,
                *self == *old(self),
                forall|k: int| 0 <= k < i ==> (#[trigger] before[k]).0 != key@,
                name == key@,
            decreases self.ko.len() - i,
        {
            assert(self@[i as int] == (self.ko@[i as int].0@, self.ko@[i as int].1 as int));
            if self.ko[i].0 == key {
                if self.ko[i].1 < threshold {
                    let ghost old_ko = self.ko@;
                    self.ko[i].1 = threshold;
                    proof {
                        assert(self@ =~= before.update(i as int, (name, threshold as int)));
                        lemma_raised(before, self@, i as int, name, threshold as int);
                    }
                } else {
                    proof {
                        assert forall|k: Seq<char>, l: int| #[trigger]
                            known_full(before, k, l) || (k == name && l <= threshold)
                                <==> known_full(before, k, l) by {
                            assert(before[i as int].0 == name);
                        }
                        assert forall|j: int| 0 <= j < before.len() implies before.contains(
                            #[trigger] before[j],
                        ) by {}
                    }
                }
                return ;
            }
            i += 1;
        }
        self.ko.push((key, threshold));
        proof {
            assert(self@ =~= before.push((name, threshold as int)));
            let after = self@;
            assert forall|k: Seq<char>, l: int| #[trigger] known_full(after, k, l) <==> known_full(
                before,
                k,
                l,
            ) || (k == name && l <= threshold) by {
                if known_full(before, k, l) {
                    let j = choose|j: int|
                        0 <= j < before.len() && (#[trigger] before[j]).0 == k && l <= before[j].1;
                    assert(after[j].0 == k);
                }
                if k == name && l <= threshold {
                    assert(after[before.len() as int].0 == k);
                }
                if known_full(after, k, l) {
                    let j = choose|j: int|
                        0 <= j < after.len() && (#[trigger] after[j]).0 == k && l <= after[j].1;
                    if j < before.len() {
                        assert(before[j].0 == k);
                    }
                }
            }
            assert forall|j: int| 0 <= j < after.len() implies before.contains(#[trigger] after[j])
                || after[j] == (name, threshold as int) by {
                if j < before.len() {
                    assert(before[j] == after[j]);
                }
            }
        }
    }
}

proof fn lemma_raised(
    before: Seq<(Seq<char>, int)>,
    after: Seq<(Seq<char>, int)>,
    i: int,
    key: Seq<char>,
    threshold: int,
)
    requires
        0 <= i < before.len(),
        before[i].0 == key,
        before[i].1 < threshold,
        after == before.update(i, (key, threshold)),
    ensures
        forall|k: Seq<char>, l: int| #[trigger]
            known_full(after, k, l) <==> known_full(before, k, l) || (k == key && l <= threshold),
        forall|j: int|
            0 <= j < after.len() ==> before.contains(#[trigger] after[j]) || after[j] == (
                key,
                threshold,
            ),
{
    assert forall|k: Seq<char>, l: int| #[trigger] known_full(after, k, l) <==> known_full(
        before,
        k,
        l,
    ) || (k == key && l <= threshold) by {
        if known_full(before, k, l) {
            let j = choose|j: int|
                0 <= j < before.len() && (#[trigger] before[j]).0 == k && l <= before[j].1;
            assert(after[j].0 == k && l <= after[j].1);
        }
        if k == key && l <= threshold {
            assert(after[i].0 == k);
        }
        if known_full(after, k, l) {
            let j = choose|j: int|
                0 <= j < after.len() && (#[trigger] after[j]).0 == k && l <= after[j].1;
            if j != i {
                assert(before[j].0 == k);
            }
        }
    }
    assert forall|j: int| 0 <= j < after.len() implies before.contains(#[trigger] after[j])
        || after[j] == (key, threshold) by {
        if j != i {
            assert(before[j] == after[j]);
        }
    }
}

/// One of the rules is a concurrency rule on a slot that is known to be full.
pub open spec fn prefilter_blocked(
    rules: Seq<KeyedView>,
    ko: Seq<(Seq<char>, int)>,
) -> bool {
    exists|i: int|
        0 <= i < rules.len() && (#[trigger] rules[i]) is Concurency && rule_key(rules[i]) is Some
            && known_full(ko, rule_key(rules[i])->0, rule_limit(rules[i]))
}

/// Whether a task need not be asked about: a slot that it needs is known to be
/// full. Capacity depends on live progress and is always asked about.
pub fn is_prefilter_blocked(task: &Task, ctx: &EvaluationContext) -> (r: bool)
    ensures
        r == prefilter_blocked(keyed(task@), ctx@),
{
    let strategies: Vec<KeyedRule> = keyed_rules(task);
    let ghost rules = keyed(task@);
    let mut i: usize = 0;
    while i < strategies.len()
        invariant
            i <= strategies.len(),
            keyed_views(strategies@) == rules,
            rules == keyed(task@),
            rules.len() == strategies@.len(),
            forall|k: int|
                0 <= k < i ==> !((#[trigger] rules[k]) is Concurency && rule_key(rules[k]) is Some
                    && known_full(ctx@, rule_key(rules[k])->0, rule_limit(rules[k]))),
        decreases strategies.len() - i,
    {
        assert(rules[i as int] == strategies@[i as int]@);
        if !strategies[i].capacity {
            if let Some(key) = &strategies[i].key {
                if ctx.is_full(key, strategies[i].limit) {
                    return true;
                }
            }
        }
        i += 1;
    }
    false
}

// ---------------------------------------------------------------------------
// How often that was known
// ---------------------------------------------------------------------------

/// What is known once a slot blocked a claim, or none did.
pub open spec fn learned(
    ko: Seq<(Seq<char>, int)>,
    why: Option<(Seq<char>, int)>,
    after: Seq<(Seq<char>, int)>,
) -> bool {
    forall|k: Seq<char>, l: int| #[trigger]
        known_full(after, k, l) <==> known_full(ko, k, l) || (why is Some && k == (why->0).0 && l
            <= (why->0).1)
}

/// A scan has to find out whether the task can be claimed.
pub open spec fn in_question(a: Scan, t: TaskRow, cap: int) -> bool {
    !full(cap, a.claimed.len() as int) && t.rules.len() > 0 && room_for(a.slots, t)
}

/// It is known already that the task cannot be claimed.
pub open spec fn cache_hit(a: Scan, t: TaskRow, cap: int, ko: Seq<(Seq<char>, int)>) -> bool {
    in_question(a, t, cap) && prefilter_blocked(keyed(t), ko)
}

/// What one step of a scan adds to what is known: the slot that blocked a claim, where
/// one was tried.
pub open spec fn cache_step(
    a: Scan,
    t: TaskRow,
    cap: int,
    now: int,
    b: Scan,
    ko: Seq<(Seq<char>, int)>,
    after: Seq<(Seq<char>, int)>,
) -> bool {
    if in_question(a, t, cap) && !prefilter_blocked(keyed(t), ko) {
        exists|result: ClaimResult, why: Option<(Seq<char>, int)>|
            #[trigger] claim_outcome(
                a.tasks,
                a.slots,
                t,
                now,
                b.tasks,
                b.slots,
                result,
                why,
            ) && learned(ko, why, after)
    } else {
        after == ko
    }
}

/// `kos` is what is known in each state of a scan.
pub open spec fn cache_trace(
    trace: Seq<Scan>,
    kos: Seq<Seq<(Seq<char>, int)>>,
    queue: Seq<TaskRow>,
    cap: int,
    now: int,
) -> bool {
    &&& kos.len() == trace.len()
    &&& forall|k: int|
        0 <= k < trace.len() - 1 ==> cache_step(
            #[trigger] trace[k],
            queue[k],
            cap,
            now,
            trace[k + 1],
            kos[k],
            kos[k + 1],
        )
}

/// Of how many of the first `n` tasks it was known that they cannot be claimed.
pub open spec fn cache_hits(
    trace: Seq<Scan>,
    kos: Seq<Seq<(Seq<char>, int)>>,
    queue: Seq<TaskRow>,
    cap: int,
    n: int,
) -> int
    decreases n,
{
    if n <= 0 {
        0
    } else {
        cache_hits(trace, kos, queue, cap, n - 1) + if cache_hit(
            trace[n - 1],
            queue[n - 1],
            cap,
            kos[n - 1],
        ) {
            1int
        } else {
            0int
        }
    }
}

/// The count looks only at the states before it.
proof fn lemma_hits_same(
    trace: Seq<Scan>,
    kos: Seq<Seq<(Seq<char>, int)>>,
    more: Seq<Scan>,
    mkos: Seq<Seq<(Seq<char>, int)>>,
    queue: Seq<TaskRow>,
    cap: int,
    n: int,
)
    requires
        forall|k: int| 0 <= k < n ==> #[trigger] trace[k] == more[k] && kos[k] == mkos[k],
    ensures
        cache_hits(trace, kos, queue, cap, n) == cache_hits(more, mkos, queue, cap, n),
    decreases n,
{
    if n > 0 {
        lemma_hits_same(trace, kos, more, mkos, queue, cap, n - 1);
        assert(trace[n - 1] == more[n - 1]);
    }
}

/// One more step, and what it adds.
proof fn lemma_cache_push(
    trace: Seq<Scan>,
    kos: Seq<Seq<(Seq<char>, int)>>,
    queue: Seq<TaskRow>,
    cap: int,
    now: int,
    next: Scan,
    after: Seq<(Seq<char>, int)>,
)
    requires
        cache_trace(trace, kos, queue, cap, now),
        1 <= trace.len() <= queue.len(),
        cache_step(trace.last(), queue[trace.len() - 1], cap, now, next, kos.last(), after),
    ensures
        cache_trace(trace.push(next), kos.push(after), queue, cap, now),
        kos.push(after)[0] == kos[0],
        cache_hits(trace.push(next), kos.push(after), queue, cap, trace.len() as int)
            == cache_hits(trace, kos, queue, cap, trace.len() - 1) + if cache_hit(
            trace.last(),
            queue[trace.len() - 1],
            cap,
            kos.last(),
        ) {
            1int
        } else {
            0int
        },
{
    let more = trace.push(next);
    let mkos = kos.push(after);
    assert forall|k: int| 0 <= k < more.len() - 1 implies cache_step(
        #[trigger] more[k],
        queue[k],
        cap,
        now,
        more[k + 1],
        mkos[k],
        mkos[k + 1],
    ) by {
        if k < trace.len() - 1 {
            assert(more[k] == trace[k] && more[k + 1] == trace[k + 1]);
        }
    }
    lemma_hits_same(trace, kos, more, mkos, queue, cap, trace.len() - 1);
}

/// The counts of two scans, one after the other.
proof fn lemma_hits_concat(
    trace: Seq<Scan>,
    kos: Seq<Seq<(Seq<char>, int)>>,
    more: Seq<Scan>,
    mkos: Seq<Seq<(Seq<char>, int)>>,
    queue: Seq<TaskRow>,
    cap: int,
    n: int,
    m: int,
    len: int,
)
    requires
        0 <= n,
        0 <= m <= len,
        n + len <= queue.len(),
        trace.len() == n + 1,
        kos.len() == n + 1,
        more.len() == len + 1,
        mkos.len() == len + 1,
        more[0] == trace.last(),
        mkos[0] == kos.last(),
    ensures
        cache_hits(trace + more.skip(1), kos + mkos.skip(1), queue, cap, n + m) == cache_hits(
            trace,
            kos,
            queue,
            cap,
            n,
        ) + cache_hits(more, mkos, queue.subrange(n, n + len), cap, m),
    decreases m,
{
    let r = trace + more.skip(1);
    let rk = kos + mkos.skip(1);
    if m == 0 {
        lemma_hits_same(r, rk, trace, kos, queue, cap, n);
    } else {
        lemma_hits_concat(trace, kos, more, mkos, queue, cap, n, m - 1, len);
        assert(r[n + m - 1] == more[m - 1]);
        assert(rk[n + m - 1] == mkos[m - 1]);
        assert(queue.subrange(n, n + len)[m - 1] == queue[n + m - 1]);
    }
}

/// What is known in two scans, one after the other.
proof fn lemma_cache_concat(
    trace: Seq<Scan>,
    kos: Seq<Seq<(Seq<char>, int)>>,
    more: Seq<Scan>,
    mkos: Seq<Seq<(Seq<char>, int)>>,
    queue: Seq<TaskRow>,
    cap: int,
    now: int,
    n: int,
    m: int,
)
    requires
        0 <= n,
        0 <= m,
        n + m <= queue.len(),
        cache_trace(trace, kos, queue, cap, now),
        trace.len() == n + 1,
        cache_trace(more, mkos, queue.subrange(n, n + m), cap, now),
        more.len() == m + 1,
        more[0] == trace.last(),
        mkos[0] == kos.last(),
    ensures
        cache_trace(trace + more.skip(1), kos + mkos.skip(1), queue, cap, now),
        (kos + mkos.skip(1))[0] == kos[0],
        (kos + mkos.skip(1)).last() == mkos.last(),
{
    let r = trace + more.skip(1);
    let rk = kos + mkos.skip(1);
    assert forall|k: int| 0 <= k < r.len() - 1 implies cache_step(
        #[trigger] r[k],
        queue[k],
        cap,
        now,
        r[k + 1],
        rk[k],
        rk[k + 1],
    ) by {
        if k < n {
            assert(r[k] == trace[k] && r[k + 1] == trace[k + 1]);
        } else {
            let j = k - n;
            assert(r[k] == more[j] && r[k + 1] == more[j + 1]);
            assert(rk[k] == mkos[j] && rk[k + 1] == mkos[j + 1]);
            assert(queue.subrange(n, n + m)[j] == queue[k]);
        }
    }
}

/// Once enough are claimed, nothing more is asked.
proof fn lemma_cache_rest(
    trace: Seq<Scan>,
    kos: Seq<Seq<(Seq<char>, int)>>,
    whole: Seq<Scan>,
    queue: Seq<TaskRow>,
    cap: int,
    now: int,
) -> (r: Seq<Seq<(Seq<char>, int)>>)
    requires
        cache_trace(trace, kos, queue, cap, now),
        1 <= trace.len() <= queue.len() + 1,
        whole.len() == queue.len() + 1,
        forall|k: int| 0 <= k < trace.len() ==> #[trigger] whole[k] == trace[k],
        forall|k: int| trace.len() <= k < whole.len() ==> #[trigger] whole[k] == trace.last(),
        full(cap, trace.last().claimed.len() as int) || trace.len() == queue.len() + 1,
    ensures
        cache_trace(whole, r, queue, cap, now),
        r[0] == kos[0],
        cache_hits(whole, r, queue, cap, queue.len() as int) == cache_hits(
            trace,
            kos,
            queue,
            cap,
            trace.len() - 1,
        ),
{
    let r = Seq::new(
        whole.len(),
        |k: int|
            if k < kos.len() {
                kos[k]
            } else {
                kos.last()
            },
    );
    assert forall|k: int| 0 <= k < whole.len() - 1 implies cache_step(
        #[trigger] whole[k],
        queue[k],
        cap,
        now,
        whole[k + 1],
        r[k],
        r[k + 1],
    ) by {
        if k < trace.len() - 1 {
            assert(whole[k] == trace[k] && whole[k + 1] == trace[k + 1]);
            assert(cache_step(trace[k], queue[k], cap, now, trace[k + 1], kos[k], kos[k + 1]));
        } else {
            assert(whole[k] == trace.last());
        }
    }
    lemma_hits_same(trace, kos, whole, r, queue, cap, trace.len() - 1);
    lemma_no_hits(whole, r, queue, cap, trace.len() - 1, queue.len() as int);
    r
}

proof fn lemma_no_hits(
    trace: Seq<Scan>,
    kos: Seq<Seq<(Seq<char>, int)>>,
    queue: Seq<TaskRow>,
    cap: int,
    n: int,
    m: int,
)
    requires
        0 <= n <= m,
        forall|k: int| n <= k < m ==> full(cap, (#[trigger] trace[k]).claimed.len() as int),
    ensures
        cache_hits(trace, kos, queue, cap, m) == cache_hits(trace, kos, queue, cap, n),
    decreases m,
{
    if n < m {
        lemma_no_hits(trace, kos, queue, cap, n, m - 1);
        assert(full(cap, trace[m - 1].claimed.len() as int));
    }
}

/// After `j` pages another one is read: they were complete, and not enough is claimed.
pub open spec fn reads_on(
    trace: Seq<Scan>,
    queue: Seq<TaskRow>,
    cap: int,
    size: int,
    j: int,
) -> bool {
    j * size <= queue.len() && !full(cap, trace[j * size].claimed.len() as int)
}

/// A scan reads `n` pages of `size` tasks: at least one, and no more than it needs.
pub open spec fn pages_read(
    trace: Seq<Scan>,
    queue: Seq<TaskRow>,
    cap: int,
    size: int,
    n: int,
) -> bool {
    &&& n >= 1
    &&& forall|j: int| 1 <= j < n ==> #[trigger] reads_on(trace, queue, cap, size, j)
    &&& !reads_on(trace, queue, cap, size, n)
}

// ---------------------------------------------------------------------------
// Claiming runs of tasks without rules
// ---------------------------------------------------------------------------

/// The identifiers of rows.
pub open spec fn ids_of(s: Seq<TaskRow>) -> Seq<u128> {
    s.map_values(|t: TaskRow| t.id)
}

/// How many of `n` tasks may still be claimed.
pub open spec fn budget(cap: int, claimed: int, n: int) -> int {
    let left = if cap - claimed < 0 {
        0
    } else {
        cap - claimed
    };
    if cap > 0 && left < n {
        left
    } else {
        n
    }
}

/// Claims a run of tasks without rules in one step, within the cap; the rest stay
/// pending. The run is empty afterwards. Tasks that are not pending any more are
/// passed over.
pub fn flush_batch(
    tasks: &mut Vec<Task>,
    batch: &mut Vec<Task>,
    claimed: &mut Vec<Task>,
    claim_cap: i64,
    now: i64,
)
    ensures
        ({
            let n = budget(claim_cap as int, old(claimed)@.len() as int, old(batch)@.len() as int);
            let run = rows(old(batch)@).take(n);
            &&& rows(final(tasks)@) == rows(old(tasks)@).map_values(
                claim_row(ids_of(run), now as int),
            )
            &&& rows(final(claimed)@) == rows(old(claimed)@) + run.filter(
                still_pending(rows(old(tasks)@)),
            )
        }),
        final(batch)@.len() == 0,
{
    let ghost ts = rows(tasks@);
    let ghost first = rows(claimed@);
    let ghost all = rows(batch@);
    let mut run: Vec<Task> = Vec::new();
    std::mem::swap(&mut run, batch);
    if claim_cap > 0 {
        let left: i128 = claim_cap as i128 - claimed.len() as i128;
        let remaining: usize = if left <= 0 {
            0
        } else if left > run.len() as i128 {
            run.len()
        } else {
            left as usize
        };
        if run.len() > remaining {
            run.truncate(remaining);
        }
    }
    let ghost some = rows(run@);
    proof {
        let n = budget(claim_cap as int, claimed@.len() as int, all.len() as int);
        assert(some =~= all.take(n));
    }
    let mut ids: Vec<u128> = Vec::new();
    let mut i: usize = 0;
    while i < run.len()
        invariant
            i <= run.len(),
            some == rows(run@),
            ids@ =~= ids_of(some).take(i as int),
        decreases run.len() - i,
    {
        assert(some[i as int] == run@[i as int]@);
        ids.push(run[i].id);
        i += 1;
    }
    assert(ids@ =~= ids_of(some));
    let won: Vec<u128> = batch_claim_tasks(tasks, &ids, now);
    let ghost p = still_pending(ts);
    let ghost mut n: int = 0;
    proof {
        reveal(Seq::filter);
        assert(first + some.take(0).filter(p) =~= first);
        assert forall|k: int| 0 <= k < some.len() implies (won@.contains((#[trigger] some[k]).id)
            <==> p(some[k])) by {
            lemma_ids_where_has(ts, pending_among(ids@), some[k].id);
            assert(ids_of(some)[k] == some[k].id);
            assert(ids@.contains(some[k].id));
            if p(some[k]) {
                let w = choose|w: int|
                    0 <= w < ts.len() && #[trigger] ts[w].id == some[k].id && ts[w].status
                        == StatusKind::Pending;
                assert(pending_among(ids@)(ts[w]));
            }
            if won@.contains(some[k].id) {
                let w = choose|w: int|
                    0 <= w < ts.len() && #[trigger] ts[w].id == some[k].id && pending_among(ids@)(
                        ts[w],
                    );
                assert(ts[w].status == StatusKind::Pending);
            }
        }
    }
    for t in it: run
        invariant
            it.seq() == run@,
            n == it.index(),
            some == rows(run@),
            p == still_pending(ts),
            forall|k: int|
                0 <= k < some.len() ==> (won@.contains((#[trigger] some[k]).id) <==> p(some[k])),
            rows(claimed@) == first + some.take(n).filter(p),
    {
        proof {
            crate::tally::lemma_filter_take(some, p, n);
            assert(some[n] == t@);
        }
        if has_id(&won, t.id) {
            proof {
                assert(rows(claimed@.push(t)) =~= rows(claimed@).push(t@));
                assert((first + some.take(n).filter(p)).push(t@) =~= first + some.take(
                    n,
                ).filter(p).push(t@));
            }
            claimed.push(t);
        }
        proof {
            n = n + 1;
        }
    }
    assert(some.take(n) =~= some);
}

/// The tasks that are pending among `tasks`.
pub open spec fn still_pending(tasks: Seq<TaskRow>) -> spec_fn(TaskRow) -> bool {
    |t: TaskRow| has_status(tasks, t.id, StatusKind::Pending)
}

// ---------------------------------------------------------------------------
// Claiming a page
// ---------------------------------------------------------------------------

/// Only tasks of `ids` changed, and in nothing that orders them.
pub open spec fn touched_only(a: Seq<TaskRow>, b: Seq<TaskRow>, ids: Seq<u128>) -> bool {
    &&& b.len() == a.len()
    &&& forall|i: int|
        0 <= i < a.len() ==> {
            &&& (#[trigger] b[i]).id == a[i].id
            &&& b[i].priority == a[i].priority
            &&& b[i].created_at == a[i].created_at
            &&& b[i] == a[i] || ids.contains(a[i].id)
        }
}

/// The rows are pending tasks of `tasks`, each once.
pub open spec fn listed(tasks: Seq<TaskRow>, page: Seq<TaskRow>) -> bool {
    &&& forall|k: int|
        0 <= k < page.len() ==> tasks.contains(#[trigger] page[k]) && page[k].status
            == StatusKind::Pending
    &&& forall|k: int, l: int|
        0 <= k < page.len() && 0 <= l < page.len() && #[trigger] page[k].id
            == #[trigger] page[l].id ==> k == l
}

/// A claim touches only its task.
proof fn lemma_claim_touches(
    tasks: Seq<TaskRow>,
    slots: Seq<SlotRow>,
    t: TaskRow,
    now: int,
    after_tasks: Seq<TaskRow>,
    after_slots: Seq<SlotRow>,
    result: ClaimResult,
    blocked: Option<(Seq<char>, int)>,
)
    requires
        claim_outcome(tasks, slots, t, now, after_tasks, after_slots, result, blocked),
    ensures
        touched_only(tasks, after_tasks, seq![t.id]),
{
    assert(seq![t.id][0] == t.id);
    assert forall|i: int| 0 <= i < tasks.len() implies (tasks[i].id == t.id) == seq![
        t.id,
    ].contains(#[trigger] tasks[i].id) by {}
    if t.rules.len() > 0 && !exists|i: int|
        0 <= i < keyed(t).len() && !evaluable(#[trigger] keyed(t)[i], t.expected_count) {
        let wanted = choose|wanted: Seq<SlotAsk>| #[trigger]
            slots_of(keyed(t), charge(t), wanted) && claim_outcome_with(
                tasks,
                slots,
                t,
                wanted,
                now,
                after_tasks,
                after_slots,
                result,
                blocked,
            );
    }
}

/// Claiming one more task of a run.
proof fn lemma_claim_one_more(tasks: Seq<TaskRow>, ids: Seq<u128>, id: u128, now: int)
    ensures
        tasks.map_values(claim_row(ids, now)).map_values(claim_row(seq![id], now))
            =~= tasks.map_values(claim_row(ids.push(id), now)),
{
    let a = tasks.map_values(claim_row(ids, now)).map_values(claim_row(seq![id], now));
    let b = tasks.map_values(claim_row(ids.push(id), now));
    assert(seq![id][0] == id);
    assert forall|i: int| 0 <= i < tasks.len() implies #[trigger] a[i] == b[i] by {
        let x = tasks[i].id;
        assert(ids.push(id).contains(x) <==> ids.contains(x) || x == id) by {
            if ids.contains(x) {
                let k = choose|k: int| 0 <= k < ids.len() && ids[k] == x;
                assert(ids.push(id)[k] == x);
            }
            if x == id {
                assert(ids.push(id)[ids.len() as int] == x);
            }
        }
        assert(seq![id].contains(x) <==> x == id);
    }
}

proof fn lemma_no_claims(tasks: Seq<TaskRow>, now: int)
    ensures
        tasks.map_values(claim_row(Seq::empty(), now)) =~= tasks,
{
}

/// A scan of `queue` has come as far as `trace` goes.
pub open spec fn part_trace(trace: Seq<Scan>, queue: Seq<TaskRow>, cap: int, now: int) -> bool {
    &&& 1 <= trace.len() <= queue.len() + 1
    &&& forall|k: int|
        0 <= k < trace.len() - 1 ==> scan_step(
            #[trigger] trace[k],
            queue[k],
            cap,
            now,
            trace[k + 1],
        )
}

/// One more step of a scan.
proof fn lemma_trace_push(
    trace: Seq<Scan>,
    queue: Seq<TaskRow>,
    cap: int,
    now: int,
    next: Scan,
)
    requires
        part_trace(trace, queue, cap, now),
        trace.len() <= queue.len(),
        scan_step(trace.last(), queue[trace.len() - 1], cap, now, next),
    ensures
        part_trace(trace.push(next), queue, cap, now),
        trace.push(next)[0] == trace[0],
        trace.push(next).last() == next,
{
    let more = trace.push(next);
    assert forall|k: int| 0 <= k < more.len() - 1 implies scan_step(
        #[trigger] more[k],
        queue[k],
        cap,
        now,
        more[k + 1],
    ) by {
        if k < trace.len() - 1 {
            assert(more[k] == trace[k]);
            assert(more[k + 1] == trace[k + 1]);
        }
    }
}

/// Once enough are claimed, the rest of a scan changes nothing.
proof fn lemma_rest_of_trace(trace: Seq<Scan>, queue: Seq<TaskRow>, cap: int, now: int) -> (r: Seq<
    Scan,
>)
    requires
        part_trace(trace, queue, cap, now),
        full(cap, trace.last().claimed.len() as int) || trace.len() == queue.len() + 1,
    ensures
        scan_trace(r, queue, cap, now),
        forall|k: int| 0 <= k < trace.len() ==> #[trigger] r[k] == trace[k],
        forall|k: int| trace.len() <= k < r.len() ==> #[trigger] r[k] == trace.last(),
    decreases queue.len() + 1 - trace.len(),
{
    if trace.len() == queue.len() + 1 {
        trace
    } else {
        let more = trace.push(trace.last());
        assert forall|k: int| 0 <= k < more.len() - 1 implies scan_step(
            #[trigger] more[k],
            queue[k],
            cap,
            now,
            more[k + 1],
        ) by {
            if k < trace.len() - 1 {
                assert(more[k] == trace[k]);
                assert(more[k + 1] == trace[k + 1]);
            }
        }
        let r = lemma_rest_of_trace(more, queue, cap, now);
        assert forall|k: int| 0 <= k < trace.len() implies #[trigger] r[k] == trace[k] by {
            assert(r[k] == more[k]);
        }
        assert(r[trace.len() as int] == more[trace.len() as int]);
        r
    }
}

/// The state of a scan, where the tasks `batch` are claimed but not written yet.
pub open spec fn scan_state(
    tasks: Seq<TaskRow>,
    slots: Seq<SlotRow>,
    claimed: Seq<TaskRow>,
    batch: Seq<TaskRow>,
    blocked: int,
    now: int,
) -> Scan {
    Scan {
        tasks: tasks.map_values(claim_row(ids_of(batch), now)),
        slots,
        claimed: claimed + batch,
        blocked,
    }
}

/// Writing the claims of a run leaves the state as it was.
proof fn lemma_flushed(
    tasks: Seq<TaskRow>,
    after: Seq<TaskRow>,
    slots: Seq<SlotRow>,
    claimed: Seq<TaskRow>,
    after_claimed: Seq<TaskRow>,
    batch: Seq<TaskRow>,
    blocked: int,
    cap: int,
    now: int,
)
    requires
        cap > 0 ==> claimed.len() + batch.len() <= cap,
        forall|k: int|
            0 <= k < batch.len() ==> has_status(
                tasks,
                (#[trigger] batch[k]).id,
                StatusKind::Pending,
            ),
        ({
            let run = batch.take(budget(cap, claimed.len() as int, batch.len() as int));
            &&& after == tasks.map_values(claim_row(ids_of(run), now))
            &&& after_claimed == claimed + run.filter(still_pending(tasks))
        }),
    ensures
        scan_state(tasks, slots, claimed, batch, blocked, now) == scan_state(
            after,
            slots,
            after_claimed,
            Seq::empty(),
            blocked,
            now,
        ),
        after_claimed.len() == claimed.len() + batch.len(),
{
    assert(batch.take(batch.len() as int) =~= batch);
    lemma_all_kept(batch, still_pending(tasks));
    lemma_no_claims(after, now);
    assert(ids_of(Seq::empty()) =~= Seq::<u128>::empty());
    assert(after_claimed + Seq::<TaskRow>::empty() =~= after_claimed);
}

proof fn lemma_all_kept(s: Seq<TaskRow>, p: spec_fn(TaskRow) -> bool)
    requires
        forall|i: int| 0 <= i < s.len() ==> p(#[trigger] s[i]),
    ensures
        s.filter(p) == s,
    decreases s.len(),
{
    reveal(Seq::filter);
    if s.len() > 0 {
        assert forall|i: int| 0 <= i < s.drop_last().len() implies p(
            #[trigger] s.drop_last()[i],
        ) by {
            assert(p(s[i]));
        }
        lemma_all_kept(s.drop_last(), p);
        assert(p(s[s.len() - 1]));
        assert(s.drop_last().push(s.last()) =~= s);
    }
}

proof fn lemma_touched_trans(a: Seq<TaskRow>, b: Seq<TaskRow>, c: Seq<TaskRow>, x: Seq<u128>, y: Seq<
    u128,
>, z: Seq<u128>)
    requires
        touched_only(a, b, x),
        touched_only(b, c, y),
        forall|id: u128| x.contains(id) || y.contains(id) ==> #[trigger] z.contains(id),
    ensures
        touched_only(a, c, z),
{
    assert forall|i: int| 0 <= i < a.len() implies {
        &&& (#[trigger] c[i]).id == a[i].id
        &&& c[i].priority == a[i].priority
        &&& c[i].created_at == a[i].created_at
        &&& c[i] == a[i] || z.contains(a[i].id)
    } by {
        assert(b[i].id == a[i].id);
    }
}

proof fn lemma_claims_touch(tasks: Seq<TaskRow>, ids: Seq<u128>, now: int)
    ensures
        touched_only(tasks, tasks.map_values(claim_row(ids, now)), ids),
{
}

proof fn lemma_unique_touched(a: Seq<TaskRow>, b: Seq<TaskRow>, ids: Seq<u128>)
    requires
        unique_ids(a),
        touched_only(a, b, ids),
    ensures
        unique_ids(b),
{
    assert forall|i: int, j: int|
        0 <= i < b.len() && 0 <= j < b.len() && #[trigger] b[i].id == #[trigger] b[j].id implies i
        == j by {
        assert(a[i].id == a[j].id);
    }
}

/// A listed task that no claim touched yet is pending.
proof fn lemma_untouched_pending(
    start: Seq<TaskRow>,
    tasks: Seq<TaskRow>,
    page: Seq<TaskRow>,
    n: int,
    k: int,
)
    requires
        listed(start, page),
        touched_only(start, tasks, ids_of(page.take(n))),
        0 <= n <= k < page.len(),
    ensures
        has_status(tasks, page[k].id, StatusKind::Pending),
{
    assert(start.contains(page[k]));
    let i = choose|i: int| 0 <= i < start.len() && start[i] == page[k];
    let some = ids_of(page.take(n));
    if some.contains(page[k].id) {
        let j = choose|j: int| 0 <= j < some.len() && some[j] == page[k].id;
        assert(page[j].id == page[k].id);
    }
    assert(tasks[i].id == start[i].id);
    assert(tasks[i].id == page[k].id && tasks[i].status == StatusKind::Pending);
}

/// Where the look at a page stands after `n` of its tasks: what was done is a scan
/// of those tasks, where the last ones of them, `batch`, are not written yet.
pub open spec fn page_state(
    start: Scan,
    list: Seq<TaskRow>,
    n: int,
    now_at: Scan,
    batch: Seq<TaskRow>,
    cap: int,
    now: int,
    trace: Seq<Scan>,
) -> bool {
    let done = n - batch.len();
    &&& 0 <= done <= n <= list.len()
    &&& part_trace(trace, list, cap, now)
    &&& trace.len() == n + 1
    &&& trace[0] == start
    &&& trace.last() == scan_state(
        now_at.tasks,
        now_at.slots,
        now_at.claimed,
        batch,
        now_at.blocked,
        now,
    )
    &&& cap > 0 ==> now_at.claimed.len() + batch.len() <= cap
    &&& forall|k: int|
        0 <= k < batch.len() ==> has_status(
            now_at.tasks,
            (#[trigger] batch[k]).id,
            StatusKind::Pending,
        )
    &&& touched_only(start.tasks, now_at.tasks, ids_of(list.take(n)))
    &&& forall|k: int|
        n <= k < list.len() ==> has_status(
            now_at.tasks,
            (#[trigger] list[k]).id,
            StatusKind::Pending,
        )
    &&& forall|k: int|
        0 <= k < batch.len() ==> ids_of(list.take(n)).contains((#[trigger] batch[k]).id)
}

proof fn lemma_page_start(start: Scan, list: Seq<TaskRow>, cap: int, now: int)
    requires
        listed(start.tasks, list),
        cap > 0 ==> start.claimed.len() <= cap,
    ensures
        page_state(start, list, 0, start, Seq::empty(), cap, now, seq![start]),
{
    let none = Seq::<TaskRow>::empty();
    lemma_no_claims(start.tasks, now);
    assert(ids_of(none) =~= Seq::<u128>::empty());
    assert(start.claimed + none =~= start.claimed);
    assert(scan_state(
        start.tasks,
        start.slots,
        start.claimed,
        none,
        start.blocked,
        now,
    ) =~= start);
    assert forall|k: int| 0 <= k < list.len() implies has_status(
        start.tasks,
        (#[trigger] list[k]).id,
        StatusKind::Pending,
    ) by {
        assert(start.tasks.contains(list[k]));
        let i = choose|i: int| 0 <= i < start.tasks.len() && start.tasks[i] == list[k];
        assert(start.tasks[i].id == list[k].id && start.tasks[i].status == StatusKind::Pending);
    }
}

proof fn lemma_ids_grow(list: Seq<TaskRow>, n: int)
    requires
        0 <= n < list.len(),
    ensures
        forall|id: u128|
            ids_of(list.take(n)).contains(id) ==> #[trigger] ids_of(list.take(n + 1)).contains(id),
        ids_of(list.take(n + 1)).contains(list[n].id),
{
    let a = ids_of(list.take(n));
    let b = ids_of(list.take(n + 1));
    assert(b[n] == list[n].id);
    assert forall|id: u128| a.contains(id) implies #[trigger] b.contains(id) by {
        let k = choose|k: int| 0 <= k < a.len() && a[k] == id;
        assert(b[k] == id);
    }
}

/// Enough are claimed: the next task is passed over.
proof fn lemma_page_skip(
    start: Scan,
    list: Seq<TaskRow>,
    n: int,
    s: Scan,
    batch: Seq<TaskRow>,
    cap: int,
    now: int,
    trace: Seq<Scan>,
)
    requires
        page_state(start, list, n, s, batch, cap, now, trace),
        n < list.len(),
        full(cap, (s.claimed.len() + batch.len()) as int),
        batch.len() < n + 1,
    ensures
        page_state(
            start,
            list,
            n + 1,
            s,
            batch,
            cap,
            now,
            trace.push(trace.last()),
        ),
{
    lemma_trace_push(trace, list, cap, now, trace.last());
    lemma_ids_grow(list, n);
    assert forall|i: int| 0 <= i < start.tasks.len() implies {
        &&& (#[trigger] s.tasks[i]).id == start.tasks[i].id
        &&& s.tasks[i].priority == start.tasks[i].priority
        &&& s.tasks[i].created_at == start.tasks[i].created_at
        &&& s.tasks[i] == start.tasks[i] || ids_of(list.take(n + 1)).contains(start.tasks[i].id)
    } by {}
}

/// The next task has no rules: it joins the run.
proof fn lemma_page_free(
    start: Scan,
    list: Seq<TaskRow>,
    n: int,
    s: Scan,
    batch: Seq<TaskRow>,
    cap: int,
    now: int,
    trace: Seq<Scan>,
) -> (next: Scan)
    requires
        page_state(start, list, n, s, batch, cap, now, trace),
        n < list.len(),
        !full(cap, (s.claimed.len() + batch.len()) as int),
        list[n].rules.len() == 0,
    ensures
        page_state(
            start,
            list,
            n + 1,
            s,
            batch.push(list[n]),
            cap,
            now,
            trace.push(next),
        ),
{
    let t = list[n];
    let more = batch.push(t);
    let next = scan_state(s.tasks, s.slots, s.claimed, more, s.blocked, now);
    lemma_claim_one_more(s.tasks, ids_of(batch), t.id, now);
    assert(ids_of(more) =~= ids_of(batch).push(t.id));
    assert(s.claimed + more =~= (s.claimed + batch).push(t));
    assert(scan_step(trace.last(), t, cap, now, next));
    lemma_trace_push(trace, list, cap, now, next);
    lemma_ids_grow(list, n);
    assert forall|i: int| 0 <= i < start.tasks.len() implies {
        &&& (#[trigger] s.tasks[i]).id == start.tasks[i].id
        &&& s.tasks[i].priority == start.tasks[i].priority
        &&& s.tasks[i].created_at == start.tasks[i].created_at
        &&& s.tasks[i] == start.tasks[i] || ids_of(list.take(n + 1)).contains(start.tasks[i].id)
    } by {}
    assert forall|k: int| 0 <= k < more.len() implies has_status(
        s.tasks,
        (#[trigger] more[k]).id,
        StatusKind::Pending,
    ) && ids_of(list.take(n + 1)).contains(more[k].id) by {
        if k < batch.len() {
            assert(more[k] == batch[k]);
        }
    }
    next
}

/// The run is written.
proof fn lemma_page_flush(
    start: Scan,
    list: Seq<TaskRow>,
    n: int,
    s: Scan,
    batch: Seq<TaskRow>,
    cap: int,
    now: int,
    trace: Seq<Scan>,
    after: Scan,
)
    requires
        listed(start.tasks, list),
        page_state(start, list, n, s, batch, cap, now, trace),
        after.slots == s.slots,
        after.blocked == s.blocked,
        ({
            let run = batch.take(budget(cap, s.claimed.len() as int, batch.len() as int));
            &&& after.tasks == s.tasks.map_values(claim_row(ids_of(run), now))
            &&& after.claimed == s.claimed + run.filter(still_pending(s.tasks))
        }),
    ensures
        page_state(start, list, n, after, Seq::empty(), cap, now, trace),
        trace.last() == after,
        after.claimed.len() == s.claimed.len() + batch.len(),
{
    let none = Seq::<TaskRow>::empty();
    lemma_flushed(
        s.tasks,
        after.tasks,
        s.slots,
        s.claimed,
        after.claimed,
        batch,
        s.blocked,
        cap,
        now,
    );
    assert(batch.take(batch.len() as int) =~= batch);
    lemma_claims_touch(s.tasks, ids_of(batch), now);
    assert forall|id: u128|
        ids_of(list.take(n)).contains(id) || ids_of(batch).contains(id) implies #[trigger] ids_of(
        list.take(n),
    ).contains(id) by {
        if ids_of(batch).contains(id) {
            let k = choose|k: int| 0 <= k < ids_of(batch).len() && ids_of(batch)[k] == id;
            assert(batch[k].id == id);
        }
    }
    lemma_touched_trans(
        start.tasks,
        s.tasks,
        after.tasks,
        ids_of(list.take(n)),
        ids_of(batch),
        ids_of(list.take(n)),
    );
    lemma_no_claims(after.tasks, now);
    assert(ids_of(none) =~= Seq::<u128>::empty());
    assert(after.claimed + none =~= after.claimed);
    assert(scan_state(
        after.tasks,
        after.slots,
        after.claimed,
        none,
        after.blocked,
        now,
    ) =~= after);
    assert forall|k: int| n <= k < list.len() implies has_status(
        after.tasks,
        (#[trigger] list[k]).id,
        StatusKind::Pending,
    ) by {
        lemma_untouched_pending(start.tasks, after.tasks, list, n, k);
    }
}

/// The next task has rules: it was claimed, or not.
proof fn lemma_page_ruled(
    start: Scan,
    list: Seq<TaskRow>,
    n: int,
    s: Scan,
    cap: int,
    now: int,
    trace: Seq<Scan>,
    after: Scan,
)
    requires
        listed(start.tasks, list),
        page_state(start, list, n, s, Seq::empty(), cap, now, trace),
        trace.last() == s,
        n < list.len(),
        scan_step(s, list[n], cap, now, after),
        touched_only(s.tasks, after.tasks, seq![list[n].id]),
        cap > 0 ==> after.claimed.len() <= cap,
    ensures
        page_state(start, list, n + 1, after, Seq::empty(), cap, now, trace.push(after)),
{
    let none = Seq::<TaskRow>::empty();
    lemma_trace_push(trace, list, cap, now, after);
    lemma_next_id(list, n);
    lemma_touched_trans(
        start.tasks,
        s.tasks,
        after.tasks,
        ids_of(list.take(n)),
        seq![list[n].id],
        ids_of(list.take(n + 1)),
    );
    lemma_no_claims(after.tasks, now);
    assert(ids_of(none) =~= Seq::<u128>::empty());
    assert(after.claimed + none =~= after.claimed);
    assert(scan_state(
        after.tasks,
        after.slots,
        after.claimed,
        none,
        after.blocked,
        now,
    ) =~= after);
    assert forall|k: int| n + 1 <= k < list.len() implies has_status(
        after.tasks,
        (#[trigger] list[k]).id,
        StatusKind::Pending,
    ) by {
        lemma_untouched_pending(start.tasks, after.tasks, list, n + 1, k);
    }
}

/// The rows that a scan works on.
pub open spec fn scan_of(
    tasks: Seq<Task>,
    slots: Seq<RuleSlot>,
    claimed: Seq<Task>,
    blocked: usize,
) -> Scan {
    Scan {
        tasks: rows(tasks),
        slots: slot_rows(slots),
        claimed: rows(claimed),
        blocked: blocked as int,
    }
}

/// A scan of the listed tasks leads from one state to another, and from what is known of
/// full slots to what is known then, with so many tasks that need not be asked about.
#[verifier::opaque]
pub open spec fn page_scanned(
    list: Seq<TaskRow>,
    cap: int,
    now: int,
    from: Scan,
    to: Scan,
    ko: Seq<(Seq<char>, int)>,
    after: Seq<(Seq<char>, int)>,
    hits: int,
) -> bool {
    exists|trace: Seq<Scan>, kos: Seq<Seq<(Seq<char>, int)>>|
        {
            &&& #[trigger] scan_trace(trace, list, cap, now)
            &&& #[trigger] cache_trace(trace, kos, list, cap, now)
            &&& kos[0] == ko
            &&& kos.last() == after
            &&& hits == cache_hits(trace, kos, list, cap, list.len() as int)
            &&& trace[0] == from
            &&& trace.last() == to
        }
}

/// Looks at the tasks of a page in order. Runs of tasks without rules are claimed
/// in one step, never across a task with rules, so that a task with rules is not
/// blocked by tasks that come after it. Returns whether enough are claimed.
pub fn claim_page(
    tasks: &mut Vec<Task>,
    slots: &mut Vec<RuleSlot>,
    page: Vec<Task>,
    ctx: &mut EvaluationContext,
    claimed: &mut Vec<Task>,
    blocked: &mut usize,
    hits: &mut usize,
    claim_cap: i64,
    now: i64,
) -> (r: bool)
    requires
        unique_ids(rows(old(tasks)@)),
        listed(rows(old(tasks)@), rows(page@)),
        ko_ok(old(ctx)@, slot_rows(old(slots)@)),
        claim_cap > 0 ==> old(claimed)@.len() <= claim_cap,
        *old(blocked) + page@.len() <= usize::MAX,
        *old(hits) + page@.len() <= usize::MAX,
    ensures
        r == full(claim_cap as int, final(claimed)@.len() as int),
        claim_cap > 0 ==> final(claimed)@.len() <= claim_cap,
        page_scanned(
            rows(page@),
            claim_cap as int,
            now as int,
            scan_of(old(tasks)@, old(slots)@, old(claimed)@, *old(blocked)),
            scan_of(final(tasks)@, final(slots)@, final(claimed)@, *final(blocked)),
            old(ctx)@,
            final(ctx)@,
            *final(hits) - *old(hits),
        ),
        touched_only(rows(old(tasks)@), rows(final(tasks)@), ids_of(rows(page@))),
        ko_ok(final(ctx)@, slot_rows(final(slots)@)),
        *final(blocked) <= *old(blocked) + page@.len(),
        *final(hits) <= *old(hits) + page@.len(),
{
    let ghost list = rows(page@);
    let ghost cap = claim_cap as int;
    let ghost at = now as int;
    let ghost start = scan_of(tasks@, slots@, claimed@, *blocked);
    let ghost all = page@;
    let ghost blocked0 = *blocked;
    let ghost hits0 = *hits;
    let ghost mut kos: Seq<Seq<(Seq<char>, int)>> = seq![ctx@];
    let mut batch: Vec<Task> = Vec::new();
    let ghost mut trace: Seq<Scan> = seq![start];
    let ghost mut n: int = 0;
    proof {
        lemma_page_start(start, list, cap, at);
        assert(rows(batch@) =~= Seq::empty());
    }
    for t in it: page
        invariant
            it.seq() == all,
            n == it.index(),
            list == rows(all),
            cap == claim_cap,
            at == now,
            unique_ids(start.tasks),
            listed(start.tasks, list),
            page_state(
                start,
                list,
                n,
                scan_of(tasks@, slots@, claimed@, *blocked),
                rows(batch@),
                cap,
                at,
                trace,
            ),
            ko_ok(ctx@, slot_rows(slots@)),
            *blocked <= blocked0 + n,
            blocked0 + all.len() <= usize::MAX,
            cache_trace(trace, kos, list, cap, at),
            kos[0] == old(ctx)@,
            kos.last() == ctx@,
            *hits == hits0 + cache_hits(trace, kos, list, cap, n),
            *hits <= hits0 + n,
            hits0 + all.len() <= usize::MAX,
    {
        let ghost view = t@;
        let ghost s = scan_of(tasks@, slots@, claimed@, *blocked);
        let ghost run = rows(batch@);
        proof {
            assert(list[n] == view);
            assert(s.claimed.len() == claimed@.len());
            assert(run.len() == batch@.len());
        }
        if claim_cap > 0 && claimed.len() as u128 + batch.len() as u128 >= claim_cap as u128 {
            proof {
                lemma_page_skip(start, list, n, s, run, cap, at, trace);
                lemma_cache_push(trace, kos, list, cap, at, trace.last(), ctx@);
                trace = trace.push(trace.last());
                kos = kos.push(ctx@);
            }
        } else if t.start_condition.0.len() == 0 {
            proof {
                assert(view.rules.len() == 0);
                let next = lemma_page_free(start, list, n, s, run, cap, at, trace);
                lemma_cache_push(trace, kos, list, cap, at, next, ctx@);
                trace = trace.push(next);
                kos = kos.push(ctx@);
            }
            batch.push(t);
            assert(rows(batch@) =~= run.push(view));
        } else {
            flush_batch(tasks, &mut batch, claimed, claim_cap, now);
            let ghost mid = scan_of(tasks@, slots@, claimed@, *blocked);
            proof {
                lemma_page_flush(start, list, n, s, run, cap, at, trace, mid);
                lemma_unique_touched(start.tasks, mid.tasks, ids_of(list.take(n)));
                assert(rows(batch@) =~= Seq::empty());
                assert(view.rules.len() > 0);
            }
            let ghost known = ctx@;
            if has_room(slots, &t) {
                claim_listed(tasks, slots, t, ctx, claimed, blocked, hits, now);
                proof {
                    let after = scan_of(tasks@, slots@, claimed@, *blocked);
                    let (result, why) = choose|result: ClaimResult, why: Option<(Seq<char>, int)>|
                        #[trigger] claim_outcome(
                            mid.tasks,
                            mid.slots,
                            view,
                            at,
                            after.tasks,
                            after.slots,
                            result,
                            why,
                        ) && (if prefilter_blocked(keyed(view), known) {
                            ctx@ == known
                        } else {
                            learned(known, why, ctx@)
                        }) && after.claimed == (if result == ClaimResult::Claimed {
                            mid.claimed.push(view)
                        } else {
                            mid.claimed
                        }) && after.blocked == mid.blocked + if result
                            == ClaimResult::RuleBlocked {
                            1int
                        } else {
                            0int
                        };
                    lemma_claim_touches(
                        mid.tasks,
                        mid.slots,
                        view,
                        at,
                        after.tasks,
                        after.slots,
                        result,
                        why,
                    );
                    lemma_ruled_step(mid, view, cap, at, after, result, why);
                    lemma_page_ruled(start, list, n, mid, cap, at, trace, after);
                    lemma_cache_push(trace, kos, list, cap, at, after, ctx@);
                    trace = trace.push(after);
                    kos = kos.push(ctx@);
                }
            } else {
                proof {
                    assert(touched_only(mid.tasks, mid.tasks, seq![view.id]));
                    assert(scan_step(mid, view, cap, at, mid));
                    lemma_page_ruled(start, list, n, mid, cap, at, trace, mid);
                    lemma_cache_push(trace, kos, list, cap, at, mid, ctx@);
                    trace = trace.push(mid);
                    kos = kos.push(ctx@);
                }
            }
        }
        proof {
            n = n + 1;
        }
    }
    let ghost s = scan_of(tasks@, slots@, claimed@, *blocked);
    let ghost run = rows(batch@);
    flush_batch(tasks, &mut batch, claimed, claim_cap, now);
    proof {
        let after = scan_of(tasks@, slots@, claimed@, *blocked);
        lemma_page_flush(start, list, n, s, run, cap, at, trace, after);
        assert(list.take(n) =~= list);
        assert(scan_trace(trace, list, cap, at));
        assert(after.claimed.len() == claimed@.len());
    }
    proof {
        reveal(page_scanned);
        assert(scan_trace(trace, list, cap, at));
        assert(cache_trace(trace, kos, list, cap, at));
    }
    claim_cap > 0 && claimed.len() as u128 >= claim_cap as u128
}

/// The answer to a claim is a step of the scan.
proof fn lemma_ruled_step(
    a: Scan,
    t: TaskRow,
    cap: int,
    now: int,
    b: Scan,
    result: ClaimResult,
    why: Option<(Seq<char>, int)>,
)
    requires
        !full(cap, a.claimed.len() as int),
        t.rules.len() > 0,
        room_for(a.slots, t),
        claim_outcome(a.tasks, a.slots, t, now, b.tasks, b.slots, result, why),
        b.claimed == (if result == ClaimResult::Claimed {
            a.claimed.push(t)
        } else {
            a.claimed
        }),
        b.blocked == a.blocked + if result == ClaimResult::RuleBlocked {
            1int
        } else {
            0int
        },
    ensures
        scan_step(a, t, cap, now, b),
{
}

proof fn lemma_next_id(list: Seq<TaskRow>, n: int)
    requires
        0 <= n < list.len(),
    ensures
        forall|id: u128|
            ids_of(list.take(n)).contains(id) || seq![list[n].id].contains(id) ==> #[trigger] ids_of(
                list.take(n + 1),
            ).contains(id),
{
    assert forall|id: u128|
        ids_of(list.take(n)).contains(id) || seq![list[n].id].contains(
            id,
        ) implies #[trigger] ids_of(list.take(n + 1)).contains(id) by {
        let a = ids_of(list.take(n));
        if a.contains(id) {
            let k = choose|k: int| 0 <= k < a.len() && a[k] == id;
            assert(ids_of(list.take(n + 1))[k] == id);
        } else {
            assert(ids_of(list.take(n + 1))[n] == id);
        }
    }
}

/// Asks whether a task with rules can be claimed, unless that is known not to be
/// so, and claims it.
fn claim_listed(
    tasks: &mut Vec<Task>,
    slots: &mut Vec<RuleSlot>,
    t: Task,
    ctx: &mut EvaluationContext,
    claimed: &mut Vec<Task>,
    blocked: &mut usize,
    hits: &mut usize,
    now: i64,
)
    requires
        unique_ids(rows(old(tasks)@)),
        t@.rules.len() > 0,
        room_for(slot_rows(old(slots)@), t@),
        ko_ok(old(ctx)@, slot_rows(old(slots)@)),
        *old(blocked) < usize::MAX,
        *old(hits) < usize::MAX,
    ensures
        exists|result: ClaimResult, why: Option<(Seq<char>, int)>|
            #[trigger] claim_outcome(
                rows(old(tasks)@),
                slot_rows(old(slots)@),
                t@,
                now as int,
                rows(final(tasks)@),
                slot_rows(final(slots)@),
                result,
                why,
            ) && (if prefilter_blocked(keyed(t@), old(ctx)@) {
                final(ctx)@ == old(ctx)@
            } else {
                learned(old(ctx)@, why, final(ctx)@)
            }) && rows(final(claimed)@) == (if result == ClaimResult::Claimed {
                rows(old(claimed)@).push(t@)
            } else {
                rows(old(claimed)@)
            }) && *final(blocked) as int == *old(blocked) as int + if result
                == ClaimResult::RuleBlocked {
                1int
            } else {
                0int
            },
        *final(hits) as int == *old(hits) as int + if prefilter_blocked(keyed(t@), old(ctx)@) {
            1int
        } else {
            0int
        },
        ko_ok(final(ctx)@, slot_rows(final(slots)@)),
{
    let ghost ts = rows(tasks@);
    let ghost ss = slot_rows(slots@);
    let ghost view = t@;
    let ghost at = now as int;
    let known: bool = is_prefilter_blocked(&t, ctx);
    if known {
        *hits = *hits + 1;
    }
    let params: RuleQueryParams = match RuleQueryParams::from_task(&t) {
        Ok(p) => p,
        Err(_) => {
            *blocked = *blocked + 1;
            assert(claim_outcome(ts, ss, view, at, ts, ss, ClaimResult::RuleBlocked, None));
            return ;
        },
    };
    if known {
        *blocked = *blocked + 1;
        proof {
            let w = choose|w: int|
                0 <= w < keyed(view).len() && (#[trigger] keyed(view)[w]) is Concurency && rule_key(
                    keyed(view)[w],
                ) is Some && known_full(
                    ctx@,
                    rule_key(keyed(view)[w])->0,
                    rule_limit(keyed(view)[w]),
                );
            let key = rule_key(keyed(view)[w])->0;
            let limit = rule_limit(keyed(view)[w]);
            let k = choose|k: int|
                0 <= k < ctx@.len() && (#[trigger] ctx@[k]).0 == key && limit <= ctx@[k].1;
            assert(used_up(ss, ctx@[k].0, ctx@[k].1));
            used_up_blocks_claim(ts, ss, view, asks(params.slots@), at, w, ctx@[k].1);
            let why = choose|why: Option<(Seq<char>, int)>| #[trigger]
                claim_outcome(ts, ss, view, at, ts, ss, ClaimResult::RuleBlocked, why);
            assert(claim_outcome(ts, ss, view, at, ts, ss, ClaimResult::RuleBlocked, why));
        }
        return ;
    }
    let outcome: ClaimOutcome = claim_task_with_rules_detailed(tasks, slots, &t, now);
    let ghost why = crate::db::task_crud::blocked_view(outcome.blocked_concurrency);
    proof {
        assert forall|i: int| 0 <= i < ctx@.len() implies used_up(
            slot_rows(slots@),
            (#[trigger] ctx@[i]).0,
            ctx@[i].1,
        ) by {
            claim_keeps_used_up(
                ts,
                ss,
                view,
                at,
                rows(tasks@),
                slot_rows(slots@),
                outcome.result,
                why,
                ctx@[i].0,
                ctx@[i].1,
            );
        }
    }
    let ghost won = rows(claimed@);
    match outcome.result {
        ClaimResult::Claimed => {
            assert(rows(claimed@.push(t)) =~= won.push(view));
            claimed.push(t);
        },
        ClaimResult::RuleBlocked => {
            *blocked = *blocked + 1;
        },
        ClaimResult::AlreadyClaimed => {},
    }
    if let Some(b) = outcome.blocked_concurrency {
        let ghost known = ctx@;
        let ghost entry = (b.key@, b.threshold as int);
        proof {
            blocked_slot_is_used_up(
                ts,
                ss,
                view,
                at,
                rows(tasks@),
                slot_rows(slots@),
                outcome.result,
                why,
            );
        }
        ctx.learn(b.key, b.threshold);
        proof {
            assert forall|i: int| 0 <= i < ctx@.len() implies used_up(
                slot_rows(slots@),
                (#[trigger] ctx@[i]).0,
                ctx@[i].1,
            ) by {
                if known.contains(ctx@[i]) {
                    let k = choose|k: int| 0 <= k < known.len() && known[k] == ctx@[i];
                    assert(used_up(slot_rows(slots@), known[k].0, known[k].1));
                }
            }
        }
    }
    assert(claim_outcome(
        ts,
        ss,
        view,
        at,
        rows(tasks@),
        slot_rows(slots@),
        outcome.result,
        why,
    ));
}

// ---------------------------------------------------------------------------
// Claiming the queue
// ---------------------------------------------------------------------------

/// The outcome of a scan of the queue.
#[derive(Debug)]
pub struct ClaimRound {
    /// The tasks that were claimed, as they were listed.
    pub claimed: Vec<Task>,
    /// How many tasks a rule blocked.
    pub blocked: usize,
    /// Of how many of those that was known without asking.
    pub cache_hits: usize,
    /// How many pages of the queue were read.
    pub pages: u128,
}

/// Two scans, one after the other.
proof fn lemma_trace_concat(
    trace: Seq<Scan>,
    more: Seq<Scan>,
    queue: Seq<TaskRow>,
    n: int,
    m: int,
    cap: int,
    now: int,
) -> (r: Seq<Scan>)
    requires
        0 <= n,
        0 <= m,
        n + m <= queue.len(),
        part_trace(trace, queue, cap, now),
        trace.len() == n + 1,
        scan_trace(more, queue.subrange(n, n + m), cap, now),
        more[0] == trace.last(),
    ensures
        r == trace + more.skip(1),
        part_trace(r, queue, cap, now),
        r.len() == n + m + 1,
        r[0] == trace[0],
        r.last() == more.last(),
{
    let r = trace + more.skip(1);
    assert forall|k: int| 0 <= k < r.len() - 1 implies scan_step(
        #[trigger] r[k],
        queue[k],
        cap,
        now,
        r[k + 1],
    ) by {
        if k < n {
            assert(r[k] == trace[k] && r[k + 1] == trace[k + 1]);
        } else {
            let j = k - n;
            assert(r[k] == more[j]);
            assert(r[k + 1] == more[j + 1]);
            assert(queue.subrange(n, n + m)[j] == queue[k]);
        }
    }
    r
}

/// The queue is no longer than the list of tasks.
proof fn lemma_queue_len(rows: Seq<TaskRow>)
    ensures
        claim_queue(rows).len() <= rows.len(),
{
    let p = pending_after(None);
    lemma_filter_len(rows, p);
    crate::order::order_sorts(rows.filter(p).map_values(|t: TaskRow| pending_key(t)));
}

proof fn lemma_filter_len(s: Seq<TaskRow>, p: spec_fn(TaskRow) -> bool)
    ensures
        s.filter(p).len() <= s.len(),
    decreases s.len(),
{
    reveal(Seq::filter);
    if s.len() > 0 {
        lemma_filter_len(s.drop_last(), p);
    }
}

/// Claims so far touched no task after the cursor.
proof fn lemma_cursor_splits(
    start: Seq<TaskRow>,
    now: Seq<TaskRow>,
    cursor: Option<PendingCursor>,
    n: int,
)
    requires
        unique_ids(start),
        keys_fit(start),
        0 <= n <= claim_queue(start).len(),
        cursor_at(claim_queue(start), n, cursor),
        touched_only(start, now, ids_of(claim_queue(start).take(n))),
    ensures
        same_after(start, now, cursor),
{
    let q = claim_queue(start);
    let some = ids_of(q.take(n));
    lemma_sorted_where(start, pending_after(None));
    assert forall|i: int| 0 <= i < start.len() implies {
        &&& (#[trigger] now[i]).id == start[i].id
        &&& now[i].priority == start[i].priority
        &&& now[i].created_at == start[i].created_at
        &&& now[i] == start[i] || (cursor is Some && !after_cursor(start[i], cursor->0))
    } by {
        if now[i] != start[i] {
            assert(some.contains(start[i].id));
            let k = choose|k: int| 0 <= k < some.len() && some[k] == start[i].id;
            assert(q[k].id == start[i].id);
            assert(q.contains(q[k]));
            let w = choose|w: int| 0 <= w < start.len() && start[w] == q[k];
            assert(start[w].id == start[i].id);
            assert(q.contains(q[n - 1]));
            let v = choose|v: int| 0 <= v < start.len() && start[v] == q[n - 1];
            assert(i32::MIN <= start[v].priority);
            assert(i32::MIN <= start[i].priority);
            if k < n - 1 {
                assert(key_lt(pending_key(q[k]), pending_key(q[n - 1])));
            }
        }
    }
}

/// A page lists pending tasks, each once.
proof fn lemma_page_listed(
    tasks: Seq<TaskRow>,
    cursor: Option<PendingCursor>,
    page: Seq<TaskRow>,
    size: int,
)
    requires
        unique_ids(tasks),
        size >= 0,
        page == first_n(
            sorted_where(tasks, pending_after(cursor), |t: TaskRow| pending_key(t)),
            size,
        ),
    ensures
        listed(tasks, page),
{
    let s = sorted_where(tasks, pending_after(cursor), |t: TaskRow| pending_key(t));
    lemma_sorted_where(tasks, pending_after(cursor));
    assert forall|k: int| 0 <= k < page.len() implies tasks.contains(#[trigger] page[k])
        && page[k].status == StatusKind::Pending by {
        assert(page[k] == s[k]);
        assert(s.contains(s[k]));
    }
    assert forall|k: int, l: int|
        0 <= k < page.len() && 0 <= l < page.len() && #[trigger] page[k].id
            == #[trigger] page[l].id implies k == l by {
        assert(tasks.contains(page[k]) && tasks.contains(page[l]));
        let i = choose|i: int| 0 <= i < tasks.len() && tasks[i] == page[k];
        let j = choose|j: int| 0 <= j < tasks.len() && tasks[j] == page[l];
        assert(tasks[i].id == tasks[j].id);
        assert(page[k] == s[k] && page[l] == s[l]);
        if k < l {
            assert(key_lt(pending_key(s[k]), pending_key(s[l])));
        } else if l < k {
            assert(key_lt(pending_key(s[l]), pending_key(s[k])));
        }
    }
}

/// `n` pages were read so far, and `p` tasks looked at.
#[verifier::opaque]
spec fn pages_so_far(
    trace: Seq<Scan>,
    queue: Seq<TaskRow>,
    cap: int,
    size: int,
    n: int,
    p: int,
    done: bool,
) -> bool {
    &&& 0 <= n
    &&& forall|j: int| 1 <= j < n ==> #[trigger] reads_on(trace, queue, cap, size, j)
    &&& !done ==> p == n * size && (n > 0 ==> reads_on(trace, queue, cap, size, n))
    &&& done ==> n >= 1 && (n - 1) * size <= p && !reads_on(trace, queue, cap, size, n) && (n
        * size <= queue.len() ==> n * size == p)
}

/// Another state of a scan at the same places decides the same.
proof fn lemma_reads_same(
    trace: Seq<Scan>,
    more: Seq<Scan>,
    queue: Seq<TaskRow>,
    cap: int,
    size: int,
    j: int,
    n: int,
)
    requires
        size > 0,
        0 <= j <= n,
        n * size < trace.len(),
        forall|k: int| 0 <= k < trace.len() ==> #[trigger] more[k] == trace[k],
    ensures
        reads_on(trace, queue, cap, size, j) == reads_on(more, queue, cap, size, j),
{
    assert(0 <= j * size <= n * size) by (nonlinear_arith)
        requires
            0 <= j <= n,
            size > 0,
    ;
    assert(more[j * size] == trace[j * size]);
}

proof fn lemma_page_step(
    trace: Seq<Scan>,
    more: Seq<Scan>,
    queue: Seq<TaskRow>,
    cap: int,
    size: int,
    n: int,
    p: int,
    len: int,
)
    requires
        pages_so_far(trace, queue, cap, size, n, p, false),
        size > 0,
        trace.len() == p + 1,
        more.len() == p + len + 1,
        forall|k: int| 0 <= k < trace.len() ==> #[trigger] more[k] == trace[k],
        0 <= len <= size,
        p + len <= queue.len(),
        len < size ==> p + len == queue.len(),
    ensures
        pages_so_far(
            more,
            queue,
            cap,
            size,
            n + 1,
            p + len,
            full(cap, more.last().claimed.len() as int) || len < size,
        ),
{
    reveal(pages_so_far);
    assert((n + 1) * size == n * size + size) by (nonlinear_arith);
    assert forall|j: int| 1 <= j < n + 1 implies #[trigger] reads_on(
        more,
        queue,
        cap,
        size,
        j,
    ) by {
        assert(reads_on(trace, queue, cap, size, j));
        lemma_reads_same(trace, more, queue, cap, size, j, n);
    }
}

/// Once a scan is done, its pages are those that it reads.
proof fn lemma_pages_done(
    trace: Seq<Scan>,
    whole: Seq<Scan>,
    queue: Seq<TaskRow>,
    cap: int,
    size: int,
    n: int,
    p: int,
)
    requires
        pages_so_far(trace, queue, cap, size, n, p, true),
        size > 0,
        trace.len() == p + 1,
        forall|k: int| 0 <= k < trace.len() ==> #[trigger] whole[k] == trace[k],
    ensures
        pages_read(whole, queue, cap, size, n),
{
    reveal(pages_so_far);
    assert forall|j: int| 1 <= j < n implies #[trigger] reads_on(whole, queue, cap, size, j) by {
        assert(reads_on(trace, queue, cap, size, j));
        lemma_reads_same(trace, whole, queue, cap, size, j, n - 1);
    }
    if n * size <= queue.len() {
        lemma_reads_same(trace, whole, queue, cap, size, n, n);
    }
}

/// There are no more pages than tasks looked at, but for the last one.
proof fn lemma_pages_bound(
    trace: Seq<Scan>,
    queue: Seq<TaskRow>,
    cap: int,
    size: int,
    n: int,
    p: int,
)
    requires
        pages_so_far(trace, queue, cap, size, n, p, false),
        size > 0,
    ensures
        n <= p,
{
    reveal(pages_so_far);
    assert(n <= n * size) by (nonlinear_arith)
        requires
            size > 0,
            n >= 0,
    ;
}

/// How far a scan came: through the first `p` tasks.
#[verifier::opaque]
spec fn scanned(
    trace: Seq<Scan>,
    kos: Seq<Seq<(Seq<char>, int)>>,
    queue: Seq<TaskRow>,
    cap: int,
    now: int,
    p: int,
    hits: int,
) -> bool {
    &&& part_trace(trace, queue, cap, now)
    &&& trace.len() == p + 1
    &&& cache_trace(trace, kos, queue, cap, now)
    &&& hits == cache_hits(trace, kos, queue, cap, p)
}

/// One more page of a scan.
proof fn lemma_next_page(
    trace: Seq<Scan>,
    kos: Seq<Seq<(Seq<char>, int)>>,
    queue: Seq<TaskRow>,
    list: Seq<TaskRow>,
    cap: int,
    now: int,
    size: int,
    p: int,
    after: Scan,
    known: Seq<(Seq<char>, int)>,
    hits0: int,
    hits: int,
    pages: int,
) -> (r: (Seq<Scan>, Seq<Seq<(Seq<char>, int)>>))
    requires
        size > 0,
        0 <= p,
        p + list.len() <= queue.len(),
        list == queue.subrange(p, p + list.len()),
        list.len() <= size,
        list.len() < size ==> p + list.len() == queue.len(),
        scanned(trace, kos, queue, cap, now, p, hits0),
        pages_so_far(trace, queue, cap, size, pages, p, false),
        page_scanned(list, cap, now, trace.last(), after, kos.last(), known, hits - hits0),
    ensures
        scanned(r.0, r.1, queue, cap, now, (p + list.len()) as int, hits),
        r.0[0] == trace[0],
        r.0.last() == after,
        r.1[0] == kos[0],
        r.1.last() == known,
        pages_so_far(
            r.0,
            queue,
            cap,
            size,
            pages + 1,
            (p + list.len()) as int,
            full(cap, after.claimed.len() as int) || list.len() < size,
        ),
{
    reveal(scanned);
    reveal(page_scanned);
    let len = list.len() as int;
    let (more, mkos) = choose|more: Seq<Scan>, mkos: Seq<Seq<(Seq<char>, int)>>|
        {
            &&& #[trigger] scan_trace(more, list, cap, now)
            &&& #[trigger] cache_trace(more, mkos, list, cap, now)
            &&& mkos[0] == kos.last()
            &&& mkos.last() == known
            &&& hits - hits0 == cache_hits(more, mkos, list, cap, list.len() as int)
            &&& more[0] == trace.last()
            &&& more.last() == after
        };
    lemma_cache_concat(trace, kos, more, mkos, queue, cap, now, p, len);
    lemma_hits_concat(trace, kos, more, mkos, queue, cap, p, len, len);
    let all = lemma_trace_concat(trace, more, queue, p, len, cap, now);
    lemma_page_step(trace, all, queue, cap, size, pages, p, len);
    (all, kos + mkos.skip(1))
}

/// The tasks looked at are those before and those of the page.
proof fn lemma_ids_joined(q: Seq<TaskRow>, list: Seq<TaskRow>, p: int, page_len: int)
    requires
        0 <= p,
        0 <= page_len,
        p + page_len <= q.len(),
        list == q.subrange(p, p + page_len),
    ensures
        forall|id: u128|
            ids_of(q.take(p)).contains(id) || ids_of(list).contains(id) ==> #[trigger] ids_of(
                q.take(p + page_len),
            ).contains(id),
{
    assert forall|id: u128|
        ids_of(q.take(p)).contains(id) || ids_of(list).contains(
            id,
        ) implies #[trigger] ids_of(q.take(p + page_len)).contains(id) by {
        let all = ids_of(q.take(p + page_len));
        if ids_of(q.take(p)).contains(id) {
            let k = choose|k: int|
                0 <= k < ids_of(q.take(p)).len() && ids_of(q.take(p))[k] == id;
            assert(all[k] == id);
        } else {
            let k = choose|k: int| 0 <= k < ids_of(list).len() && ids_of(list)[k] == id;
            assert(all[p + k] == id);
        }
    }
}

/// Claims pending tasks in order of priority, age and identifier, at most
/// `claim_cap` of them where that is positive.
///
/// The queue is read page by page, so that every pending task is looked at however
/// long the queue is: a task that a rule blocks never hides those behind it.
pub fn run_claim_loop(
    tasks: &mut Vec<Task>,
    slots: &mut Vec<RuleSlot>,
    claim_cap: i64,
    page_size: i64,
    now: i64,
) -> (r: ClaimRound)
    requires
        unique_ids(rows(old(tasks)@)),
        page_size > 0,
    ensures
        claim_cap > 0 ==> r.claimed@.len() <= claim_cap,
        exists|trace: Seq<Scan>, kos: Seq<Seq<(Seq<char>, int)>>|
            {
                &&& #[trigger] scan_trace(
                    trace,
                    claim_queue(rows(old(tasks)@)),
                    claim_cap as int,
                    now as int,
                )
                &&& #[trigger] cache_trace(
                    trace,
                    kos,
                    claim_queue(rows(old(tasks)@)),
                    claim_cap as int,
                    now as int,
                )
                &&& kos[0].len() == 0
                &&& r.cache_hits == cache_hits(
                    trace,
                    kos,
                    claim_queue(rows(old(tasks)@)),
                    claim_cap as int,
                    claim_queue(rows(old(tasks)@)).len() as int,
                )
                &&& pages_read(
                    trace,
                    claim_queue(rows(old(tasks)@)),
                    claim_cap as int,
                    page_size as int,
                    r.pages as int,
                )
                &&& trace[0] == (Scan {
                    tasks: rows(old(tasks)@),
                    slots: slot_rows(old(slots)@),
                    claimed: Seq::empty(),
                    blocked: 0,
                })
                &&& trace.last() == (Scan {
                    tasks: rows(final(tasks)@),
                    slots: slot_rows(final(slots)@),
                    claimed: rows(r.claimed@),
                    blocked: r.blocked as int,
                })
            },
{
    let ghost begin = rows(tasks@);
    let ghost q = claim_queue(begin);
    let ghost cap = claim_cap as int;
    let ghost at = now as int;
    let total: usize = tasks.len();
    let mut ctx: EvaluationContext = EvaluationContext::new();
    let mut claimed: Vec<Task> = Vec::new();
    let mut blocked: usize = 0;
    let mut hits: usize = 0;
    let mut pages: u128 = 0;
    let mut cursor: Option<PendingCursor> = None;
    let mut done: bool = false;
    let ghost mut p: int = 0;
    let ghost mut trace: Seq<Scan> = seq![scan_of(tasks@, slots@, claimed@, blocked)];
    proof {
        assert(rows(claimed@) =~= Seq::empty());
        lemma_queue_len(begin);
        assert forall|i: int| 0 <= i < begin.len() implies i32::MIN <= (
        #[trigger] begin[i]).priority <= i32::MAX && i64::MIN <= begin[i].created_at
            <= i64::MAX by {
            assert(begin[i] == tasks@[i]@);
        }
        assert(touched_only(begin, begin, ids_of(q.take(0))));
    }
    let ghost first = trace[0];
    let ghost mut kos: Seq<Seq<(Seq<char>, int)>> = seq![ctx@];
    let ghost nothing = ctx@;
    let ghost size = page_size as int;
    assert(pages_so_far(trace, q, cap, size, 0, 0, false)) by {
        reveal(pages_so_far);
    }
    assert(scanned(trace, kos, q, cap, at, 0, 0)) by {
        reveal(scanned);
    }
    while !done
        invariant
            begin.len() == total,
            q == claim_queue(begin),
            cap == claim_cap,
            at == now,
            page_size > 0,
            unique_ids(begin),
            keys_fit(begin),
            q.len() <= total,
            0 <= p <= q.len(),
            scanned(trace, kos, q, cap, at, p, hits as int),
            trace[0] == first,
            trace.last() == scan_of(tasks@, slots@, claimed@, blocked),
            touched_only(begin, rows(tasks@), ids_of(q.take(p))),
            cursor_at(q, p, cursor),
            ko_ok(ctx@, slot_rows(slots@)),
            blocked <= p,
            hits <= p,
            kos[0] == nothing,
            kos.last() == ctx@,
            size == page_size,
            pages_so_far(trace, q, cap, size, pages as int, p, done),
            claim_cap > 0 ==> claimed@.len() <= claim_cap,
            done ==> p == q.len() || full(cap, claimed@.len() as int),
        decreases q.len() - p + if done {
            0int
        } else {
            1int
        },
    {
        let ghost ts = rows(tasks@);
        let cur: Option<&PendingCursor> = match &cursor {
            Some(c) => Some(c),
            None => None,
        };
        let page: Vec<Task> = list_pending_page(tasks, cur, page_size);
        let page_len: usize = page.len();
        let ghost list = rows(page@);
        let ghost before = trace.last();
        let ghost known = ctx@;
        let ghost hits0 = hits;
        proof {
            lemma_unique_touched(begin, ts, ids_of(q.take(p)));
            lemma_cursor_splits(begin, ts, cursor, p);
            lemma_rest_of_queue(begin, ts, cursor, p);
            assert(list == first_n(q.skip(p), page_size as int));
            lemma_page_listed(ts, cursor, list, page_size as int);
            assert(list.len() == page_len);
            assert(list =~= q.subrange(p, p + page_len));
        }
        if page_len > 0 {
            assert(list[page_len - 1] == page@[page_len - 1]@);
            cursor = Some(PendingCursor::of_task(&page[page_len - 1]));
        }
        let enough: bool = claim_page(
            tasks,
            slots,
            page,
            &mut ctx,
            &mut claimed,
            &mut blocked,
            &mut hits,
            claim_cap,
            now,
        );
        proof {
            lemma_pages_bound(trace, q, cap, size, pages as int, p);
        }
        pages = pages + 1;
        proof {
            let r = lemma_next_page(
                trace,
                kos,
                q,
                list,
                cap,
                at,
                size,
                p,
                scan_of(tasks@, slots@, claimed@, blocked),
                ctx@,
                hits0 as int,
                hits as int,
                pages - 1,
            );
            trace = r.0;
            kos = r.1;
            lemma_ids_joined(q, list, p, page_len as int);
            lemma_touched_trans(
                begin,
                ts,
                rows(tasks@),
                ids_of(q.take(p)),
                ids_of(list),
                ids_of(q.take(p + page_len)),
            );
            if page_len > 0 {
                assert(q[p + page_len - 1] == list[page_len - 1]);
            }
            p = p + page_len as int;
        }
        if enough || (page_len as u128) < (page_size as u128) {
            done = true;
        }
    }
    proof {
        reveal(scanned);
        assert(rows(claimed@).len() == claimed@.len());
        let whole = lemma_rest_of_trace(trace, q, cap, at);
        let wkos = lemma_cache_rest(trace, kos, whole, q, cap, at);
        assert(scan_trace(whole, q, cap, at));
        assert(cache_trace(whole, wkos, q, cap, at));
        lemma_pages_done(trace, whole, q, cap, size, pages as int, p);
    }
    ClaimRound { claimed, blocked, cache_hits: hits, pages }
}

} // verus!
