//! What a round of the loops does.

use crate::db::claim_laws::{holds_back, rules_decide_a_claim, slot_of};
use crate::db::listing_laws::{goes_first, pending_pages_go_by_priority};
use crate::db::task_crud::{claim_outcome, claim_row, has_status, room_for, ClaimResult};
use crate::models::{SlotRow, StatusKind, StrategyView, TaskRow};
use crate::order::first_n;
use crate::rule::{keyed, lemma_keyed_len};
use crate::tally::{ids_where, lemma_filter_has, lemma_ids_where_has};
use crate::workers::claim_scan::{claim_queue, keys_fit, scan_step, used_up, Scan};
use crate::workers::leader_lease::{LeaderLease, LeaseAction};
use crate::workers::life_laws::idle_too_long;
use crate::workers::metrics_sampler::in_use;
use crate::workers::propagation::unique_ids;
use crate::workers::start_task::beaten_row;
use crate::workers::start_loop::{
    budget, cache_hits, ids_of, ko_ok, known_full, learned, pages_read, prefilter_blocked,
    reads_on, still_pending,
};
use crate::workers::timeout_loop::{
    claim_age, drained, each_failed, lemma_each_failed, pass_ids, Drain,
};
use vstd::prelude::*;

verus! {

/// A round looks at the pending tasks, each once, by priority, age and identifier.
pub proof fn rounds_look_at_pending_tasks_in_order(tasks: Seq<TaskRow>, t: TaskRow)
    requires
        keys_fit(tasks),
    ensures
        claim_queue(tasks).contains(t) <==> tasks.contains(t) && t.status == StatusKind::Pending,
        forall|k: int, l: int|
            0 <= k < l < claim_queue(tasks).len() ==> !goes_first(
                #[trigger] claim_queue(tasks)[l],
                #[trigger] claim_queue(tasks)[k],
            ),
{
    let all = claim_queue(tasks);
    let n = all.len() as int + 1;
    pending_pages_go_by_priority(tasks, None, n);
    assert(first_n(all, n) == all);
    if all.contains(t) {
        let k = choose|k: int| 0 <= k < all.len() && all[k] == t;
        assert(tasks.contains(all[k]));
    }
}

/// A round that has claimed as many tasks as it may does nothing more. Until then it
/// claims a task, in what it looks at and in the tables, if and only if none of the task's
/// rules holds it back; where one does, the task counts as blocked and nothing changes. A
/// task whose slots have no room for its work is left alone.
pub proof fn rounds_claim_what_no_rule_holds_back(
    a: Scan,
    t: TaskRow,
    cap: int,
    now: int,
    b: Scan,
)
    requires
        scan_step(a, t, cap, now, b),
        has_status(a.tasks, t.id, StatusKind::Pending),
    ensures
        cap > 0 && a.claimed.len() >= cap ==> b == a,
        (cap <= 0 || a.claimed.len() < cap) && t.rules.len() > 0 && !room_for(a.slots, t) ==> b
            == a,
        (cap <= 0 || a.claimed.len() < cap) && (t.rules.len() == 0 || room_for(a.slots, t)) ==> {
            if forall|i: int|
                0 <= i < t.rules.len() ==> !holds_back(#[trigger] t.rules[i], t, a.slots) {
                &&& b.claimed == a.claimed.push(t)
                &&& b.blocked == a.blocked
                &&& b.tasks.len() == a.tasks.len()
            } else {
                &&& b.claimed == a.claimed
                &&& b.blocked == a.blocked + 1
                &&& b.tasks == a.tasks
                &&& b.slots == a.slots
            }
        },
{
    if (cap <= 0 || a.claimed.len() < cap) && t.rules.len() > 0 && room_for(a.slots, t) {
        let (result, blocked) = choose|result: ClaimResult, blocked: Option<(Seq<char>, int)>|
            #[trigger] claim_outcome(
                a.tasks,
                a.slots,
                t,
                now,
                b.tasks,
                b.slots,
                result,
                blocked,
            ) && b.claimed == (if result == ClaimResult::Claimed {
                a.claimed.push(t)
            } else {
                a.claimed
            }) && b.blocked == a.blocked + if result == ClaimResult::RuleBlocked {
                1int
            } else {
                0int
            };
        rules_decide_a_claim(a.tasks, a.slots, t, now, b.tasks, b.slots, result, blocked);
        let free = forall|i: int|
            0 <= i < t.rules.len() ==> !holds_back(#[trigger] t.rules[i], t, a.slots);
        let p = choose|p: int|
            0 <= p < a.tasks.len() && #[trigger] a.tasks[p].id == t.id && a.tasks[p].status
                == StatusKind::Pending;
        assert(a.tasks[p].id == t.id);
        if free {
            assert(result == ClaimResult::Claimed);
            let i: int = p;
            crate::db::claim_laws::claimed_tasks_know_their_slots(
                a.tasks,
                a.slots,
                t,
                now,
                b.tasks,
                b.slots,
                blocked,
                i,
            );
        } else {
            let i = choose|i: int|
                0 <= i < t.rules.len() && holds_back(#[trigger] t.rules[i], t, a.slots);
            assert(holds_back(t.rules[i], t, a.slots));
            assert(result == ClaimResult::RuleBlocked);
        }
    }
}

/// Of a run of tasks as many are claimed as the cap still leaves, all of them without
/// one.
pub proof fn runs_stay_within_the_cap(cap: int, claimed: int, n: int)
    requires
        0 <= n,
    ensures
        cap <= 0 ==> budget(cap, claimed, n) == n,
        cap > 0 && claimed >= cap ==> budget(cap, claimed, n) == 0,
        cap > 0 && claimed < cap && claimed + n <= cap ==> budget(cap, claimed, n) == n,
        cap > 0 && claimed < cap && claimed + n > cap ==> claimed + budget(cap, claimed, n) == cap,
{
}

/// A task is passed over unasked only where a concurrency rule of it is on a slot that
/// was found full up to its limit; then the rule does hold it back.
pub proof fn tasks_are_passed_over_for_full_slots(
    t: TaskRow,
    ko: Seq<(Seq<char>, int)>,
    slots: Seq<SlotRow>,
)
    requires
        ko_ok(ko, slots),
    ensures
        prefilter_blocked(keyed(t), ko) <==> exists|i: int| #[trigger]
            known_to_block(t, i, ko),
        prefilter_blocked(keyed(t), ko) ==> exists|i: int|
            0 <= i < t.rules.len() && holds_back(#[trigger] t.rules[i], t, slots),
{
    lemma_keyed_len(t);
    reveal(keyed);
    if prefilter_blocked(keyed(t), ko) {
        let i = choose|i: int|
            0 <= i < keyed(t).len() && (#[trigger] keyed(t)[i]) is Concurency
                && crate::db::task_crud::rule_key(keyed(t)[i]) is Some && known_full(
                ko,
                crate::db::task_crud::rule_key(keyed(t)[i])->0,
                crate::db::task_crud::rule_limit(keyed(t)[i]),
            );
        let key = crate::db::task_crud::rule_key(keyed(t)[i])->0;
        let limit = crate::db::task_crud::rule_limit(keyed(t)[i]);
        let j = choose|j: int| 0 <= j < ko.len() && (#[trigger] ko[j]).0 == key && limit <= ko[j].1;
        assert(ko[j].0 == key);
        assert(known_to_block(t, i, ko));
        assert(used_up(slots, ko[j].0, ko[j].1));
        let w = choose|w: int|
            0 <= w < slots.len() && (#[trigger] slots[w]).key == key && slots[w].used >= ko[j].1;
        assert(slots[w].key == key);
        assert(holds_back(t.rules[i], t, slots));
    }
    if exists|i: int| #[trigger] known_to_block(t, i, ko) {
        let i = choose|i: int| #[trigger] known_to_block(t, i, ko);
        assert(keyed(t)[i] is Concurency);
        let key = slot_of(t.rules[i], t.metadata)->0;
        assert(known_full(ko, key, crate::db::task_crud::rule_limit(keyed(t)[i])));
    }
}

/// A concurrency rule whose slot is known to be full up to its limit.
pub open spec fn known_to_block(t: TaskRow, i: int, ko: Seq<(Seq<char>, int)>) -> bool {
    &&& 0 <= i < t.rules.len()
    &&& t.rules[i] matches StrategyView::Concurency { limit, .. } && slot_of(
        t.rules[i],
        t.metadata,
    ) is Some && exists|j: int|
        0 <= j < ko.len() && (#[trigger] ko[j]).0 == slot_of(t.rules[i], t.metadata)->0 && limit
            <= ko[j].1
}

/// An identifier of a task that was idle for too long.
pub open spec fn one_idle(tasks: Seq<TaskRow>, id: u128, now: int) -> bool {
    exists|i: int|
        0 <= i < tasks.len() && #[trigger] tasks[i].id == id && idle_too_long(tasks[i], now)
}

proof fn lemma_failed_are_listed(d: Drain, ids: Seq<u128>, dead_end_enabled: bool, now: int)
    ensures
        ({
            let f = each_failed(d, ids, dead_end_enabled, now).failed;
            &&& f.len() >= d.failed.len()
            &&& forall|k: int| 0 <= k < d.failed.len() ==> f[k] == d.failed[k]
            &&& forall|k: int| d.failed.len() <= k < f.len() ==> ids.contains(#[trigger] f[k])
        }),
    decreases ids.len(),
{
    if ids.len() > 0 {
        let init = ids.drop_last();
        lemma_failed_are_listed(d, init, dead_end_enabled, now);
        let g = each_failed(d, init, dead_end_enabled, now).failed;
        let f = each_failed(d, ids, dead_end_enabled, now).failed;
        assert(ids[ids.len() - 1] == ids.last());
        assert forall|k: int| d.failed.len() <= k < f.len() implies ids.contains(
            #[trigger] f[k],
        ) by {
            if k < g.len() {
                assert(f[k] == g[k]);
                let j = choose|j: int| 0 <= j < init.len() && init[j] == g[k];
                assert(ids[j] == g[k]);
            }
        }
    }
}

/// A timeout round fails tasks only that were running and idle for longer than their own
/// timeout when it began.
pub proof fn only_idle_tasks_time_out(
    d: Drain,
    limit: int,
    dead_end_enabled: bool,
    now: int,
    passes: nat,
)
    requires
        unique_ids(d.tables.tasks),
        limit >= 0,
    ensures
        ({
            let f = drained(d, limit, dead_end_enabled, now, passes).failed;
            &&& f.len() >= d.failed.len()
            &&& forall|k: int| 0 <= k < d.failed.len() ==> f[k] == d.failed[k]
            &&& forall|k: int|
                d.failed.len() <= k < f.len() ==> one_idle(d.tables.tasks, #[trigger] f[k], now)
        }),
    decreases passes,
{
    let p = crate::db::task_query::timed_out(now);
    let a = d.tables.tasks;
    let ids = pass_ids(d.tables, limit, now);
    if passes > 0 && ids.len() > 0 {
        let next = each_failed(d, ids, dead_end_enabled, now);
        lemma_failed_are_listed(d, ids, dead_end_enabled, now);
        lemma_each_failed(d, ids, dead_end_enabled, now);
        assert forall|k: int| d.failed.len() <= k < next.failed.len() implies one_idle(
            a,
            #[trigger] next.failed[k],
            now,
        ) by {
            let x = next.failed[k];
            let j = choose|j: int| 0 <= j < ids.len() && ids[j] == x;
            assert(ids_where(a, p)[j] == x);
            assert(ids_where(a, p).contains(x));
            lemma_ids_where_has(a, p, x);
            let i = choose|i: int| 0 <= i < a.len() && #[trigger] a[i].id == x && p(a[i]);
            assert(a[i].id == x);
            assert(idle_too_long(a[i], now));
        }
        if ids.len() >= limit {
            let m = (passes - 1) as nat;
            only_idle_tasks_time_out(next, limit, dead_end_enabled, now, m);
            let f = drained(next, limit, dead_end_enabled, now, m).failed;
            assert forall|k: int| d.failed.len() <= k < f.len() implies one_idle(
                a,
                #[trigger] f[k],
                now,
            ) by {
                if k < next.failed.len() {
                    assert(f[k] == next.failed[k]);
                } else {
                    let b = next.tables.tasks;
                    assert(one_idle(b, f[k], now));
                    let i = choose|i: int|
                        0 <= i < b.len() && #[trigger] b[i].id == f[k] && idle_too_long(b[i], now);
                    assert(p(b[i]));
                    assert(p(a[i]));
                    assert(a[i].id == f[k]);
                    assert(idle_too_long(a[i], now));
                }
            }
        }
    }
}

/// A claim may be as old as is set, and never older than the clock counts.
pub proof fn claims_age_as_set(claim_timeout: u128)
    ensures
        claim_age(claim_timeout) <= claim_timeout,
        claim_age(claim_timeout) <= i64::MAX,
        claim_age(claim_timeout) == claim_timeout || claim_age(claim_timeout) == i64::MAX,
{
}

/// A leader makes sure that it still leads; a standby tries to.
pub proof fn leaders_ping_and_standbys_try(l: LeaderLease)
    ensures
        l.next() == LeaseAction::Ping <==> l.is_leader,
        l.next() == LeaseAction::TryLock <==> !l.is_leader,
{
}

/// The connections in use and the idle ones make up the pool, where both were read
/// together.
pub proof fn connections_add_up(connections: int, idle: int)
    ensures
        idle <= connections ==> in_use(connections, idle) + idle == connections,
        idle > connections ==> in_use(connections, idle) == 0,
{
}

/// A heartbeat is activity of a claimed task and changes nothing else, so that the claim
/// does not return while it beats in time.
pub proof fn heartbeats_keep_a_claim(r: TaskRow, id: u128, now: int, later: int, age: int)
    ensures
        beaten_row(id, now)(r) == (TaskRow {
            last_updated: beaten_row(id, now)(r).last_updated,
            ..r
        }),
        r.id != id || r.status != StatusKind::Claimed ==> beaten_row(id, now)(r) == r,
        r.id == id && later - now <= age ==> !crate::db::task_query::stale_claim(age, later)(
            beaten_row(id, now)(r),
        ),
{
}

/// Of a run of tasks those are handed out that were pending still, and no others. Their
/// rows are marked as claimed; rows of no task of the run stay.
pub proof fn runs_hand_out_what_they_claim(
    tasks: Seq<TaskRow>,
    run: Seq<TaskRow>,
    now: int,
    t: TaskRow,
    i: int,
)
    requires
        0 <= i < tasks.len(),
    ensures
        run.filter(still_pending(tasks)).contains(t) <==> run.contains(t) && exists|k: int|
            0 <= k < tasks.len() && #[trigger] tasks[k].id == t.id && tasks[k].status
                == StatusKind::Pending,
        run.filter(still_pending(tasks)).contains(t) && tasks[i].id == t.id && tasks[i].status
            == StatusKind::Pending ==> claim_row(ids_of(run), now)(tasks[i]).status
            == StatusKind::Claimed,
        (forall|k: int| 0 <= k < run.len() ==> (#[trigger] run[k]).id != tasks[i].id) ==> claim_row(
            ids_of(run),
            now,
        )(tasks[i]) == tasks[i],
{
    lemma_filter_has(run, still_pending(tasks), t);
    let ids = ids_of(run);
    if run.contains(t) {
        let k = choose|k: int| 0 <= k < run.len() && run[k] == t;
        assert(ids[k] == t.id);
    }
    if ids.contains(tasks[i].id) {
        let k = choose|k: int| 0 <= k < ids.len() && ids[k] == tasks[i].id;
        assert(run[k].id == tasks[i].id);
    }
}

/// A round reads a first page in any case, and another one only while all that it read
/// was full pages and it has not claimed as many tasks as it may. It stops as soon as
/// either fails.
pub proof fn rounds_read_as_far_as_they_need(
    trace: Seq<Scan>,
    queue: Seq<TaskRow>,
    cap: int,
    size: int,
    n: int,
    j: int,
)
    requires
        pages_read(trace, queue, cap, size, n),
    ensures
        n >= 1,
        1 <= j < n ==> j * size <= queue.len() && (cap <= 0 || trace[j * size].claimed.len() < cap),
        n * size > queue.len() || (cap > 0 && trace[n * size].claimed.len() >= cap),
{
    if 1 <= j < n {
        assert(reads_on(trace, queue, cap, size, j));
    }
}

/// A task is counted as passed over if and only if it was looked at with rules and room,
/// before enough was claimed, while one of its rules was known to block.
pub proof fn passed_over_tasks_are_counted(
    trace: Seq<Scan>,
    kos: Seq<Seq<(Seq<char>, int)>>,
    queue: Seq<TaskRow>,
    cap: int,
    n: int,
)
    requires
        0 < n,
        ko_ok(kos[n - 1], trace[n - 1].slots),
    ensures
        ({
            let a = trace[n - 1];
            let t = queue[n - 1];
            cache_hits(trace, kos, queue, cap, n) == cache_hits(trace, kos, queue, cap, n - 1) + if (
            cap <= 0 || a.claimed.len() < cap) && t.rules.len() > 0 && room_for(a.slots, t) && (
            exists|i: int| #[trigger] known_to_block(t, i, kos[n - 1])) {
                1int
            } else {
                0int
            }
        }),
        cache_hits(trace, kos, queue, cap, 0) == 0,
{
    tasks_are_passed_over_for_full_slots(queue[n - 1], kos[n - 1], trace[n - 1].slots);
}

/// What is known of full slots grows by the slot that blocked a claim, up to its limit,
/// and by nothing else.
pub proof fn only_blocking_slots_are_learned(
    ko: Seq<(Seq<char>, int)>,
    why: Option<(Seq<char>, int)>,
    after: Seq<(Seq<char>, int)>,
    key: Seq<char>,
    limit: int,
)
    requires
        learned(ko, why, after),
    ensures
        why is None ==> known_full(after, key, limit) == known_full(ko, key, limit),
        why matches Some(w) ==> (known_full(after, key, limit) <==> known_full(ko, key, limit) || (
        key == w.0 && limit <= w.1)),
{
    assert(known_full(after, key, limit) == known_full(after, key, limit));
}

} // verus!
