//! One iteration of the timeout loop: stale claims go back to the queue, then
//! running tasks past their timeout fail.

use crate::db::task_crud::{has_status, released_row, released_slot};
use crate::db::task_query::{
    find_timed_out_tasks, requeue_stale_claimed_tasks, requeued_row, stale_claim, timed_out,
    timeout_row, timeout_task_and_propagate,
};
use crate::models::{StatusKind, TaskRow};
use crate::order::first_n;
use crate::store::{Store, Tables};
use crate::tally::{
    count, ids_where, lemma_count_less, lemma_count_zero, lemma_ids_where_has, lemma_ids_where_len,
};
use crate::workers::finish::{dead_ends, finished, Notice};
use crate::workers::finish_laws::{consistent, graph_wf};
use crate::workers::graph_laws::{
    climb_frame, climb_step, lemma_ids_where_distinct, propagation_frame, propagation_step,
};
use crate::workers::propagation::{climb, propagation, unique_ids};
use crate::workers::transition_laws::{
    graph_is_wf, requeue_keeps_consistent, requeue_keeps_graph, timeout_keeps_consistent,
    timeout_keeps_graph,
};
use vstd::prelude::*;

verus! {

/// Most passes over timed-out tasks in one iteration, so that many timeouts at
/// once do not keep the loop from its other work. The rest waits for the next
/// iteration.
pub const MAX_TIMEOUT_DRAIN_PASSES: usize = 50;

/// How far an iteration came: the tables, and the tasks that it failed.
#[verifier::ext_equal]
pub struct Drain {
    pub tables: Tables,
    pub failed: Seq<u128>,
}

/// One listed task fails, where it is still running.
pub open spec fn one_failed(d: Drain, id: u128, dead_end_enabled: bool, now: int) -> Drain {
    if has_status(d.tables.tasks, id, StatusKind::Running) {
        Drain {
            tables: finished(
                Tables { tasks: d.tables.tasks.map_values(timeout_row(id, now)), ..d.tables },
                id,
                StatusKind::Failure,
                dead_end_enabled,
                Notice::End,
                now,
            ),
            failed: d.failed.push(id),
        }
    } else {
        d
    }
}

/// The listed tasks fail, one after the other.
pub open spec fn each_failed(d: Drain, ids: Seq<u128>, dead_end_enabled: bool, now: int) -> Drain
    decreases ids.len(),
{
    if ids.len() == 0 {
        d
    } else {
        one_failed(
            each_failed(d, ids.drop_last(), dead_end_enabled, now),
            ids.last(),
            dead_end_enabled,
            now,
        )
    }
}

/// The tasks that one pass lists.
pub open spec fn pass_ids(s: Tables, limit: int, now: int) -> Seq<u128> {
    first_n(ids_where(s.tasks, timed_out(now)), limit)
}

/// At most `passes` passes of up to `limit` tasks. A pass that is not full is the
/// last one.
pub open spec fn drained(
    d: Drain,
    limit: int,
    dead_end_enabled: bool,
    now: int,
    passes: nat,
) -> Drain
    decreases passes,
{
    let ids = pass_ids(d.tables, limit, now);
    if passes == 0 || ids.len() == 0 {
        d
    } else {
        let next = each_failed(d, ids, dead_end_enabled, now);
        if ids.len() < limit {
            next
        } else {
            drained(next, limit, dead_end_enabled, now, (passes - 1) as nat)
        }
    }
}

/// The time after which a claim is stale, in microseconds.
pub open spec fn claim_age(claim_timeout: u128) -> int {
    if claim_timeout <= i64::MAX {
        claim_timeout as int
    } else {
        i64::MAX as int
    }
}

/// The tables once stale claims went back to the queue.
pub open spec fn requeued(s: Tables, timeout: int, now: int) -> Tables {
    let ids = ids_where(s.tasks, stale_claim(timeout, now));
    let moved = s.tasks.map_values(requeued_row(timeout, now));
    Tables {
        tasks: moved.map_values(released_row(ids)),
        slots: s.slots.map_values(released_slot(moved, ids)),
        ..s
    }
}

/// What an iteration did.
#[derive(Debug)]
pub struct TimeoutRound {
    /// Tasks whose claim was stale.
    pub requeued: Vec<u128>,
    /// Tasks that timed out.
    pub failed: Vec<u128>,
    /// Whether notifications were enqueued, so that the delivery loop should run.
    pub nudge_delivery: bool,
}

/// Whether another pass follows one that listed `batch_len` tasks and was the
/// `pass`-th, counted from zero.
pub fn drain_goes_on(batch_len: usize, limit: i64, pass: usize) -> (r: bool)
    requires
        pass < MAX_TIMEOUT_DRAIN_PASSES,
    ensures
        r == (batch_len > 0 && batch_len >= limit && pass + 1 < MAX_TIMEOUT_DRAIN_PASSES),
{
    batch_len > 0 && batch_len as i128 >= limit as i128 && pass + 1 < MAX_TIMEOUT_DRAIN_PASSES
}

/// What an iteration does next, once stale claims went back to the queue.
#[derive(Clone, Copy, Debug, PartialEq, Eq, Structural)]
pub enum DrainAction {
    /// List timed-out tasks, as many as a pass takes.
    List,
    /// Fail a task, in a transaction of its own.
    Fail(u128),
    /// Nothing more.
    Stop,
}

/// How far an iteration came with timed-out tasks.
#[derive(Debug)]
pub struct DrainRun {
    /// The pass, counted from zero.
    pub pass: usize,
    /// The tasks that the pass lists.
    pub ids: Vec<u128>,
    /// How many of them were handled.
    pub next: usize,
    /// Whether a task failed, so that the delivery loop should run.
    pub enqueued: bool,
}

impl DrainRun {
    /// The first pass, which starts with a listing.
    pub fn new() -> (r: Self)
        ensures
            r.pass == 0,
            r.ids@ == Seq::<u128>::empty(),
            r.next == 0,
            !r.enqueued,
    {
        DrainRun { pass: 0, ids: Vec::new(), next: 0, enqueued: false }
    }

    /// Goes on with the tasks that a pass lists. A pass without any is the last one.
    pub fn listed(&mut self, ids: Vec<u128>) -> (r: DrainAction)
        ensures
            *final(self) == (DrainRun { ids, next: 0, ..*old(self) }),
            r == if ids@.len() == 0 {
                DrainAction::Stop
            } else {
                DrainAction::Fail(ids@[0])
            },
    {
        self.ids = ids;
        self.next = 0;
        if self.ids.len() == 0 {
            DrainAction::Stop
        } else {
            DrainAction::Fail(self.ids[0])
        }
    }

    /// Goes on after the task at hand, which did or did not fail: with the next task
    /// of the pass, else with the next pass, where [`drain_goes_on`].
    pub fn handled(&mut self, failed: bool, limit: i64) -> (r: DrainAction)
        requires
            old(self).next < old(self).ids@.len(),
            old(self).pass < MAX_TIMEOUT_DRAIN_PASSES,
        ensures
            ({
                let last = old(self).next + 1 == old(self).ids@.len();
                let again = last && old(self).ids@.len() >= limit && old(self).pass + 1
                    < MAX_TIMEOUT_DRAIN_PASSES;
                &&& *final(self) == (DrainRun {
                    pass: final(self).pass,
                    next: final(self).next,
                    enqueued: old(self).enqueued || failed,
                    ..*old(self)
                })
                &&& final(self).next == old(self).next + 1
                &&& final(self).pass == if again {
                    old(self).pass + 1
                } else {
                    old(self).pass as int
                }
                &&& r == if !last {
                    DrainAction::Fail(old(self).ids@[old(self).next + 1])
                } else if again {
                    DrainAction::List
                } else {
                    DrainAction::Stop
                }
            }),
    {
        let count: usize = self.ids.len();
        self.next += 1;
        self.enqueued = self.enqueued || failed;
        if self.next < count {
            DrainAction::Fail(self.ids[self.next])
        } else if drain_goes_on(count, limit, self.pass) {
            self.pass += 1;
            DrainAction::List
        } else {
            DrainAction::Stop
        }
    }
}

/// One iteration: requeues claims that were not started within `claim_timeout`
/// microseconds, then fails timed-out tasks in passes of up to
/// `timeout_batch_size`.
pub fn run_timeout_tick(
    store: &mut Store,
    claim_timeout: u128,
    dead_end_enabled: bool,
    timeout_batch_size: i64,
    now: i64,
) -> (r: TimeoutRound)
    requires
        graph_wf(old(store)@),
        old(store)@.links.len() <= i32::MAX,
        timeout_batch_size >= 0,
    ensures
        graph_wf(final(store)@),
        consistent(old(store)@) ==> consistent(final(store)@),
        ({
            let age = claim_age(claim_timeout);
            let start = Drain {
                tables: requeued(old(store)@, age, now as int),
                failed: Seq::empty(),
            };
            let end = drained(
                start,
                timeout_batch_size as int,
                dead_end_enabled,
                now as int,
                MAX_TIMEOUT_DRAIN_PASSES as nat,
            );
            &&& final(store)@ == end.tables
            &&& r.failed@ == end.failed
            &&& r.requeued@ == ids_where(old(store)@.tasks, stale_claim(age, now as int))
            &&& r.nudge_delivery == (end.failed.len() > 0)
        }),
{
    let ghost s = store@;
    let ghost age = claim_age(claim_timeout);
    let requeued_ids: Vec<u128> = requeue_stale_claimed_tasks(
        &mut store.tasks,
        &mut store.slots,
        claim_timeout,
        now,
    );
    proof {
        assert(store@ =~= requeued(s, age, now as int));
        requeue_keeps_graph(s, age, now as int);
        if consistent(s) {
            requeue_keeps_consistent(s, age, now as int);
        }
    }
    let ghost start = Drain { tables: store@, failed: Seq::empty() };
    let ghost end = drained(
        start,
        timeout_batch_size as int,
        dead_end_enabled,
        now as int,
        MAX_TIMEOUT_DRAIN_PASSES as nat,
    );
    let mut failed: Vec<u128> = Vec::new();
    assert(failed@ =~= start.failed);
    let mut run: DrainRun = DrainRun::new();
    let mut action: DrainAction = DrainAction::List;
    let ghost mut from = start;
    while action != DrainAction::Stop
        invariant
            graph_wf(store@),
            consistent(s) ==> consistent(store@),
            store@.links.len() <= i32::MAX,
            timeout_batch_size >= 0,
            run.enqueued == (failed@.len() > 0),
            run.pass < MAX_TIMEOUT_DRAIN_PASSES,
            run.next <= run.ids@.len(),
            match action {
                DrainAction::List => end == drained(
                    (Drain { tables: store@, failed: failed@ }),
                    timeout_batch_size as int,
                    dead_end_enabled,
                    now as int,
                    (MAX_TIMEOUT_DRAIN_PASSES - run.pass) as nat,
                ),
                DrainAction::Fail(id) => {
                    &&& run.next < run.ids@.len()
                    &&& id == run.ids@[run.next as int]
                    &&& run.ids@ == pass_ids(from.tables, timeout_batch_size as int, now as int)
                    &&& (Drain { tables: store@, failed: failed@ }) == each_failed(
                        from,
                        run.ids@.take(run.next as int),
                        dead_end_enabled,
                        now as int,
                    )
                    &&& end == drained(
                        from,
                        timeout_batch_size as int,
                        dead_end_enabled,
                        now as int,
                        (MAX_TIMEOUT_DRAIN_PASSES - run.pass) as nat,
                    )
                },
                DrainAction::Stop => end == (Drain { tables: store@, failed: failed@ }),
            },
        decreases
                MAX_TIMEOUT_DRAIN_PASSES - run.pass,
                if action == DrainAction::List {
                    1int
                } else {
                    0
                },
                run.ids@.len() - run.next,
    {
        match action {
            DrainAction::List => {
                proof {
                    from = Drain { tables: store@, failed: failed@ };
                }
                let ids: Vec<u128> = find_timed_out_tasks(&store.tasks, timeout_batch_size, now);
                assert(ids@.take(0) =~= Seq::empty());
                action = run.listed(ids);
            },
            DrainAction::Fail(id) => {
                let ghost before = Drain { tables: store@, failed: failed@ };
                let ghost n = run.next as int;
                let ghost pass = run.pass as int;
                proof {
                    graph_is_wf(store@);
                    if has_status(store@.tasks, id, StatusKind::Running) {
                        timeout_keeps_graph(store@, id, dead_end_enabled, now as int);
                        if consistent(s) {
                            timeout_keeps_consistent(store@, id, dead_end_enabled, now as int);
                        }
                    }
                }
                let outcome = timeout_task_and_propagate(store, id, dead_end_enabled, now);
                if outcome.is_some() {
                    failed.push(id);
                }
                action = run.handled(outcome.is_some(), timeout_batch_size);
                proof {
                    let next = Drain { tables: store@, failed: failed@ };
                    assert(next =~= one_failed(before, id, dead_end_enabled, now as int));
                    assert(run.ids@.take(n + 1).drop_last() =~= run.ids@.take(n));
                    assert(next == each_failed(
                        from,
                        run.ids@.take(n + 1),
                        dead_end_enabled,
                        now as int,
                    ));
                    if n + 1 == run.ids@.len() {
                        assert(run.ids@.take(n + 1) =~= run.ids@);
                        if pass + 1 == MAX_TIMEOUT_DRAIN_PASSES {
                            assert(drained(
                                next,
                                timeout_batch_size as int,
                                dead_end_enabled,
                                now as int,
                                0,
                            ) == next);
                        }
                    }
                }
            },
            DrainAction::Stop => {},
        }
    }
    TimeoutRound { requeued: requeued_ids, failed, nudge_delivery: run.enqueued }
}

// ---------------------------------------------------------------------------
// Laws
// ---------------------------------------------------------------------------

/// After a listed task failed, it is not timed out any more, and no other task
/// became so.
proof fn lemma_one_failed(d: Drain, id: u128, dead_end_enabled: bool, now: int)
    requires
        unique_ids(d.tables.tasks),
    ensures
        ({
            let a = d.tables.tasks;
            let b = one_failed(d, id, dead_end_enabled, now).tables.tasks;
            &&& unique_ids(b)
            &&& b.len() == a.len()
            &&& forall|i: int|
                0 <= i < a.len() ==> (#[trigger] b[i]).id == a[i].id && (timed_out(now)(b[i])
                    ==> timed_out(now)(a[i]) && a[i].id != id)
        }),
{
    let a = d.tables.tasks;
    if has_status(a, id, StatusKind::Running) {
        let t = Tables { tasks: a.map_values(timeout_row(id, now)), ..d.tables };
        assert forall|i: int, j: int|
            0 <= i < t.tasks.len() && 0 <= j < t.tasks.len() && #[trigger] t.tasks[i].id
                == #[trigger] t.tasks[j].id implies i == j by {
            assert(a[i].id == a[j].id);
        }
        let spread = propagation(t.tasks, t.links, id, StatusKind::Failure, now);
        let from = seq![id] + spread.failed;
        propagation_frame(t.tasks, t.links, id, StatusKind::Failure, now);
        climb_frame(spread.rows, t.links, from, now);
        let top = dead_ends(spread, t.links, id, dead_end_enabled, now);
        let b = one_failed(d, id, dead_end_enabled, now).tables.tasks;
        assert forall|i: int| 0 <= i < a.len() implies (#[trigger] b[i]).id == a[i].id && (
        timed_out(now)(b[i]) ==> timed_out(now)(a[i]) && a[i].id != id) by {
            assert(propagation_step(t.tasks[i], spread.rows[i]));
            assert(climb_step(spread.rows[i], climb(spread.rows, t.links, from, now).rows[i]));
        }
        assert forall|i: int, j: int|
            0 <= i < b.len() && 0 <= j < b.len() && #[trigger] b[i].id
                == #[trigger] b[j].id implies i == j by {
            assert(a[i].id == a[j].id);
        }
    }
}

pub proof fn lemma_each_failed(d: Drain, ids: Seq<u128>, dead_end_enabled: bool, now: int)
    requires
        unique_ids(d.tables.tasks),
    ensures
        ({
            let a = d.tables.tasks;
            let b = each_failed(d, ids, dead_end_enabled, now).tables.tasks;
            &&& unique_ids(b)
            &&& b.len() == a.len()
            &&& forall|i: int|
                0 <= i < a.len() ==> (#[trigger] b[i]).id == a[i].id && (timed_out(now)(b[i])
                    ==> timed_out(now)(a[i]) && !ids.contains(a[i].id))
        }),
    decreases ids.len(),
{
    if ids.len() > 0 {
        let mid = each_failed(d, ids.drop_last(), dead_end_enabled, now);
        lemma_each_failed(d, ids.drop_last(), dead_end_enabled, now);
        lemma_one_failed(mid, ids.last(), dead_end_enabled, now);
        let a = d.tables.tasks;
        let b = each_failed(d, ids, dead_end_enabled, now).tables.tasks;
        assert forall|i: int| 0 <= i < a.len() implies (#[trigger] b[i]).id == a[i].id && (
        timed_out(now)(b[i]) ==> timed_out(now)(a[i]) && !ids.contains(a[i].id)) by {
            assert(mid.tables.tasks[i].id == a[i].id);
            if timed_out(now)(b[i]) && ids.contains(a[i].id) {
                let k = choose|k: int| 0 <= k < ids.len() && ids[k] == a[i].id;
                if k < ids.len() - 1 {
                    assert(ids.drop_last()[k] == a[i].id);
                }
            }
        }
    }
}

/// The timed-out tasks outside a list.
spec fn timed_out_beyond(ids: Seq<u128>, now: int) -> spec_fn(TaskRow) -> bool {
    |r: TaskRow| timed_out(now)(r) && !ids.contains(r.id)
}

/// Leaving out listed timed-out tasks leaves out as many as are listed.
proof fn lemma_beyond(rows: Seq<TaskRow>, ids: Seq<u128>, n: int, now: int)
    requires
        ids.no_duplicates(),
        0 <= n <= ids.len(),
        forall|k: int|
            0 <= k < ids.len() ==> ids_where(rows, timed_out(now)).contains(#[trigger] ids[k]),
    ensures
        count(rows, timed_out_beyond(ids.take(n), now)) + n <= count(rows, timed_out(now)),
    decreases n,
{
    let p = timed_out_beyond(ids.take(n), now);
    if n == 0 {
        lemma_count_less(rows, p, rows, timed_out(now));
    } else {
        lemma_beyond(rows, ids, n - 1, now);
        let q = timed_out_beyond(ids.take(n - 1), now);
        let x = ids[n - 1];
        assert(ids_where(rows, timed_out(now)).contains(x));
        lemma_ids_where_has(rows, timed_out(now), x);
        let w = choose|w: int|
            0 <= w < rows.len() && #[trigger] rows[w].id == x && timed_out(now)(rows[w]);
        assert(ids.take(n)[n - 1] == x);
        assert(!p(rows[w]));
        assert(q(rows[w])) by {
            if ids.take(n - 1).contains(x) {
                let few = ids.take(n - 1);
                let k = choose|k: int| 0 <= k < few.len() && few[k] == x;
                assert(ids[k] == ids[n - 1]);
            }
        }
        assert forall|i: int| 0 <= i < rows.len() implies (#[trigger] p(rows[i]) ==> q(
            rows[i],
        )) by {
            if p(rows[i]) && ids.take(n - 1).contains(rows[i].id) {
                let few = ids.take(n - 1);
                let k = choose|k: int| 0 <= k < few.len() && few[k] == rows[i].id;
                assert(ids.take(n)[k] == rows[i].id);
            }
        }
        lemma_count_less(rows, p, rows, q);
    }
}

/// An iteration leaves no timed-out task running, where there were fewer of them
/// than its passes hold.
pub proof fn drain_leaves_no_timeout(
    d: Drain,
    limit: int,
    dead_end_enabled: bool,
    now: int,
    passes: nat,
)
    requires
        unique_ids(d.tables.tasks),
        0 < limit,
        count(d.tables.tasks, timed_out(now)) < limit * passes,
    ensures
        forall|i: int|
            0 <= i < drained(d, limit, dead_end_enabled, now, passes).tables.tasks.len()
                ==> !timed_out(now)(
                #[trigger] drained(d, limit, dead_end_enabled, now, passes).tables.tasks[i],
            ),
    decreases passes,
{
    let a = d.tables.tasks;
    let p = timed_out(now);
    let all = ids_where(a, p);
    let ids = pass_ids(d.tables, limit, now);
    lemma_ids_where_len(a, p);
    if passes == 0 {
        assert(limit * passes == 0) by (nonlinear_arith)
            requires
                passes == 0,
        ;
        assert(false);
    } else if ids.len() == 0 {
        lemma_count_zero(a, p);
        assert forall|i: int| 0 <= i < a.len() implies !timed_out(now)(#[trigger] a[i]) by {
            assert(!p(a[i]));
        }
        assert(drained(d, limit, dead_end_enabled, now, passes) == d);
    } else {
        let next = each_failed(d, ids, dead_end_enabled, now);
        let b = next.tables.tasks;
        lemma_each_failed(d, ids, dead_end_enabled, now);
        if ids.len() < limit {
            assert(ids =~= all);
            assert forall|i: int| 0 <= i < b.len() implies !timed_out(now)(#[trigger] b[i]) by {
                if timed_out(now)(b[i]) {
                    lemma_ids_where_has(a, p, a[i].id);
                    assert(p(a[i]));
                }
            }
            assert(drained(d, limit, dead_end_enabled, now, passes) == next);
        } else {
            lemma_ids_where_distinct(a, p);
            assert forall|k: int| 0 <= k < ids.len() implies all.contains(#[trigger] ids[k]) by {
                assert(all[k] == ids[k]);
            }
            assert(ids.no_duplicates());
            lemma_beyond(a, ids, ids.len() as int, now);
            assert(ids.take(ids.len() as int) =~= ids);
            assert(limit * passes == limit * (passes - 1) + limit) by (nonlinear_arith);
            assert forall|i: int| 0 <= i < b.len() implies (#[trigger] p(b[i])
                ==> timed_out_beyond(ids, now)(a[i])) by {
                assert(b[i].id == a[i].id);
            }
            lemma_count_less(b, p, a, timed_out_beyond(ids, now));
            drain_leaves_no_timeout(next, limit, dead_end_enabled, now, (passes - 1) as nat);
            assert(drained(d, limit, dead_end_enabled, now, passes) == drained(
                next,
                limit,
                dead_end_enabled,
                now,
                (passes - 1) as nat,
            ));
        }
    }
}

} // verus!
