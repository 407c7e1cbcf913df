//! Propagation of a finished task through the graph: dependency counters,
//! failure cascades and dead-end cancellation.

use crate::models::{rows, Link, StatusKind, Task, TaskRow};
use crate::tally::{
    count, has_id, ids_where, lemma_count_filter, lemma_count_len, lemma_count_less,
    lemma_count_split, lemma_count_take, lemma_filter_has, lemma_filter_take, lemma_ids_where_has,
    lemma_ids_where_none, lemma_ids_where_take,
};
use crate::text::{uuid_text, uuid_to_string};
use vstd::prelude::*;

verus! {

// ---------------------------------------------------------------------------
// The dependency graph
// ---------------------------------------------------------------------------

/// No two rows share an identifier.
pub open spec fn unique_ids(rows: Seq<TaskRow>) -> bool {
    forall|i: int, j: int|
        0 <= i < rows.len() && 0 <= j < rows.len() && #[trigger] rows[i].id == #[trigger] rows[j].id
            ==> i == j
}

/// No two links join the same parent and child.
pub open spec fn unique_links(links: Seq<Link>) -> bool {
    forall|i: int, j: int|
        #![trigger links[i], links[j]]
        0 <= i < links.len() && 0 <= j < links.len() && links[i].parent_id == links[j].parent_id
            && links[i].child_id == links[j].child_id ==> i == j
}

/// Whether `id` is a task that has not reached a terminal state.
pub open spec fn live(rows: Seq<TaskRow>, id: u128) -> bool {
    exists|i: int| 0 <= i < rows.len() && #[trigger] rows[i].id == id && !rows[i].status.terminal()
}

/// Whether a child still counts `id` as an unfinished parent: it is live, or its
/// completion has not been propagated yet.
pub open spec fn unfinished(rows: Seq<TaskRow>, open: Seq<u128>, id: u128) -> bool {
    open.contains(id) || live(rows, id)
}

/// The links into `child` from unfinished parents.
pub open spec fn waits_for(rows: Seq<TaskRow>, open: Seq<u128>, child: u128) -> spec_fn(
    Link,
) -> bool {
    |l: Link| l.child_id == child && unfinished(rows, open, l.parent_id)
}

/// The links into `child` from unfinished parents that have to succeed.
pub open spec fn waits_for_success(
    rows: Seq<TaskRow>,
    open: Seq<u128>,
    child: u128,
) -> spec_fn(Link) -> bool {
    |l: Link| l.child_id == child && l.requires_success && unfinished(rows, open, l.parent_id)
}

/// A live task's counters are the numbers of its unfinished parents; it is
/// `Waiting` only while there are some, and runs only when there are none.
pub open spec fn row_deps_ok(
    rows: Seq<TaskRow>,
    links: Seq<Link>,
    open: Seq<u128>,
    r: TaskRow,
) -> bool {
    !r.status.terminal() ==> {
        &&& r.wait_finished == count(links, waits_for(rows, open, r.id))
        &&& r.wait_success == count(links, waits_for_success(rows, open, r.id))
        &&& r.status == StatusKind::Waiting ==> r.wait_finished > 0
        &&& !r.status.blocked() ==> r.wait_finished == 0
    }
}

/// Every task's counters agree with the graph, where the completions of `open`
/// are still to be propagated.
pub open spec fn deps_ok(rows: Seq<TaskRow>, links: Seq<Link>, open: Seq<u128>) -> bool {
    forall|i: int| 0 <= i < rows.len() ==> row_deps_ok(rows, links, open, #[trigger] rows[i])
}

// ---------------------------------------------------------------------------
// What a propagation does to one row
// ---------------------------------------------------------------------------

/// The links that leave one of `parents`.
pub open spec fn links_from(links: Seq<Link>, parents: Seq<u128>) -> Seq<Link> {
    links.filter(|l: Link| parents.contains(l.parent_id))
}

/// Whether one of the links makes `child` depend on a parent's success.
pub open spec fn required_by(out: Seq<Link>, child: u128) -> bool {
    exists|k: int|
        0 <= k < out.len() && (#[trigger] out[k]).child_id == child && out[k].requires_success
}

/// Whether one of the links reaches `child` without requiring success.
pub open spec fn reached_softly(out: Seq<Link>, child: u128) -> bool {
    exists|k: int|
        0 <= k < out.len() && (#[trigger] out[k]).child_id == child && !out[k].requires_success
}

/// The links into `child` that do not require success.
pub open spec fn soft_into(child: u128) -> spec_fn(Link) -> bool {
    |l: Link| l.child_id == child && !l.requires_success
}

/// A row failed by the propagation at `now`.
pub open spec fn fail_row(r: TaskRow, reason: Seq<char>, now: int) -> TaskRow {
    TaskRow {
        status: StatusKind::Failure,
        failure_reason: Some(reason),
        ended_at: Some(now),
        ..r
    }
}

/// A row after its counters changed: a `Waiting` task with nothing left to wait
/// for becomes `Pending`; a `Paused` one stays `Paused`.
pub open spec fn unblock_row(r: TaskRow) -> TaskRow {
    if r.status == StatusKind::Waiting && r.wait_finished == 0 && r.wait_success == 0 {
        TaskRow { status: StatusKind::Pending, ..r }
    } else {
        r
    }
}

/// The reason recorded on a task failed below the first level of a cascade.
pub open spec fn cascade_reason() -> Seq<char> {
    "Required parent task failed"@
}

/// The reason recorded on a direct child of the failed task.
pub open spec fn parent_failed_reason(parent: u128) -> Seq<char> {
    "Required parent task "@ + uuid_text(parent) + " failed"@
}

/// One level of a failure cascade, whose outgoing links are `out`, on one row: a
/// blocked task that requires a failed parent fails; any other blocked task
/// loses one unfinished parent per link.
pub open spec fn cascade_row(out: Seq<Link>, now: int) -> spec_fn(TaskRow) -> TaskRow {
    |r: TaskRow|
        if !r.status.blocked() {
            r
        } else if required_by(out, r.id) {
            fail_row(r, cascade_reason(), now)
        } else if count(out, soft_into(r.id)) > 0 {
            unblock_row(
                TaskRow { wait_finished: r.wait_finished - count(out, soft_into(r.id)), ..r },
            )
        } else {
            r
        }
}

/// The direct failure of the children that require `parent`.
pub open spec fn direct_fail_row(out: Seq<Link>, parent: u128, now: int) -> spec_fn(
    TaskRow,
) -> TaskRow {
    |r: TaskRow|
        if r.status.blocked() && required_by(out, r.id) {
            fail_row(r, parent_failed_reason(parent), now)
        } else {
            r
        }
}

/// The counters of the direct children of a finished parent. Where it failed,
/// the children that required it are left out.
pub open spec fn settle_row(out: Seq<Link>, succeeded: bool, failed: bool) -> spec_fn(
    TaskRow,
) -> TaskRow {
    |r: TaskRow|
        if r.status.blocked() && (reached_softly(out, r.id) || (!failed && required_by(
            out,
            r.id,
        ))) {
            unblock_row(
                TaskRow {
                    wait_finished: r.wait_finished - 1,
                    wait_success: r.wait_success - if succeeded && required_by(out, r.id) {
                        1int
                    } else {
                        0int
                    },
                    ..r
                },
            )
        } else {
            r
        }
}

/// The rows that `step` moves into `status`.
pub open spec fn becomes(step: spec_fn(TaskRow) -> TaskRow, status: StatusKind) -> spec_fn(
    TaskRow,
) -> bool {
    |r: TaskRow| r.status != status && step(r).status == status
}

// ---------------------------------------------------------------------------
// What a propagation does to all rows
// ---------------------------------------------------------------------------

/// The outcome of a propagation.
#[verifier::ext_equal]
pub struct Spread {
    /// The rows afterwards.
    pub rows: Seq<TaskRow>,
    /// The tasks failed, level by level.
    pub failed: Seq<u128>,
    /// The tasks moved from `Waiting` to `Pending`, in the order of the levels.
    pub unblocked: Seq<u128>,
}

/// A failure cascade below `frontier`, level by level, until a level fails
/// nothing.
pub open spec fn cascade(
    rows: Seq<TaskRow>,
    links: Seq<Link>,
    frontier: Seq<u128>,
    now: int,
) -> Spread
    decreases count(rows, |r: TaskRow| r.status.blocked()),
{
    let step = cascade_row(links_from(links, frontier), now);
    let after = rows.map_values(step);
    let failed = ids_where(rows, becomes(step, StatusKind::Failure));
    let unblocked = ids_where(rows, becomes(step, StatusKind::Pending));
    if failed.len() == 0 {
        Spread { rows: after, failed, unblocked }
    } else {
        proof {
            lemma_cascade_shrinks(rows, links_from(links, frontier), now);
        }
        let deeper = cascade(after, links, failed, now);
        Spread {
            rows: deeper.rows,
            failed: failed + deeper.failed,
            unblocked: unblocked + deeper.unblocked,
        }
    }
}

/// The whole propagation of the completion of `parent` with `status`.
pub open spec fn propagation(
    rows: Seq<TaskRow>,
    links: Seq<Link>,
    parent: u128,
    status: StatusKind,
    now: int,
) -> Spread {
    let out = links_from(links, seq![parent]);
    let succeeded = status == StatusKind::Success;
    let failed = status == StatusKind::Failure || status == StatusKind::Canceled;
    let settle = settle_row(out, succeeded, failed);
    if failed {
        let direct = direct_fail_row(out, parent, now);
        let first = ids_where(rows, becomes(direct, StatusKind::Failure));
        let below = cascade(rows.map_values(direct), links, first, now);
        Spread {
            rows: below.rows.map_values(settle),
            failed: first + below.failed,
            unblocked: below.unblocked + ids_where(
                below.rows,
                becomes(settle, StatusKind::Pending),
            ),
        }
    } else {
        Spread {
            rows: rows.map_values(settle),
            failed: Seq::empty(),
            unblocked: ids_where(rows, becomes(settle, StatusKind::Pending)),
        }
    }
}

/// A level that fails something leaves fewer blocked tasks.
pub proof fn lemma_cascade_shrinks(rows: Seq<TaskRow>, out: Seq<Link>, now: int)
    requires
        ids_where(rows, becomes(cascade_row(out, now), StatusKind::Failure)).len() > 0,
    ensures
        count(rows.map_values(cascade_row(out, now)), |r: TaskRow| r.status.blocked()) < count(
            rows,
            |r: TaskRow| r.status.blocked(),
        ),
{
    let step = cascade_row(out, now);
    let p = becomes(step, StatusKind::Failure);
    let after = rows.map_values(step);
    let b = |r: TaskRow| r.status.blocked();
    let id = ids_where(rows, p)[0];
    assert(ids_where(rows, p).contains(id));
    crate::tally::lemma_ids_where_has(rows, p, id);
    let k = choose|k: int| 0 <= k < rows.len() && #[trigger] rows[k].id == id && p(rows[k]);
    assert(!b(after[k]) && b(rows[k]));
    assert forall|i: int| 0 <= i < after.len() implies (#[trigger] b(after[i]) ==> b(rows[i])) by {
    }
    crate::tally::lemma_count_less(after, b, rows, b);
}

// ---------------------------------------------------------------------------
// Executable propagation
// ---------------------------------------------------------------------------

/// The links that leave one of `parents`, in link order.
fn select_links(links: &Vec<Link>, parents: &Vec<u128>) -> (r: Vec<Link>)
    ensures
        r@ == links_from(links@, parents@),
{
    let ghost p = |l: Link| parents@.contains(l.parent_id);
    let mut r: Vec<Link> = Vec::new();
    let mut i: usize = 0;
    proof {
        reveal(Seq::filter);
        assert(links@.take(0).filter(p) =~= Seq::empty());
    }
    while i < links.len()
        invariant
            i <= links.len(),
            p == (|l: Link| parents@.contains(l.parent_id)),
            r@ == links@.take(i as int).filter(p),
        decreases links.len() - i,
    {
        proof {
            lemma_filter_take(links@, p, i as int);
        }
        if has_id(parents, links[i].parent_id) {
            r.push(links[i]);
        }
        i += 1;
    }
    assert(links@.take(i as int) =~= links@);
    r
}

/// Whether one of the links makes `child` depend on a parent's success.
fn is_required(out: &Vec<Link>, child: u128) -> (r: bool)
    ensures
        r == required_by(out@, child),
{
    let mut i: usize = 0;
    while i < out.len()
        invariant
            i <= out.len(),
            forall|k: int|
                0 <= k < i ==> !((#[trigger] out@[k]).child_id == child && out@[k].requires_success),
        decreases out.len() - i,
    {
        if out[i].child_id == child && out[i].requires_success {
            assert(out@[i as int].child_id == child);
            return true;
        }
        i += 1;
    }
    false
}

/// Whether one of the links reaches `child` without requiring success.
fn is_reached_softly(out: &Vec<Link>, child: u128) -> (r: bool)
    ensures
        r == reached_softly(out@, child),
{
    let mut i: usize = 0;
    while i < out.len()
        invariant
            i <= out.len(),
            forall|k: int|
                0 <= k < i ==> !((#[trigger] out@[k]).child_id == child
                    && !out@[k].requires_success),
        decreases out.len() - i,
    {
        if out[i].child_id == child && !out[i].requires_success {
            assert(out@[i as int].child_id == child);
            return true;
        }
        i += 1;
    }
    false
}

/// The number of links into `child` that do not require success.
fn soft_links(out: &Vec<Link>, child: u128) -> (r: usize)
    ensures
        r == count(out@, soft_into(child)),
{
    let mut r: usize = 0;
    let mut i: usize = 0;
    while i < out.len()
        invariant
            i <= out.len(),
            r == count(out@.take(i as int), soft_into(child)),
            r <= i,
        decreases out.len() - i,
    {
        proof {
            lemma_count_take(out@, soft_into(child), i as int);
        }
        if out[i].child_id == child && !out[i].requires_success {
            r += 1;
        }
        i += 1;
    }
    assert(out@.take(i as int) =~= out@);
    r
}

/// One cascade level on one task.
fn cascade_task(t: &mut Task, out: &Vec<Link>, now: i64)
    requires
        old(t)@.status.blocked() && !required_by(out@, old(t).id) ==> count(
            out@,
            soft_into(old(t).id),
        ) <= old(t)@.wait_finished - i32::MIN,
    ensures
        final(t)@ == cascade_row(out@, now as int)(old(t)@),
{
    if t.status.is_blocked() {
        if is_required(out, t.id) {
            t.status = StatusKind::Failure;
            t.failure_reason = Some("Required parent task failed".to_string());
            t.ended_at = Some(now);
        } else {
            let n: usize = soft_links(out, t.id);
            if n > 0 {
                t.wait_finished = (t.wait_finished as i64 - n as i64) as i32;
                if t.status == StatusKind::Waiting && t.wait_finished == 0 && t.wait_success == 0 {
                    t.status = StatusKind::Pending;
                }
            }
        }
    }
}

/// The direct failure of one task that requires the failed `parent`.
fn direct_fail_task(t: &mut Task, out: &Vec<Link>, reason: &String, parent: u128, now: i64)
    requires
        reason@ == parent_failed_reason(parent),
    ensures
        final(t)@ == direct_fail_row(out@, parent, now as int)(old(t)@),
{
    if t.status.is_blocked() && is_required(out, t.id) {
        t.status = StatusKind::Failure;
        t.failure_reason = Some(reason.clone());
        t.ended_at = Some(now);
    }
}

/// The counters of one direct child of a finished parent.
fn settle_task(t: &mut Task, out: &Vec<Link>, succeeded: bool, failed: bool)
    requires
        old(t)@.status.blocked() && (reached_softly(out@, old(t).id) || !failed && required_by(
            out@,
            old(t).id,
        )) ==> old(t)@.wait_finished > i32::MIN,
        old(t)@.status.blocked() && succeeded && required_by(out@, old(t).id) ==> old(
            t,
        )@.wait_success > i32::MIN,
        succeeded ==> !failed,
    ensures
        final(t)@ == settle_row(out@, succeeded, failed)(old(t)@),
{
    if t.status.is_blocked() {
        let required: bool = is_required(out, t.id);
        if is_reached_softly(out, t.id) || (!failed && required) {
            t.wait_finished = t.wait_finished - 1;
            if succeeded && required {
                t.wait_success = t.wait_success - 1;
            }
            if t.status == StatusKind::Waiting && t.wait_finished == 0 && t.wait_success == 0 {
                t.status = StatusKind::Pending;
            }
        }
    }
}

/// One cascade level over all tasks: the tasks it failed and those it unblocked.
fn cascade_level(tasks: &mut Vec<Task>, out: &Vec<Link>, now: i64) -> (r: (Vec<u128>, Vec<u128>))
    requires
        forall|i: int|
            0 <= i < old(tasks)@.len() && (#[trigger] old(tasks)@[i])@.status.blocked()
                && !required_by(out@, old(tasks)@[i].id) ==> count(
                out@,
                soft_into(old(tasks)@[i].id),
            ) <= old(tasks)@[i]@.wait_finished - i32::MIN,
    ensures
        rows(final(tasks)@) == rows(old(tasks)@).map_values(cascade_row(out@, now as int)),
        r.0@ == ids_where(
            rows(old(tasks)@),
            becomes(cascade_row(out@, now as int), StatusKind::Failure),
        ),
        r.1@ == ids_where(
            rows(old(tasks)@),
            becomes(cascade_row(out@, now as int), StatusKind::Pending),
        ),
{
    let ghost before = tasks@;
    let ghost rs = rows(before);
    let ghost step = cascade_row(out@, now as int);
    let mut failed: Vec<u128> = Vec::new();
    let mut unblocked: Vec<u128> = Vec::new();
    let mut i: usize = 0;
    proof {
        lemma_ids_where_none(rs, becomes(step, StatusKind::Failure));
        lemma_ids_where_none(rs, becomes(step, StatusKind::Pending));
    }
    while i < tasks.len()
        invariant
            i <= tasks.len(),
            tasks@.len() == before.len(),
            rs == rows(before),
            step == cascade_row(out@, now as int),
            forall|k: int|
                0 <= k < before.len() && (#[trigger] before[k])@.status.blocked() && !required_by(
                    out@,
                    before[k].id,
                ) ==> count(out@, soft_into(before[k].id)) <= before[k]@.wait_finished - i32::MIN,
            forall|k: int| 0 <= k < i ==> (#[trigger] tasks@[k])@ == step(before[k]@),
            forall|k: int| i <= k < before.len() ==> (#[trigger] tasks@[k]) == before[k],
            failed@ == ids_where(rs.take(i as int), becomes(step, StatusKind::Failure)),
            unblocked@ == ids_where(rs.take(i as int), becomes(step, StatusKind::Pending)),
        decreases tasks.len() - i,
    {
        proof {
            lemma_ids_where_take(rs, becomes(step, StatusKind::Failure), i as int);
            lemma_ids_where_take(rs, becomes(step, StatusKind::Pending), i as int);
            assert(tasks@[i as int] == before[i as int]);
        }
        let was: StatusKind = tasks[i].status;
        cascade_task(&mut tasks[i], out, now);
        if was != StatusKind::Failure && tasks[i].status == StatusKind::Failure {
            failed.push(tasks[i].id);
        }
        if was != StatusKind::Pending && tasks[i].status == StatusKind::Pending {
            unblocked.push(tasks[i].id);
        }
        i += 1;
    }
    proof {
        assert(rs.take(i as int) =~= rs);
        assert(rows(tasks@) =~= rs.map_values(step));
    }
    (failed, unblocked)
}

/// The counters of the blocked tasks leave room to be decremented once per link.
pub open spec fn counters_fit(rows: Seq<TaskRow>, links: Seq<Link>) -> bool {
    forall|i: int|
        0 <= i < rows.len() && (#[trigger] rows[i]).status.blocked() ==> rows[i].wait_finished
            - links.len() - 1 >= i32::MIN && rows[i].wait_success - 1 >= i32::MIN
}

/// Whether a cascade may still reach `id`: it is blocked, or in the frontier.
spec fn in_play(rows: Seq<TaskRow>, frontier: Seq<u128>, id: u128) -> bool {
    frontier.contains(id) || exists|i: int|
        0 <= i < rows.len() && #[trigger] rows[i].id == id && rows[i].status.blocked()
}

/// The links into `child` from tasks that a cascade may still reach.
spec fn in_play_into(rows: Seq<TaskRow>, frontier: Seq<u128>, child: u128) -> spec_fn(
    Link,
) -> bool {
    |l: Link| l.child_id == child && in_play(rows, frontier, l.parent_id)
}

/// The decrements still to come leave room, with `slack` to spare.
spec fn room(rows: Seq<TaskRow>, links: Seq<Link>, frontier: Seq<u128>) -> bool {
    forall|i: int|
        0 <= i < rows.len() && (#[trigger] rows[i]).status.blocked() ==> rows[i].wait_finished
            - count(links, in_play_into(rows, frontier, rows[i].id)) - 1 >= i32::MIN
}

proof fn lemma_room_start(rows: Seq<TaskRow>, links: Seq<Link>, frontier: Seq<u128>)
    requires
        counters_fit(rows, links),
    ensures
        room(rows, links, frontier),
{
    assert forall|i: int| 0 <= i < rows.len() && (#[trigger] rows[i]).status.blocked() implies rows[
        i
    ].wait_finished - count(links, in_play_into(rows, frontier, rows[i].id)) - 1 >= i32::MIN by {
        lemma_count_len(links, in_play_into(rows, frontier, rows[i].id));
    }
}

/// The soft links of a level are among those in play.
proof fn lemma_level_fits(
    rows: Seq<TaskRow>,
    links: Seq<Link>,
    frontier: Seq<u128>,
    child: u128,
)
    ensures
        count(links_from(links, frontier), soft_into(child)) <= count(
            links,
            in_play_into(rows, frontier, child),
        ),
{
    let from = |l: Link| frontier.contains(l.parent_id);
    lemma_count_filter(links, from, soft_into(child));
    let both = |l: Link| from(l) && soft_into(child)(l);
    let q = in_play_into(rows, frontier, child);
    assert forall|i: int| 0 <= i < links.len() implies (#[trigger] both(links[i]) ==> q(
        links[i],
    )) by {}
    lemma_count_less(links, both, links, q);
}

/// A level leaves room for the next one.
proof fn lemma_room_step(rows: Seq<TaskRow>, links: Seq<Link>, frontier: Seq<u128>, now: int)
    requires
        unique_ids(rows),
        room(rows, links, frontier),
        forall|i: int|
            0 <= i < rows.len() && (#[trigger] rows[i]).status.blocked() ==> !frontier.contains(
                rows[i].id,
            ),
    ensures
        ({
            let step = cascade_row(links_from(links, frontier), now);
            let after = rows.map_values(step);
            let next = ids_where(rows, becomes(step, StatusKind::Failure));
            &&& unique_ids(after)
            &&& room(after, links, next)
            &&& forall|i: int|
                0 <= i < after.len() && (#[trigger] after[i]).status.blocked() ==> !next.contains(
                    after[i].id,
                )
        }),
{
    let out = links_from(links, frontier);
    let step = cascade_row(out, now);
    let after = rows.map_values(step);
    let fails = becomes(step, StatusKind::Failure);
    let next = ids_where(rows, fails);
    assert(unique_ids(after)) by {
        assert forall|i: int, j: int|
            0 <= i < after.len() && 0 <= j < after.len() && #[trigger] after[i].id
                == #[trigger] after[j].id implies i == j by {
            assert(after[i].id == rows[i].id && after[j].id == rows[j].id);
        }
    }
    assert forall|i: int|
        0 <= i < after.len() && (#[trigger] after[i]).status.blocked() implies !next.contains(
        after[i].id,
    ) by {
        lemma_ids_where_has(rows, fails, after[i].id);
        assert(after[i].id == rows[i].id);
        assert(!fails(rows[i]));
    }
    assert forall|i: int| 0 <= i < after.len() && (
    #[trigger] after[i]).status.blocked() implies after[i].wait_finished - count(
        links,
        in_play_into(after, next, after[i].id),
    ) - 1 >= i32::MIN by {
        let c = rows[i].id;
        assert(after[i].id == c);
        let from = |l: Link| frontier.contains(l.parent_id);
        let used = |l: Link| from(l) && soft_into(c)(l);
        let q0 = in_play_into(rows, frontier, c);
        let q1 = in_play_into(after, next, c);
        let rest = |l: Link| q0(l) && !used(l);
        lemma_count_filter(links, from, soft_into(c));
        assert forall|k: int|
            0 <= k < links.len() implies (#[trigger] q0(links[k]) == (used(links[k]) || rest(
            links[k],
        ))) && !(used(links[k]) && rest(links[k])) by {}
        lemma_count_split(links, q0, used, rest);
        assert forall|k: int| 0 <= k < links.len() implies (#[trigger] q1(links[k]) ==> rest(
            links[k],
        )) by {
            if q1(links[k]) {
                let p = links[k].parent_id;
                lemma_ids_where_has(rows, fails, p);
                let w = choose|w: int|
                    0 <= w < rows.len() && #[trigger] rows[w].id == p && rows[w].status.blocked();
                if next.contains(p) {
                    let w = choose|w: int|
                        0 <= w < rows.len() && #[trigger] rows[w].id == p && fails(rows[w]);
                    assert(rows[w].status.blocked());
                } else {
                    let w = choose|w: int|
                        0 <= w < after.len() && #[trigger] after[w].id == p
                            && after[w].status.blocked();
                    assert(rows[w].id == p && rows[w].status.blocked());
                }
                assert(!frontier.contains(p));
            }
        }
        lemma_count_less(links, q1, links, rest);
    }
}

/// Cascades a failure level by level below `frontier`, a set of tasks that were
/// just marked `Failure`. Each level fails the blocked children that require a
/// failed parent, decrements the others once per failed parent, and moves the
/// `Waiting` ones with nothing left to wait for to `Pending`.
///
/// Returns the tasks failed below the frontier, and those unblocked.
pub fn cascade_failure_frontier(
    tasks: &mut Vec<Task>,
    links: &Vec<Link>,
    frontier: Vec<u128>,
    now: i64,
) -> (r: (Vec<u128>, Vec<u128>))
    requires
        unique_ids(rows(old(tasks)@)),
        counters_fit(rows(old(tasks)@), links@),
        forall|i: int|
            0 <= i < old(tasks)@.len() && (#[trigger] old(tasks)@[i])@.status.blocked()
                ==> !frontier@.contains(old(tasks)@[i].id),
    ensures
        rows(final(tasks)@) == cascade(rows(old(tasks)@), links@, frontier@, now as int).rows,
        r.0@ == cascade(rows(old(tasks)@), links@, frontier@, now as int).failed,
        r.1@ == cascade(rows(old(tasks)@), links@, frontier@, now as int).unblocked,
        unique_ids(rows(final(tasks)@)),
        forall|i: int|
            0 <= i < final(tasks)@.len() && (#[trigger] final(tasks)@[i])@.status.blocked()
                ==> final(tasks)@[i]@.wait_finished - 1 >= i32::MIN && final(tasks)@[i]@.wait_success == old(tasks)@[i]@.wait_success && old(tasks)@[i]@.status.blocked(),
        final(tasks)@.len() == old(tasks)@.len(),
{
    let ghost start = rows(tasks@);
    let ghost whole = cascade(start, links@, frontier@, now as int);
    let mut frontier: Vec<u128> = frontier;
    let mut failed: Vec<u128> = Vec::new();
    let mut unblocked: Vec<u128> = Vec::new();
    proof {
        lemma_room_start(start, links@, frontier@);
        assert forall|i: int|
            0 <= i < start.len() && (#[trigger] start[i]).status.blocked() implies !frontier@.contains(
            start[i].id,
        ) by {
            assert(tasks@[i]@.status.blocked());
        }
    }
    let mut go: bool = true;
    while go
        invariant
            unique_ids(rows(tasks@)),
            room(rows(tasks@), links@, frontier@),
            forall|i: int|
                0 <= i < rows(tasks@).len() && (#[trigger] rows(tasks@)[i]).status.blocked()
                    ==> !frontier@.contains(rows(tasks@)[i].id),
            tasks@.len() == start.len(),
            forall|i: int|
                0 <= i < start.len() && (#[trigger] rows(tasks@)[i]).status.blocked() ==> rows(
                    tasks@,
                )[i].wait_success == start[i].wait_success && start[i].status.blocked(),
            go ==> ({
                let left = cascade(rows(tasks@), links@, frontier@, now as int);
                &&& whole.rows == left.rows
                &&& whole.failed == failed@ + left.failed
                &&& whole.unblocked == unblocked@ + left.unblocked
            }),
            !go ==> whole.rows == rows(tasks@) && whole.failed == failed@ && whole.unblocked
                == unblocked@,
        decreases
                count(rows(tasks@), |r: TaskRow| r.status.blocked()) + if go {
                    1int
                } else {
                    0int
                },
    {
        let out: Vec<Link> = select_links(links, &frontier);
        let ghost before = rows(tasks@);
        let ghost step = cascade_row(out@, now as int);
        proof {
            assert forall|i: int|
                0 <= i < tasks@.len() && (#[trigger] tasks@[i])@.status.blocked() && !required_by(
                    out@,
                    tasks@[i].id,
                ) implies count(out@, soft_into(tasks@[i].id)) <= tasks@[i]@.wait_finished
                - i32::MIN by {
                lemma_level_fits(before, links@, frontier@, before[i].id);
                assert(before[i] == tasks@[i]@);
            }
            lemma_room_step(before, links@, frontier@, now as int);
        }
        let (level_failed, level_unblocked) = cascade_level(tasks, &out, now);
        proof {
            assert(rows(tasks@) == before.map_values(step));
            if level_failed@.len() > 0 {
                lemma_cascade_shrinks(before, out@, now as int);
            } else {
                let p = becomes(step, StatusKind::Failure);
                lemma_count_less(
                    rows(tasks@),
                    |r: TaskRow| r.status.blocked(),
                    before,
                    |r: TaskRow| r.status.blocked(),
                );
            }
            let left = cascade(before, links@, frontier@, now as int);
            if level_failed@.len() > 0 {
                let deeper = cascade(rows(tasks@), links@, level_failed@, now as int);
                assert(failed@ + left.failed =~= (failed@ + level_failed@) + deeper.failed);
                assert(unblocked@ + left.unblocked =~= (unblocked@ + level_unblocked@)
                    + deeper.unblocked);
            }
        }
        push_all(&mut failed, &level_failed);
        push_all(&mut unblocked, &level_unblocked);
        go = level_failed.len() > 0;
        frontier = level_failed;
    }
    proof {
        assert forall|i: int|
            0 <= i < tasks@.len() && (#[trigger] tasks@[i])@.status.blocked() implies tasks@[i]@.wait_finished
            - 1 >= i32::MIN && tasks@[i]@.wait_success == start[i].wait_success
            && start[i].status.blocked() by {
            assert(rows(tasks@)[i] == tasks@[i]@);
        }
    }
    (failed, unblocked)
}

/// Appends `more` to `v`.
pub fn push_all(v: &mut Vec<u128>, more: &Vec<u128>)
    ensures
        final(v)@ == old(v)@ + more@,
{
    let ghost start = v@;
    let mut i: usize = 0;
    while i < more.len()
        invariant
            i <= more.len(),
            v@ == start + more@.take(i as int),
        decreases more.len() - i,
    {
        proof {
            assert(start + more@.take(i + 1) =~= (start + more@.take(i as int)).push(
                more@[i as int],
            ));
        }
        v.push(more[i]);
        i += 1;
    }
    assert(more@.take(i as int) =~= more@);
}

/// The direct failures over all tasks.
fn direct_fail_level(tasks: &mut Vec<Task>, out: &Vec<Link>, parent: u128, now: i64) -> (r: Vec<
    u128,
>)
    ensures
        rows(final(tasks)@) == rows(old(tasks)@).map_values(
            direct_fail_row(out@, parent, now as int),
        ),
        r@ == ids_where(
            rows(old(tasks)@),
            becomes(direct_fail_row(out@, parent, now as int), StatusKind::Failure),
        ),
{
    let reason: String = "Required parent task ".to_string().concat(
        uuid_to_string(parent).as_str(),
    ).concat(" failed");
    let ghost before = tasks@;
    let ghost rs = rows(before);
    let ghost step = direct_fail_row(out@, parent, now as int);
    let mut failed: Vec<u128> = Vec::new();
    let mut i: usize = 0;
    proof {
        lemma_ids_where_none(rs, becomes(step, StatusKind::Failure));
    }
    while i < tasks.len()
        invariant
            i <= tasks.len(),
            tasks@.len() == before.len(),
            rs == rows(before),
            reason@ == parent_failed_reason(parent),
            step == direct_fail_row(out@, parent, now as int),
            forall|k: int| 0 <= k < i ==> (#[trigger] tasks@[k])@ == step(before[k]@),
            forall|k: int| i <= k < before.len() ==> (#[trigger] tasks@[k]) == before[k],
            failed@ == ids_where(rs.take(i as int), becomes(step, StatusKind::Failure)),
        decreases tasks.len() - i,
    {
        proof {
            lemma_ids_where_take(rs, becomes(step, StatusKind::Failure), i as int);
            assert(tasks@[i as int] == before[i as int]);
        }
        let was: StatusKind = tasks[i].status;
        direct_fail_task(&mut tasks[i], out, &reason, parent, now);
        if was != StatusKind::Failure && tasks[i].status == StatusKind::Failure {
            failed.push(tasks[i].id);
        }
        i += 1;
    }
    proof {
        assert(rs.take(i as int) =~= rs);
        assert(rows(tasks@) =~= rs.map_values(step));
    }
    failed
}

/// The counters of the direct children, over all tasks.
fn settle_level(tasks: &mut Vec<Task>, out: &Vec<Link>, succeeded: bool, failed: bool) -> (r: Vec<
    u128,
>)
    requires
        succeeded ==> !failed,
        forall|i: int|
            0 <= i < old(tasks)@.len() && (#[trigger] old(tasks)@[i])@.status.blocked() ==> old(
                tasks)@[i]@.wait_finished > i32::MIN && old(tasks)@[i]@.wait_success > i32::MIN,
    ensures
        rows(final(tasks)@) == rows(old(tasks)@).map_values(settle_row(out@, succeeded, failed)),
        r@ == ids_where(
            rows(old(tasks)@),
            becomes(settle_row(out@, succeeded, failed), StatusKind::Pending),
        ),
{
    let ghost before = tasks@;
    let ghost rs = rows(before);
    let ghost step = settle_row(out@, succeeded, failed);
    let mut unblocked: Vec<u128> = Vec::new();
    let mut i: usize = 0;
    proof {
        lemma_ids_where_none(rs, becomes(step, StatusKind::Pending));
    }
    while i < tasks.len()
        invariant
            i <= tasks.len(),
            tasks@.len() == before.len(),
            rs == rows(before),
            succeeded ==> !failed,
            step == settle_row(out@, succeeded, failed),
            forall|k: int|
                0 <= k < before.len() && (#[trigger] before[k])@.status.blocked()
                    ==> before[k]@.wait_finished > i32::MIN && before[k]@.wait_success > i32::MIN,
            forall|k: int| 0 <= k < i ==> (#[trigger] tasks@[k])@ == step(before[k]@),
            forall|k: int| i <= k < before.len() ==> (#[trigger] tasks@[k]) == before[k],
            unblocked@ == ids_where(rs.take(i as int), becomes(step, StatusKind::Pending)),
        decreases tasks.len() - i,
    {
        proof {
            lemma_ids_where_take(rs, becomes(step, StatusKind::Pending), i as int);
            assert(tasks@[i as int] == before[i as int]);
        }
        let was: StatusKind = tasks[i].status;
        settle_task(&mut tasks[i], out, succeeded, failed);
        if was != StatusKind::Pending && tasks[i].status == StatusKind::Pending {
            unblocked.push(tasks[i].id);
        }
        i += 1;
    }
    proof {
        assert(rs.take(i as int) =~= rs);
        assert(rows(tasks@) =~= rs.map_values(step));
    }
    unblocked
}

/// Propagates the completion of `parent_id` with `result_status` to its
/// dependent children.
///
/// 1. Where the parent failed or was canceled, the blocked children that require
///    it fail, and the failure cascades below them.
/// 2. The other blocked children lose one unfinished parent.
/// 3. Those of them that require the parent lose one required parent where it
///    succeeded.
/// 4. A `Waiting` child with both counters at zero becomes `Pending`. A `Paused`
///    child is failed and decremented like a `Waiting` one, and stays `Paused`.
///
/// Returns the tasks failed by the cascade and the tasks unblocked.
pub fn propagate_to_children(
    tasks: &mut Vec<Task>,
    links: &Vec<Link>,
    parent_id: u128,
    result_status: StatusKind,
    now: i64,
) -> (r: (Vec<u128>, Vec<u128>))
    requires
        unique_ids(rows(old(tasks)@)),
        counters_fit(rows(old(tasks)@), links@),
    ensures
        rows(final(tasks)@) == propagation(
            rows(old(tasks)@),
            links@,
            parent_id,
            result_status,
            now as int,
        ).rows,
        r.0@ == propagation(
            rows(old(tasks)@),
            links@,
            parent_id,
            result_status,
            now as int,
        ).failed,
        r.1@ == propagation(
            rows(old(tasks)@),
            links@,
            parent_id,
            result_status,
            now as int,
        ).unblocked,
{
    let succeeded: bool = result_status == StatusKind::Success;
    let failed: bool = result_status == StatusKind::Failure || result_status
        == StatusKind::Canceled;
    let mut parents: Vec<u128> = Vec::new();
    parents.push(parent_id);
    assert(parents@ =~= seq![parent_id]);
    let out: Vec<Link> = select_links(links, &parents);
    let ghost start = rows(tasks@);
    let mut all_failed: Vec<u128> = Vec::new();
    let mut unblocked: Vec<u128> = Vec::new();
    if failed {
        let ghost direct = direct_fail_row(out@, parent_id, now as int);
        let first: Vec<u128> = direct_fail_level(tasks, &out, parent_id, now);
        let ghost mid = rows(tasks@);
        proof {
            let p = becomes(direct, StatusKind::Failure);
            assert(unique_ids(mid)) by {
                assert forall|i: int, j: int|
                    0 <= i < mid.len() && 0 <= j < mid.len() && #[trigger] mid[i].id
                        == #[trigger] mid[j].id implies i == j by {
                    assert(mid[i].id == start[i].id && mid[j].id == start[j].id);
                }
            }
            assert(counters_fit(mid, links@)) by {
                assert forall|i: int| 0 <= i < mid.len() && (
                #[trigger] mid[i]).status.blocked() implies mid[i].wait_finished - links@.len() - 1
                    >= i32::MIN && mid[i].wait_success - 1 >= i32::MIN by {
                    assert(start[i].status.blocked());
                    assert(start[i].wait_finished == mid[i].wait_finished);
                }
            }
            assert forall|i: int|
                0 <= i < tasks@.len() && (#[trigger] tasks@[i])@.status.blocked() implies !first@.contains(
                tasks@[i].id,
            ) by {
                assert(mid[i] == tasks@[i]@);
                lemma_ids_where_has(start, p, start[i].id);
                assert(!p(start[i]));
            }
        }
        all_failed = clone_ids(&first);
        let ghost g1 = all_failed@;
        let ghost before_cascade = tasks@;
        let (deeper, freed) = cascade_failure_frontier(tasks, links, first, now);
        push_all(&mut all_failed, &deeper);
        unblocked = freed;
        proof {
            assert forall|i: int|
                0 <= i < tasks@.len() && (
                #[trigger] tasks@[i])@.status.blocked() implies tasks@[i]@.wait_finished > i32::MIN
                && tasks@[i]@.wait_success > i32::MIN by {
                assert(before_cascade[i]@ == mid[i]);
            }
        }
    } else {
        proof {
            assert forall|i: int|
                0 <= i < tasks@.len() && (
                #[trigger] tasks@[i])@.status.blocked() implies tasks@[i]@.wait_finished > i32::MIN
                && tasks@[i]@.wait_success > i32::MIN by {
                assert(tasks@[i]@ == start[i]);
            }
        }
    }
    let settled: Vec<u128> = settle_level(tasks, &out, succeeded, failed);
    push_all(&mut unblocked, &settled);
    proof {
        if !failed {
            assert(unblocked@ =~= settled@);
        }
    }
    (all_failed, unblocked)
}

/// A copy of a list of identifiers.
pub fn clone_ids(v: &Vec<u128>) -> (r: Vec<u128>)
    ensures
        r@ == v@,
{
    let mut r: Vec<u128> = Vec::new();
    push_all(&mut r, v);
    assert(r@ =~= v@);
    r
}

// ---------------------------------------------------------------------------
// Dead-end ancestor cancellation
// ---------------------------------------------------------------------------

/// An ancestor task that was canceled by dead-end detection.
#[derive(Clone, Copy, Debug, PartialEq, Eq, Structural)]
pub struct CanceledAncestor {
    /// The canceled task.
    pub id: u128,
    /// Whether it was `Running` or `Claimed`, so that its on_start webhook may
    /// have run and it needs a cancel notification.
    pub was_active: bool,
}

/// The reason recorded on a dead-end ancestor.
pub open spec fn dead_end_reason() -> Seq<char> {
    "All child tasks already terminated"@
}

/// Whether `id` has a child among `ids`.
pub open spec fn parent_of_any(links: Seq<Link>, ids: Seq<u128>, id: u128) -> bool {
    exists|k: int|
        0 <= k < links.len() && (#[trigger] links[k]).parent_id == id && ids.contains(
            links[k].child_id,
        )
}

/// Whether `id` has a child that is not terminal.
pub open spec fn has_live_child(rows: Seq<TaskRow>, links: Seq<Link>, id: u128) -> bool {
    exists|k: int|
        0 <= k < links.len() && (#[trigger] links[k]).parent_id == id && live(
            rows,
            links[k].child_id,
        )
}

/// Whether the newly terminal `ids` make the row a dead end: it is not terminal,
/// has a child among them, and no child left to run.
pub open spec fn dead_end(rows: Seq<TaskRow>, links: Seq<Link>, ids: Seq<u128>) -> spec_fn(
    TaskRow,
) -> bool {
    |r: TaskRow|
        !r.status.terminal() && parent_of_any(links, ids, r.id) && !has_live_child(
            rows,
            links,
            r.id,
        )
}

/// One upward step on one row.
pub open spec fn dead_end_row(
    rows: Seq<TaskRow>,
    links: Seq<Link>,
    ids: Seq<u128>,
    now: int,
) -> spec_fn(TaskRow) -> TaskRow {
    |r: TaskRow|
        if dead_end(rows, links, ids)(r) {
            canceled_row(r, dead_end_reason(), now)
        } else {
            r
        }
}

/// The ancestors that one upward step cancels.
pub open spec fn dead_end_canceled(rows: Seq<TaskRow>, links: Seq<Link>, ids: Seq<u128>) -> Seq<
    CanceledAncestor,
> {
    rows.filter(dead_end(rows, links, ids)).map_values(
        |r: TaskRow| CanceledAncestor { id: r.id, was_active: r.status.active() },
    )
}

/// The rows that an upward step cancels and climbs past.
pub open spec fn dead_end_passed(rows: Seq<TaskRow>, links: Seq<Link>, ids: Seq<u128>) -> spec_fn(
    TaskRow,
) -> bool {
    |r: TaskRow| dead_end(rows, links, ids)(r) && !r.dead_end_barrier
}

/// The outcome of a dead-end cancellation.
#[verifier::ext_equal]
pub struct Climb {
    /// The rows afterwards.
    pub rows: Seq<TaskRow>,
    /// The canceled ancestors, step by step.
    pub canceled: Seq<CanceledAncestor>,
}

/// Climbs from the newly terminal `ids` until a step cancels nothing.
pub open spec fn climb(rows: Seq<TaskRow>, links: Seq<Link>, ids: Seq<u128>, now: int) -> Climb
    decreases count(rows, |r: TaskRow| !r.status.terminal()),
{
    let canceled = dead_end_canceled(rows, links, ids);
    if canceled.len() == 0 {
        Climb { rows, canceled }
    } else {
        proof {
            lemma_climb_shrinks(rows, links, ids, now);
        }
        let after = rows.map_values(dead_end_row(rows, links, ids, now));
        let next = ids_where(rows, dead_end_passed(rows, links, ids));
        let higher = climb(after, links, next, now);
        Climb { rows: higher.rows, canceled: canceled + higher.canceled }
    }
}

/// A step that cancels something leaves fewer live tasks.
pub proof fn lemma_climb_shrinks(rows: Seq<TaskRow>, links: Seq<Link>, ids: Seq<u128>, now: int)
    requires
        dead_end_canceled(rows, links, ids).len() > 0,
    ensures
        count(
            rows.map_values(dead_end_row(rows, links, ids, now)),
            |r: TaskRow| !r.status.terminal(),
        ) < count(rows, |r: TaskRow| !r.status.terminal()),
{
    let p = dead_end(rows, links, ids);
    let after = rows.map_values(dead_end_row(rows, links, ids, now));
    let b = |r: TaskRow| !r.status.terminal();
    let sel = rows.filter(p);
    assert(sel.contains(sel[0]));
    lemma_filter_has(rows, p, sel[0]);
    let k = choose|k: int| 0 <= k < rows.len() && rows[k] == sel[0];
    assert(!b(after[k]) && b(rows[k]));
    assert forall|i: int| 0 <= i < after.len() implies (#[trigger] b(after[i]) ==> b(rows[i])) by {}
    lemma_count_less(after, b, rows, b);
}

/// Whether `id` is a task that has not reached a terminal state.
fn is_live(tasks: &Vec<Task>, id: u128) -> (r: bool)
    ensures
        r == live(rows(tasks@), id),
{
    let mut i: usize = 0;
    while i < tasks.len()
        invariant
            i <= tasks.len(),
            forall|k: int|
                0 <= k < i ==> !((#[trigger] rows(tasks@)[k]).id == id && !rows(
                    tasks@,
                )[k].status.terminal()),
        decreases tasks.len() - i,
    {
        if tasks[i].id == id && !tasks[i].status.is_terminal() {
            assert(rows(tasks@)[i as int].id == id);
            return true;
        }
        i += 1;
    }
    false
}

/// Whether the newly terminal `ids` make the task a dead end.
fn is_dead_end(t: &Task, tasks: &Vec<Task>, links: &Vec<Link>, ids: &Vec<u128>) -> (r: bool)
    ensures
        r == dead_end(rows(tasks@), links@, ids@)(t@),
{
    if t.status.is_terminal() {
        return false;
    }
    let mut found: bool = false;
    let mut i: usize = 0;
    while i < links.len()
        invariant
            i <= links.len(),
            found == (exists|k: int|
                0 <= k < i && (#[trigger] links@[k]).parent_id == t.id && ids@.contains(
                    links@[k].child_id,
                )),
            forall|k: int|
                0 <= k < i ==> !((#[trigger] links@[k]).parent_id == t.id && live(
                    rows(tasks@),
                    links@[k].child_id,
                )),
        decreases links.len() - i,
    {
        let l: Link = links[i];
        if l.parent_id == t.id {
            if is_live(tasks, l.child_id) {
                assert(links@[i as int].parent_id == t.id);
                return false;
            }
            if has_id(ids, l.child_id) {
                found = true;
            }
        }
        i += 1;
    }
    found
}

/// One upward step over all tasks: the ancestors it canceled, and the ones to
/// climb from next.
fn dead_end_level(tasks: &mut Vec<Task>, links: &Vec<Link>, ids: &Vec<u128>, now: i64) -> (r: (
    Vec<CanceledAncestor>,
    Vec<u128>,
))
    ensures
        rows(final(tasks)@) == rows(old(tasks)@).map_values(
            dead_end_row(rows(old(tasks)@), links@, ids@, now as int),
        ),
        r.0@ == dead_end_canceled(rows(old(tasks)@), links@, ids@),
        r.1@ == ids_where(rows(old(tasks)@), dead_end_passed(rows(old(tasks)@), links@, ids@)),
{
    let ghost before = tasks@;
    let ghost rs = rows(before);
    let ghost p = dead_end(rs, links@, ids@);
    let ghost pass = dead_end_passed(rs, links@, ids@);
    let ghost step = dead_end_row(rs, links@, ids@, now as int);
    let ghost f = |r: TaskRow| CanceledAncestor { id: r.id, was_active: r.status.active() };
    // The verdicts are taken on the rows as they stand before the step.
    let mut verdicts: Vec<bool> = Vec::new();
    let mut i: usize = 0;
    while i < tasks.len()
        invariant
            i <= tasks.len(),
            tasks@ == before,
            rs == rows(before),
            p == dead_end(rs, links@, ids@),
            verdicts@.len() == i,
            forall|k: int| 0 <= k < i ==> #[trigger] verdicts@[k] == p(rs[k]),
        decreases tasks.len() - i,
    {
        let v: bool = is_dead_end(&tasks[i], tasks, links, ids);
        verdicts.push(v);
        i += 1;
    }
    let mut canceled: Vec<CanceledAncestor> = Vec::new();
    let mut next: Vec<u128> = Vec::new();
    let mut i: usize = 0;
    proof {
        reveal(Seq::filter);
        assert(rs.take(0).filter(p).map_values(f) =~= Seq::empty());
        lemma_ids_where_none(rs, pass);
    }
    while i < tasks.len()
        invariant
            i <= tasks.len(),
            tasks@.len() == before.len(),
            verdicts@.len() == before.len(),
            rs == rows(before),
            p == dead_end(rs, links@, ids@),
            pass == dead_end_passed(rs, links@, ids@),
            step == dead_end_row(rs, links@, ids@, now as int),
            f == (|r: TaskRow| CanceledAncestor { id: r.id, was_active: r.status.active() }),
            forall|k: int| 0 <= k < before.len() ==> #[trigger] verdicts@[k] == p(rs[k]),
            forall|k: int| 0 <= k < i ==> (#[trigger] tasks@[k])@ == step(before[k]@),
            forall|k: int| i <= k < before.len() ==> (#[trigger] tasks@[k]) == before[k],
            canceled@ == rs.take(i as int).filter(p).map_values(f),
            next@ == ids_where(rs.take(i as int), pass),
        decreases tasks.len() - i,
    {
        proof {
            lemma_filter_take(rs, p, i as int);
            lemma_ids_where_take(rs, pass, i as int);
            assert(tasks@[i as int] == before[i as int]);
            assert(verdicts@[i as int] == p(rs[i as int]));
            assert(rs.take(i as int).filter(p).push(rs[i as int]).map_values(f) =~= rs.take(
                i as int,
            ).filter(p).map_values(f).push(f(rs[i as int])));
        }
        if verdicts[i] {
            canceled.push(
                CanceledAncestor { id: tasks[i].id, was_active: tasks[i].status.is_active() },
            );
            if !tasks[i].dead_end_barrier {
                next.push(tasks[i].id);
            }
            cancel_row(&mut tasks[i], "All child tasks already terminated", now);
        }
        i += 1;
    }
    proof {
        assert(rs.take(i as int) =~= rs);
        assert(rows(tasks@) =~= rs.map_values(step));
    }
    (canceled, next)
}

/// A row canceled at `now`.
pub open spec fn canceled_row(r: TaskRow, reason: Seq<char>, now: int) -> TaskRow {
    TaskRow {
        status: StatusKind::Canceled,
        failure_reason: Some(reason),
        ended_at: Some(now),
        last_updated: now,
        ..r
    }
}

/// Cancels one task.
pub(crate) fn cancel_row(t: &mut Task, reason: &str, now: i64)
    ensures
        final(t)@ == canceled_row(old(t)@, reason@, now as int),
{
    t.status = StatusKind::Canceled;
    t.failure_reason = Some(reason.to_string());
    t.ended_at = Some(now);
    t.last_updated = now;
}

/// Cancels the ancestors whose children are all terminal, starting from the
/// newly terminal tasks and climbing until no more are found. The climb does not
/// continue past a task marked as a barrier.
pub fn cancel_dead_end_ancestors(
    tasks: &mut Vec<Task>,
    links: &Vec<Link>,
    newly_terminal_ids: &Vec<u128>,
    now: i64,
) -> (r: Vec<CanceledAncestor>)
    ensures
        rows(final(tasks)@) == climb(
            rows(old(tasks)@),
            links@,
            newly_terminal_ids@,
            now as int,
        ).rows,
        r@ == climb(rows(old(tasks)@), links@, newly_terminal_ids@, now as int).canceled,
{
    let ghost whole = climb(rows(tasks@), links@, newly_terminal_ids@, now as int);
    let mut ids: Vec<u128> = clone_ids(newly_terminal_ids);
    let mut all: Vec<CanceledAncestor> = Vec::new();
    let mut go: bool = true;
    while go
        invariant
            go ==> ({
                let left = climb(rows(tasks@), links@, ids@, now as int);
                &&& whole.rows == left.rows
                &&& whole.canceled == all@ + left.canceled
            }),
            !go ==> whole.rows == rows(tasks@) && whole.canceled == all@,
        decreases
                count(rows(tasks@), |r: TaskRow| !r.status.terminal()) + if go {
                    1int
                } else {
                    0int
                },
    {
        let ghost before = rows(tasks@);
        let ghost left = climb(before, links@, ids@, now as int);
        let (canceled, next) = dead_end_level(tasks, links, &ids, now);
        go = canceled.len() > 0;
        proof {
            if go {
                lemma_climb_shrinks(before, links@, ids@, now as int);
                let higher = climb(rows(tasks@), links@, next@, now as int);
                assert(all@ + left.canceled =~= (all@ + canceled@) + higher.canceled);
            } else {
                let p = dead_end(before, links@, ids@);
                assert forall|i: int| 0 <= i < before.len() implies !p(before[i]) by {
                    if p(before[i]) {
                        assert(before.contains(before[i]));
                        lemma_filter_has(before, p, before[i]);
                        assert(before.filter(p).len() == 0);
                    }
                }
                assert(rows(tasks@) =~= before);
                assert(all@ + left.canceled =~= all@);
            }
        }
        let mut k: usize = 0;
        let ghost all0 = all@;
        while k < canceled.len()
            invariant
                k <= canceled.len(),
                all@ == all0 + canceled@.take(k as int),
            decreases canceled.len() - k,
        {
            proof {
                assert(all0 + canceled@.take(k + 1) =~= (all0 + canceled@.take(k as int)).push(
                    canceled@[k as int],
                ));
            }
            all.push(canceled[k]);
            k += 1;
        }
        assert(canceled@.take(k as int) =~= canceled@);
        ids = next;
    }
    all
}

} // verus!
