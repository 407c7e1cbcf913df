//! The webhook delivery queue.
//!
//! Rows are enqueued by the transaction that changed a task, claimed by lease,
//! and, the moment delivery terminates, removed here and recorded in the ledger.
//! A present row awaits delivery, so a row carries no status. Per idempotency
//! key the queue and the ledger are disjoint.

use crate::models::{
    ledger_rows, outbox_rows, LedgerRow, OutboxRow, TriggerCondition, TriggerKind,
    WebhookExecution, WebhookExecutionStatus, WebhookOutbox,
};
use crate::order::{first_n, order, order_sorts, pick, sort_positions, SortKey};
use crate::tally::{count, lemma_count_take, lemma_filter_take};
use crate::text::{truncate, truncated};
use vstd::prelude::*;

verus! {

/// Whether a queue row carries `key`.
pub open spec fn queued(outbox: Seq<OutboxRow>, key: Seq<char>) -> bool {
    exists|i: int| 0 <= i < outbox.len() && (#[trigger] outbox[i]).key == key
}

/// Whether a ledger row carries `key`.
pub open spec fn recorded(ledger: Seq<LedgerRow>, key: Seq<char>) -> bool {
    exists|i: int| 0 <= i < ledger.len() && (#[trigger] ledger[i]).key == key
}

/// A fresh queue row, due at once.
pub open spec fn fresh_row(
    task_id: Option<u128>,
    batch_id: Option<u128>,
    trigger: TriggerKind,
    condition: TriggerCondition,
    key: Seq<char>,
    now: int,
) -> OutboxRow {
    OutboxRow {
        id: None,
        task_id,
        batch_id,
        trigger,
        condition,
        key,
        attempts: 0,
        created_at: now,
        updated_at: now,
        next_attempt_at: now,
        last_error: None,
        lease_token: None,
    }
}

/// The queue after `row` is enqueued: nothing changes where its key is already
/// queued or already recorded.
pub open spec fn enqueued(
    outbox: Seq<OutboxRow>,
    ledger: Seq<LedgerRow>,
    row: OutboxRow,
) -> Seq<OutboxRow> {
    if queued(outbox, row.key) || recorded(ledger, row.key) {
        outbox
    } else {
        outbox.push(row)
    }
}

/// Every key occurs at most once over the queue and at most once over the
/// ledger, and never in both.
pub open spec fn keys_disjoint(outbox: Seq<OutboxRow>, ledger: Seq<LedgerRow>) -> bool {
    &&& forall|i: int, j: int|
        #![trigger outbox[i], outbox[j]]
        0 <= i < outbox.len() && 0 <= j < outbox.len() && outbox[i].key == outbox[j].key ==> i == j
    &&& forall|i: int, j: int|
        #![trigger ledger[i], ledger[j]]
        0 <= i < ledger.len() && 0 <= j < ledger.len() && ledger[i].key == ledger[j].key ==> i == j
    &&& forall|i: int, j: int|
        #![trigger outbox[i], ledger[j]]
        0 <= i < outbox.len() && 0 <= j < ledger.len() ==> outbox[i].key != ledger[j].key
}

/// Enqueueing keeps queue and ledger disjoint.
pub proof fn enqueue_keeps_disjoint(
    outbox: Seq<OutboxRow>,
    ledger: Seq<LedgerRow>,
    row: OutboxRow,
)
    requires
        keys_disjoint(outbox, ledger),
    ensures
        keys_disjoint(enqueued(outbox, ledger, row), ledger),
{
}

/// Once an event is queued or recorded, enqueueing it again changes nothing.
pub proof fn enqueue_is_idempotent(
    outbox: Seq<OutboxRow>,
    ledger: Seq<LedgerRow>,
    row: OutboxRow,
    again: OutboxRow,
)
    requires
        row.key == again.key,
    ensures
        enqueued(enqueued(outbox, ledger, row), ledger, again) == enqueued(outbox, ledger, row),
{
    let o = enqueued(outbox, ledger, row);
    if o != outbox {
        assert(o[outbox.len() as int].key == again.key);
    }
}

/// Whether a queue row carries `key`.
fn is_queued(outbox: &Vec<WebhookOutbox>, key: &String) -> (r: bool)
    ensures
        r == queued(outbox_rows(outbox@), key@),
{
    let mut i: usize = 0;
    while i < outbox.len()
        invariant
            i <= outbox.len(),
            forall|k: int| 0 <= k < i ==> (#[trigger] outbox_rows(outbox@)[k]).key != key@,
        decreases outbox.len() - i,
    {
        if outbox[i].idempotency_key == *key {
            assert(outbox_rows(outbox@)[i as int].key == key@);
            return true;
        }
        i += 1;
    }
    false
}

/// Whether a ledger row carries `key`.
fn is_recorded(ledger: &Vec<WebhookExecution>, key: &String) -> (r: bool)
    ensures
        r == recorded(ledger_rows(ledger@), key@),
{
    let mut i: usize = 0;
    while i < ledger.len()
        invariant
            i <= ledger.len(),
            forall|k: int| 0 <= k < i ==> (#[trigger] ledger_rows(ledger@)[k]).key != key@,
        decreases ledger.len() - i,
    {
        if ledger[i].idempotency_key == *key {
            assert(ledger_rows(ledger@)[i as int].key == key@);
            return true;
        }
        i += 1;
    }
    false
}

/// Enqueues `row` unless its key is queued or recorded. Returns whether it was
/// enqueued.
fn enqueue_row(
    outbox: &mut Vec<WebhookOutbox>,
    ledger: &Vec<WebhookExecution>,
    row: WebhookOutbox,
) -> (r: bool)
    ensures
        outbox_rows(final(outbox)@) == enqueued(
            outbox_rows(old(outbox)@),
            ledger_rows(ledger@),
            row@,
        ),
        r == !(queued(outbox_rows(old(outbox)@), row@.key) || recorded(
            ledger_rows(ledger@),
            row@.key,
        )),
{
    if is_queued(outbox, &row.idempotency_key) || is_recorded(ledger, &row.idempotency_key) {
        return false;
    }
    let ghost before = outbox@;
    let ghost added = row@;
    outbox.push(row);
    assert(outbox_rows(outbox@) =~= outbox_rows(before).push(added));
    true
}

/// Enqueues a queue row for a task-level webhook event, in the transaction that
/// changed the task. A key that is still queued, or already recorded in the
/// ledger in any state, is never enqueued again. The row is due at once.
pub fn enqueue_outbox(
    outbox: &mut Vec<WebhookOutbox>,
    ledger: &Vec<WebhookExecution>,
    task_id: u128,
    trigger_kind: TriggerKind,
    trigger_condition: TriggerCondition,
    key: String,
    now: i64,
)
    ensures
        outbox_rows(final(outbox)@) == enqueued(
            outbox_rows(old(outbox)@),
            ledger_rows(ledger@),
            fresh_row(
                Some(task_id),
                None,
                trigger_kind,
                trigger_condition,
                key@,
                now as int,
            ),
        ),
{
    let row: WebhookOutbox = WebhookOutbox {
        id: None,
        task_id: Some(task_id),
        batch_id: None,
        trigger: trigger_kind,
        condition: trigger_condition,
        idempotency_key: key,
        attempts: 0,
        created_at: now,
        updated_at: now,
        next_attempt_at: now,
        last_error: None,
        lease_token: None,
    };
    let _ = enqueue_row(outbox, ledger, row);
}

/// Enqueues the `batch_complete` row of a batch whose last task just became
/// terminal, under the same guards as [`enqueue_outbox`]. The condition is the
/// `Success` sentinel. Returns whether a row was enqueued.
pub fn enqueue_batch_complete_outbox(
    outbox: &mut Vec<WebhookOutbox>,
    ledger: &Vec<WebhookExecution>,
    batch_id: u128,
    key: String,
    now: i64,
) -> (r: bool)
    ensures
        outbox_rows(final(outbox)@) == enqueued(
            outbox_rows(old(outbox)@),
            ledger_rows(ledger@),
            batch_row(batch_id, key@, now as int),
        ),
        r == !(queued(outbox_rows(old(outbox)@), key@) || recorded(ledger_rows(ledger@), key@)),
{
    let row: WebhookOutbox = WebhookOutbox {
        id: None,
        task_id: None,
        batch_id: Some(batch_id),
        trigger: TriggerKind::BatchComplete,
        condition: TriggerCondition::Success,
        idempotency_key: key,
        attempts: 0,
        created_at: now,
        updated_at: now,
        next_attempt_at: now,
        last_error: None,
        lease_token: None,
    };
    enqueue_row(outbox, ledger, row)
}

/// The row that signals a batch's completion.
pub open spec fn batch_row(batch_id: u128, key: Seq<char>, now: int) -> OutboxRow {
    fresh_row(
        None,
        Some(batch_id),
        TriggerKind::BatchComplete,
        TriggerCondition::Success,
        key,
        now,
    )
}

/// How much work is in the queue.
#[derive(Clone, Copy, Debug, PartialEq, Eq, Structural)]
pub struct OutboxBacklogStats {
    /// Rows that are due.
    pub ready: i64,
    /// Rows that are leased or backing off.
    pub leased: i64,
    /// Age in microseconds of the oldest due row; zero where there is none.
    pub oldest_ready_age_micros: i128,
}

/// The rows that are due.
pub open spec fn mature(now: int) -> spec_fn(OutboxRow) -> bool {
    |r: OutboxRow| r.next_attempt_at <= now
}

/// The rows that are not due yet.
pub open spec fn immature(now: int) -> spec_fn(OutboxRow) -> bool {
    |r: OutboxRow| r.next_attempt_at > now
}

/// `age` is the age of the oldest due row, or zero where no row is due.
pub open spec fn oldest_age(outbox: Seq<OutboxRow>, now: int, age: int) -> bool {
    if exists|i: int| 0 <= i < outbox.len() && mature(now)(#[trigger] outbox[i]) {
        &&& exists|i: int|
            0 <= i < outbox.len() && mature(now)(#[trigger] outbox[i]) && age == now
                - outbox[i].created_at
        &&& forall|i: int|
            0 <= i < outbox.len() && mature(now)(#[trigger] outbox[i]) ==> age >= now
                - outbox[i].created_at
    } else {
        age == 0
    }
}

/// Snapshots the backlog: how many rows are due, how many are not, and the age
/// of the oldest due row.
pub fn outbox_backlog_stats(outbox: &Vec<WebhookOutbox>, now: i64) -> (r: OutboxBacklogStats)
    requires
        outbox@.len() <= i64::MAX,
    ensures
        r.ready == count(outbox_rows(outbox@), mature(now as int)),
        r.leased == count(outbox_rows(outbox@), immature(now as int)),
        oldest_age(outbox_rows(outbox@), now as int, r.oldest_ready_age_micros as int),
{
    let ghost rs = outbox_rows(outbox@);
    let mut ready: i64 = 0;
    let mut leased: i64 = 0;
    let mut age: Option<i128> = None;
    let mut i: usize = 0;
    while i < outbox.len()
        invariant
            i <= outbox.len(),
            outbox@.len() <= i64::MAX,
            rs == outbox_rows(outbox@),
            ready == count(rs.take(i as int), mature(now as int)),
            leased == count(rs.take(i as int), immature(now as int)),
            ready <= i,
            leased <= i,
            age is None ==> forall|k: int|
                0 <= k < i ==> !mature(now as int)(#[trigger] rs[k]),
            age matches Some(a) ==> exists|k: int|
                0 <= k < i && mature(now as int)(#[trigger] rs[k]) && a == now
                    - rs[k].created_at,
            age matches Some(a) ==> forall|k: int|
                0 <= k < i && mature(now as int)(#[trigger] rs[k]) ==> a >= now
                    - rs[k].created_at,
        decreases outbox.len() - i,
    {
        proof {
            lemma_count_take(rs, mature(now as int), i as int);
            lemma_count_take(rs, immature(now as int), i as int);
            assert(rs[i as int] == outbox@[i as int]@);
        }
        if outbox[i].next_attempt_at <= now {
            ready += 1;
            let a: i128 = now as i128 - outbox[i].created_at as i128;
            age = match age {
                Some(b) if b >= a => Some(b),
                _ => Some(a),
            };
        } else {
            leased += 1;
        }
        i += 1;
    }
    assert(rs.take(i as int) =~= rs);
    let oldest_ready_age_micros: i128 = match age {
        Some(a) => a,
        None => 0,
    };
    OutboxBacklogStats { ready, leased, oldest_ready_age_micros }
}

// ---------------------------------------------------------------------------
// Claiming
// ---------------------------------------------------------------------------

/// Whether the start webhook of `task` is in flight: its ledger row is pending
/// and was updated within `stale_secs`.
pub open spec fn start_in_flight(
    ledger: Seq<LedgerRow>,
    task: Option<u128>,
    now: int,
    stale_secs: int,
) -> bool {
    exists|i: int|
        0 <= i < ledger.len() && task is Some && (#[trigger] ledger[i]).task_id == task
            && ledger[i].trigger == TriggerKind::Start && ledger[i].status
            == WebhookExecutionStatus::Pending && ledger[i].updated_at > now - stale_secs
            * 1_000_000
}

/// Whether a row may be delivered: it is due, and its task's start webhook is
/// not in flight.
pub open spec fn deliverable(ledger: Seq<LedgerRow>, now: int, stale_secs: int) -> spec_fn(
    OutboxRow,
) -> bool {
    |r: OutboxRow|
        r.next_attempt_at <= now && !start_in_flight(ledger, r.task_id, now, stale_secs)
}

/// The positions of the rows that satisfy `p`.
pub open spec fn positions<A>(s: Seq<A>, p: spec_fn(A) -> bool) -> Seq<int>
    decreases s.len(),
{
    if s.len() == 0 {
        Seq::empty()
    } else if p(s.last()) {
        positions(s.drop_last(), p).push(s.len() - 1)
    } else {
        positions(s.drop_last(), p)
    }
}

/// The sort key of a queue row: oldest first.
pub open spec fn age_key(r: OutboxRow) -> SortKey {
    (r.created_at as i128, 0i128, 0u128)
}

/// The positions of the rows that a claim takes: the first `limit` deliverable
/// ones, oldest first.
pub open spec fn claimable(
    outbox: Seq<OutboxRow>,
    ledger: Seq<LedgerRow>,
    limit: int,
    now: int,
    stale_secs: int,
) -> Seq<int> {
    let due = positions(outbox, deliverable(ledger, now, stale_secs));
    let keys = due.map_values(|k: int| age_key(outbox[k]));
    first_n(pick(due, order(keys)), limit)
}

pub proof fn lemma_positions_take<A>(s: Seq<A>, p: spec_fn(A) -> bool, i: int)
    requires
        0 <= i < s.len(),
    ensures
        positions(s.take(i + 1), p) == if p(s[i]) {
            positions(s.take(i), p).push(i)
        } else {
            positions(s.take(i), p)
        },
{
    assert(s.take(i + 1).drop_last() =~= s.take(i));
}

/// Positions lie in the sequence, ascend, and are exactly those that satisfy
/// the predicate.
pub proof fn lemma_positions<A>(s: Seq<A>, p: spec_fn(A) -> bool)
    ensures
        positions(s, p).len() <= s.len(),
        forall|k: int|
            0 <= k < positions(s, p).len() ==> 0 <= #[trigger] positions(s, p)[k] < s.len() && p(
                s[positions(s, p)[k]],
            ),
        forall|k: int, l: int|
            0 <= k < l < positions(s, p).len() ==> #[trigger] positions(s, p)[k]
                < #[trigger] positions(s, p)[l],
        forall|i: int| 0 <= i < s.len() && p(#[trigger] s[i]) ==> positions(s, p).contains(i),
    decreases s.len(),
{
    if s.len() > 0 {
        let n = s.len() - 1;
        let init = s.drop_last();
        lemma_positions(init, p);
        let q = positions(init, p);
        let full = positions(s, p);
        assert forall|k: int| 0 <= k < full.len() implies 0 <= #[trigger] full[k] < s.len() && p(
            s[full[k]],
        ) by {
            if k < q.len() {
                assert(full[k] == q[k]);
                assert(init[q[k]] == s[q[k]]);
            }
        }
        assert forall|i: int| 0 <= i < s.len() && p(#[trigger] s[i]) implies full.contains(i) by {
            if i < n {
                assert(init[i] == s[i]);
                assert(q.contains(i));
                let w = choose|w: int| 0 <= w < q.len() && q[w] == i;
                assert(full[w] == i);
            } else {
                assert(full[full.len() - 1] == i);
            }
        }
    }
}

/// Whether the start webhook of `task` is in flight.
fn is_start_in_flight(
    ledger: &Vec<WebhookExecution>,
    task: Option<u128>,
    now: i64,
    stale_secs: i64,
) -> (r: bool)
    ensures
        r == start_in_flight(ledger_rows(ledger@), task, now as int, stale_secs as int),
{
    let id: u128 = match task {
        Some(id) => id,
        None => {
            return false;
        },
    };
    let since: i128 = now as i128 - stale_secs as i128 * 1_000_000;
    let ghost rs = ledger_rows(ledger@);
    let mut i: usize = 0;
    while i < ledger.len()
        invariant
            i <= ledger.len(),
            rs == ledger_rows(ledger@),
            task == Some(id),
            since == now - stale_secs * 1_000_000,
            forall|k: int|
                0 <= k < i ==> !((#[trigger] rs[k]).task_id == task && rs[k].trigger
                    == TriggerKind::Start && rs[k].status == WebhookExecutionStatus::Pending
                    && rs[k].updated_at > now - stale_secs * 1_000_000),
        decreases ledger.len() - i,
    {
        assert(rs[i as int] == ledger@[i as int]@);
        let same: bool = match ledger[i].task_id {
            Some(t) => t == id,
            None => false,
        };
        if same && ledger[i].trigger == TriggerKind::Start && ledger[i].status
            == WebhookExecutionStatus::Pending && ledger[i].updated_at as i128 > since {
            return true;
        }
        i += 1;
    }
    false
}

/// The positions of the rows that a claim takes.
fn claim_positions(
    outbox: &Vec<WebhookOutbox>,
    ledger: &Vec<WebhookExecution>,
    limit: i64,
    start_stale_secs: i64,
    now: i64,
) -> (r: Vec<usize>)
    requires
        limit >= 0,
    ensures
        r@.map_values(|k: usize| k as int) == claimable(
            outbox_rows(outbox@),
            ledger_rows(ledger@),
            limit as int,
            now as int,
            start_stale_secs as int,
        ),
        forall|k: int| 0 <= k < r@.len() ==> #[trigger] r@[k] < outbox@.len(),
{
    let ghost rs = outbox_rows(outbox@);
    let ghost ls = ledger_rows(ledger@);
    let ghost p = deliverable(ls, now as int, start_stale_secs as int);
    let ghost up = |k: usize| k as int;
    let mut due: Vec<usize> = Vec::new();
    let mut keys: Vec<SortKey> = Vec::new();
    let mut i: usize = 0;
    while i < outbox.len()
        invariant
            i <= outbox.len(),
            rs == outbox_rows(outbox@),
            ls == ledger_rows(ledger@),
            p == deliverable(ls, now as int, start_stale_secs as int),
            up == (|k: usize| k as int),
            due@.map_values(up) =~= positions(rs.take(i as int), p),
            keys@.len() == due@.len(),
            forall|k: int|
                0 <= k < due@.len() ==> #[trigger] due@[k] < i && keys@[k] == age_key(
                    rs[due@[k] as int],
                ),
        decreases outbox.len() - i,
    {
        proof {
            lemma_positions_take(rs, p, i as int);
            assert(rs[i as int] == outbox@[i as int]@);
        }
        if outbox[i].next_attempt_at <= now && !is_start_in_flight(
            ledger,
            outbox[i].task_id,
            now,
            start_stale_secs,
        ) {
            due.push(i);
            keys.push((outbox[i].created_at as i128, 0i128, 0u128));
        }
        i += 1;
    }
    proof {
        assert(rs.take(i as int) =~= rs);
        assert(keys@ =~= due@.map_values(up).map_values(|k: int| age_key(rs[k])));
    }
    let sorted: Vec<usize> = sort_positions(&keys);
    let mut r: Vec<usize> = Vec::new();
    let mut j: usize = 0;
    let ghost all = pick(due@.map_values(up), order(keys@));
    assert(sorted@.map_values(up).len() == sorted@.len());
    while j < sorted.len() && (j as u128) < (limit as u128)
        invariant
            j <= sorted.len(),
            j <= limit,
            up == (|k: usize| k as int),
            sorted@.map_values(up) == order(keys@),
            sorted@.len() == keys@.len(),
            keys@.len() == due@.len(),
            forall|k: int| 0 <= k < sorted@.len() ==> #[trigger] sorted@[k] < keys@.len(),
            forall|k: int| 0 <= k < due@.len() ==> #[trigger] due@[k] < outbox@.len(),
            all == pick(due@.map_values(up), order(keys@)),
            r@.map_values(up) =~= all.take(j as int),
            r@.len() == j,
            all.len() == sorted@.len(),
            forall|k: int| 0 <= k < r@.len() ==> #[trigger] r@[k] < outbox@.len(),
        decreases sorted.len() - j,
    {
        proof {
            assert(order(keys@)[j as int] == sorted@.map_values(up)[j as int]);
            assert(all[j as int] == due@[sorted@[j as int] as int] as int);
        }
        r.push(due[sorted[j]]);
        j += 1;
    }
    proof {
        assert(r@.map_values(up) =~= first_n(all, limit as int));
    }
    r
}

/// Selects up to `limit` deliverable rows, oldest first. A row of a task whose
/// start webhook is in flight is held back, for at most `start_stale_secs`.
pub fn claim_due_outbox(
    outbox: &Vec<WebhookOutbox>,
    ledger: &Vec<WebhookExecution>,
    limit: i64,
    start_stale_secs: i64,
    now: i64,
) -> (r: Vec<WebhookOutbox>)
    requires
        limit >= 0,
    ensures
        outbox_rows(r@) == pick(
            outbox_rows(outbox@),
            claimable(
                outbox_rows(outbox@),
                ledger_rows(ledger@),
                limit as int,
                now as int,
                start_stale_secs as int,
            ),
        ),
{
    let at: Vec<usize> = claim_positions(outbox, ledger, limit, start_stale_secs, now);
    let ghost up = |k: usize| k as int;
    let ghost rs = outbox_rows(outbox@);
    let mut r: Vec<WebhookOutbox> = Vec::new();
    let mut i: usize = 0;
    while i < at.len()
        invariant
            i <= at.len(),
            rs == outbox_rows(outbox@),
            up == (|k: usize| k as int),
            forall|k: int| 0 <= k < at@.len() ==> #[trigger] at@[k] < outbox@.len(),
            outbox_rows(r@) =~= pick(rs, at@.map_values(up)).take(i as int),
        decreases at.len() - i,
    {
        let row: WebhookOutbox = outbox[at[i]].clone();
        proof {
            let all = pick(rs, at@.map_values(up));
            assert(all[i as int] == row@);
            assert(all.take(i + 1) =~= all.take(i as int).push(row@));
            assert(outbox_rows(r@.push(row)) =~= outbox_rows(r@).push(row@));
        }
        r.push(row);
        i += 1;
    }
    assert(pick(rs, at@.map_values(up)).take(i as int) =~= pick(rs, at@.map_values(up)));
    r
}

/// The positions that a claim takes lie in the queue.
pub proof fn lemma_claimable(
    outbox: Seq<OutboxRow>,
    ledger: Seq<LedgerRow>,
    limit: int,
    now: int,
    stale_secs: int,
)
    requires
        limit >= 0,
    ensures
        ({
            let taken = claimable(outbox, ledger, limit, now, stale_secs);
            forall|k: int| 0 <= k < taken.len() ==> 0 <= #[trigger] taken[k] < outbox.len()
        }),
{
    let p = deliverable(ledger, now, stale_secs);
    let due = positions(outbox, p);
    let keys = due.map_values(|k: int| age_key(outbox[k]));
    lemma_positions(outbox, p);
    order_sorts(keys);
    let taken = claimable(outbox, ledger, limit, now, stale_secs);
    assert forall|k: int| 0 <= k < taken.len() implies 0 <= #[trigger] taken[k] < outbox.len() by {
        assert(taken[k] == due[order(keys)[k]]);
    }
}

/// A row leased to the claim `token` until `lease_secs` from now.
pub open spec fn leased_row(r: OutboxRow, token: u128, now: int, lease_secs: int) -> OutboxRow {
    OutboxRow {
        next_attempt_at: now + lease_secs * 1_000_000,
        lease_token: Some(token),
        ..r
    }
}

/// The queue after a claim leased the rows at `taken`.
pub open spec fn leased(
    outbox: Seq<OutboxRow>,
    taken: Seq<int>,
    token: u128,
    now: int,
    lease_secs: int,
) -> Seq<OutboxRow> {
    Seq::new(
        outbox.len(),
        |i: int|
            if taken.contains(i) {
                leased_row(outbox[i], token, now, lease_secs)
            } else {
                outbox[i]
            },
    )
}

/// Claims up to `limit` deliverable rows, as [`claim_due_outbox`] selects them,
/// and pushes each one's due instant `lease_secs` into the future under
/// `lease_token`. While the lease holds nobody claims the row again; when it
/// expires the row is due again. The lease does not count as an attempt.
pub fn claim_due_outbox_leased(
    outbox: &mut Vec<WebhookOutbox>,
    ledger: &Vec<WebhookExecution>,
    limit: i64,
    lease_secs: i64,
    start_stale_secs: i64,
    lease_token: u128,
    now: i64,
) -> (r: Vec<WebhookOutbox>)
    requires
        limit >= 0,
        i64::MIN <= now + lease_secs * 1_000_000 <= i64::MAX,
    ensures
        ({
            let before = outbox_rows(old(outbox)@);
            let taken = claimable(
                before,
                ledger_rows(ledger@),
                limit as int,
                now as int,
                start_stale_secs as int,
            );
            let after = leased(before, taken, lease_token, now as int, lease_secs as int);
            &&& outbox_rows(final(outbox)@) == after
            &&& outbox_rows(r@) == pick(after, taken)
        }),
{
    let at: Vec<usize> = claim_positions(outbox, ledger, limit, start_stale_secs, now);
    let ghost up = |k: usize| k as int;
    let ghost before = outbox@;
    let ghost rs = outbox_rows(before);
    let ghost taken = at@.map_values(up);
    let ghost after = leased(rs, taken, lease_token, now as int, lease_secs as int);
    let due: i64 = (now as i128 + lease_secs as i128 * 1_000_000) as i64;
    let mut r: Vec<WebhookOutbox> = Vec::new();
    let mut i: usize = 0;
    while i < at.len()
        invariant
            i <= at.len(),
            outbox@.len() == before.len(),
            rs == outbox_rows(before),
            up == (|k: usize| k as int),
            taken == at@.map_values(up),
            after == leased(rs, taken, lease_token, now as int, lease_secs as int),
            due == now + lease_secs * 1_000_000,
            forall|k: int| 0 <= k < at@.len() ==> #[trigger] at@[k] < before.len(),
            forall|k: int|
                0 <= k < before.len() && taken.take(i as int).contains(k) ==> (
                #[trigger] outbox@[k])@ == leased_row(
                    rs[k],
                    lease_token,
                    now as int,
                    lease_secs as int,
                ),
            forall|k: int|
                0 <= k < before.len() && !taken.take(i as int).contains(k) ==> (
                #[trigger] outbox@[k])@ == rs[k],
            outbox_rows(r@) =~= pick(after, taken).take(i as int),
        decreases at.len() - i,
    {
        let k: usize = at[i];
        let ghost held = outbox@;
        outbox[k].next_attempt_at = due;
        outbox[k].lease_token = Some(lease_token);
        let row: WebhookOutbox = outbox[k].clone();
        proof {
            assert(taken[i as int] == k);
            assert(taken.contains(k as int));
            let t0 = taken.take(i as int);
            let t1 = taken.take(i + 1);
            assert forall|m: int| #[trigger] t1.contains(m) <==> t0.contains(m) || m == k by {
                if t1.contains(m) {
                    let w = choose|w: int| 0 <= w < t1.len() && t1[w] == m;
                    if w < i {
                        assert(t0[w] == m);
                    }
                }
                if t0.contains(m) {
                    let w = choose|w: int| 0 <= w < t0.len() && t0[w] == m;
                    assert(t1[w] == m);
                }
                assert(t1[i as int] == k);
            }
            assert(held[k as int]@ == rs[k as int] || held[k as int]@ == leased_row(
                rs[k as int],
                lease_token,
                now as int,
                lease_secs as int,
            ));
            assert(row@ == after[k as int]);
            let all = pick(after, taken);
            assert(all[i as int] == row@);
            assert(all.take(i + 1) =~= all.take(i as int).push(row@));
            assert(outbox_rows(r@.push(row)) =~= outbox_rows(r@).push(row@));
        }
        r.push(row);
        i += 1;
    }
    proof {
        assert(taken.take(i as int) =~= taken);
        assert(outbox_rows(outbox@) =~= after);
        assert(pick(after, taken).take(i as int) =~= pick(after, taken));
    }
    r
}

// ---------------------------------------------------------------------------
// Marking
// ---------------------------------------------------------------------------

/// The longest error text that a row keeps, in characters.
pub const MAX_ERROR_CHARS: usize = 1000;

/// No two queue rows share a key.
pub open spec fn unique_queue_keys(outbox: Seq<OutboxRow>) -> bool {
    forall|i: int, j: int|
        #![trigger outbox[i], outbox[j]]
        0 <= i < outbox.len() && 0 <= j < outbox.len() && outbox[i].key == outbox[j].key ==> i == j
}

/// Whether the row is the one of `key`, still held by the claim `token`.
pub open spec fn held(key: Seq<char>, token: u128) -> spec_fn(OutboxRow) -> bool {
    |r: OutboxRow| r.key == key && r.lease_token == Some(token)
}

/// Whether the queue has a row of `key` held by the claim `token`.
pub open spec fn holds_lease(outbox: Seq<OutboxRow>, key: Seq<char>, token: u128) -> bool {
    exists|i: int| 0 <= i < outbox.len() && held(key, token)(#[trigger] outbox[i])
}

/// The ledger row that records the end of a delivery.
pub open spec fn history_row(
    r: OutboxRow,
    status: WebhookExecutionStatus,
    attempts: int,
    last_error: Option<Seq<char>>,
    now: int,
) -> LedgerRow {
    LedgerRow {
        id: r.id,
        task_id: r.task_id,
        trigger: r.trigger,
        condition: r.condition,
        key: r.key,
        status,
        attempts,
        created_at: r.created_at,
        updated_at: now,
        next_attempt_at: r.next_attempt_at,
        last_error,
        batch_id: r.batch_id,
    }
}

/// The ledger after `row` is inserted, unless its key is there already.
pub open spec fn ledger_insert(ledger: Seq<LedgerRow>, row: LedgerRow) -> Seq<LedgerRow> {
    if recorded(ledger, row.key) {
        ledger
    } else {
        ledger.push(row)
    }
}

/// The row at `i` left the queue for the ledger.
pub open spec fn historised(
    outbox: Seq<OutboxRow>,
    ledger: Seq<LedgerRow>,
    after_outbox: Seq<OutboxRow>,
    after_ledger: Seq<LedgerRow>,
    i: int,
    row: LedgerRow,
) -> bool {
    &&& after_outbox == outbox.remove(i)
    &&& after_ledger == ledger_insert(ledger, row)
}

/// A delivery that ended leaves the queue and the ledger disjoint, and its event
/// recorded, so that it is never enqueued again.
pub proof fn historised_keeps_disjoint(
    outbox: Seq<OutboxRow>,
    ledger: Seq<LedgerRow>,
    after_outbox: Seq<OutboxRow>,
    after_ledger: Seq<LedgerRow>,
    i: int,
    row: LedgerRow,
    again: OutboxRow,
)
    requires
        keys_disjoint(outbox, ledger),
        0 <= i < outbox.len(),
        outbox[i].key == row.key,
        historised(outbox, ledger, after_outbox, after_ledger, i, row),
        again.key == row.key,
    ensures
        keys_disjoint(after_outbox, after_ledger),
        recorded(after_ledger, row.key),
        !queued(after_outbox, row.key),
        enqueued(after_outbox, after_ledger, again) == after_outbox,
{
    if !recorded(ledger, row.key) {
        assert(after_ledger[ledger.len() as int].key == row.key);
    }
    assert forall|k: int| 0 <= k < after_outbox.len() implies (#[trigger] after_outbox[k])
        == outbox[if k < i { k } else { k + 1 }] by {}
}

/// The position of the row of `key` held by the claim `token`.
fn find_held(outbox: &Vec<WebhookOutbox>, key: &String, token: u128) -> (r: Option<usize>)
    ensures
        match r {
            Some(i) => i < outbox@.len() && held(key@, token)(outbox_rows(outbox@)[i as int]),
            None => !holds_lease(outbox_rows(outbox@), key@, token),
        },
{
    let ghost rs = outbox_rows(outbox@);
    let mut i: usize = 0;
    while i < outbox.len()
        invariant
            i <= outbox.len(),
            rs == outbox_rows(outbox@),
            forall|k: int| 0 <= k < i ==> !held(key@, token)(#[trigger] rs[k]),
        decreases outbox.len() - i,
    {
        assert(rs[i as int] == outbox@[i as int]@);
        let mine: bool = match outbox[i].lease_token {
            Some(t) => t == token,
            None => false,
        };
        if mine && outbox[i].idempotency_key == *key {
            return Some(i);
        }
        i += 1;
    }
    None
}

/// Moves the row at `i` to the ledger.
fn historise(
    outbox: &mut Vec<WebhookOutbox>,
    ledger: &mut Vec<WebhookExecution>,
    i: usize,
    status: WebhookExecutionStatus,
    attempts: i32,
    last_error: Option<String>,
    now: i64,
)
    requires
        i < old(outbox)@.len(),
    ensures
        historised(
            outbox_rows(old(outbox)@),
            ledger_rows(old(ledger)@),
            outbox_rows(final(outbox)@),
            ledger_rows(final(ledger)@),
            i as int,
            history_row(
                old(outbox)@[i as int]@,
                status,
                attempts as int,
                crate::models::opt_text(last_error),
                now as int,
            ),
        ),
{
    let ghost before = outbox@;
    let ghost entries = ledger@;
    let row: WebhookOutbox = outbox.remove(i);
    assert(outbox_rows(outbox@) =~= outbox_rows(before).remove(i as int));
    if !is_recorded(ledger, &row.idempotency_key) {
        let entry: WebhookExecution = WebhookExecution {
            id: row.id,
            task_id: row.task_id,
            trigger: row.trigger,
            condition: row.condition,
            idempotency_key: row.idempotency_key,
            status,
            attempts,
            created_at: row.created_at,
            updated_at: now,
            next_attempt_at: row.next_attempt_at,
            last_error,
            batch_id: row.batch_id,
        };
        let ghost e = entry@;
        ledger.push(entry);
        assert(ledger_rows(ledger@) =~= ledger_rows(entries).push(e));
    }
}

/// Marks a queue row delivered: it leaves the queue and is recorded in the
/// ledger as a success. Returns `false`, and changes nothing, where the claim
/// `lease_token` no longer holds the row.
pub fn mark_outbox_success(
    outbox: &mut Vec<WebhookOutbox>,
    ledger: &mut Vec<WebhookExecution>,
    key: &String,
    lease_token: u128,
    now: i64,
) -> (r: bool)
    requires
        unique_queue_keys(outbox_rows(old(outbox)@)),
    ensures
        r == holds_lease(outbox_rows(old(outbox)@), key@, lease_token),
        !r ==> *final(outbox) == *old(outbox) && *final(ledger) == *old(ledger),
        r ==> exists|i: int|
            0 <= i < old(outbox)@.len() && held(key@, lease_token)(
                #[trigger] outbox_rows(old(outbox)@)[i],
            ) && historised(
                outbox_rows(old(outbox)@),
                ledger_rows(old(ledger)@),
                outbox_rows(final(outbox)@),
                ledger_rows(final(ledger)@),
                i,
                history_row(
                    outbox_rows(old(outbox)@)[i],
                    WebhookExecutionStatus::Success,
                    outbox_rows(old(outbox)@)[i].attempts,
                    None,
                    now as int,
                ),
            ),
{
    match find_held(outbox, key, lease_token) {
        Some(i) => {
            let attempts: i32 = outbox[i].attempts;
            assert(outbox_rows(outbox@)[i as int] == outbox@[i as int]@);
            historise(
                outbox,
                ledger,
                i,
                WebhookExecutionStatus::Success,
                attempts,
                None,
                now,
            );
            true
        },
        None => false,
    }
}

/// A row after a failed attempt.
pub open spec fn retry_row(r: OutboxRow, error: Seq<char>, backoff_secs: int, now: int) -> OutboxRow {
    OutboxRow {
        attempts: r.attempts + 1,
        last_error: Some(truncated(error, MAX_ERROR_CHARS as int)),
        next_attempt_at: now + backoff_secs * 1_000_000,
        updated_at: now,
        ..r
    }
}

/// Records a failed attempt: the attempt is counted, its error kept (cut to
/// [`MAX_ERROR_CHARS`] characters), and the next attempt due `backoff_secs` from
/// now. The row stays in the queue. Returns `false`, and changes nothing, where
/// the claim `lease_token` no longer holds the row.
pub fn mark_outbox_retry(
    outbox: &mut Vec<WebhookOutbox>,
    key: &String,
    lease_token: u128,
    error: &str,
    backoff_secs: i64,
    now: i64,
) -> (r: bool)
    requires
        unique_queue_keys(outbox_rows(old(outbox)@)),
        i64::MIN <= now + backoff_secs * 1_000_000 <= i64::MAX,
        forall|i: int| 0 <= i < old(outbox)@.len() ==> (#[trigger] old(outbox)@[i]).attempts < i32::MAX,
    ensures
        r == holds_lease(outbox_rows(old(outbox)@), key@, lease_token),
        !r ==> *final(outbox) == *old(outbox),
        r ==> exists|i: int|
            0 <= i < old(outbox)@.len() && held(key@, lease_token)(
                #[trigger] outbox_rows(old(outbox)@)[i],
            ) && outbox_rows(final(outbox)@) == outbox_rows(old(outbox)@).update(
                i,
                retry_row(
                    outbox_rows(old(outbox)@)[i],
                    error@,
                    backoff_secs as int,
                    now as int,
                ),
            ),
{
    match find_held(outbox, key, lease_token) {
        Some(i) => {
            let ghost before = outbox@;
            let due: i64 = (now as i128 + backoff_secs as i128 * 1_000_000) as i64;
            let trimmed: String = truncate(error, MAX_ERROR_CHARS);
            assert(outbox_rows(outbox@)[i as int] == outbox@[i as int]@);
            outbox[i].attempts = outbox[i].attempts + 1;
            outbox[i].last_error = Some(trimmed);
            outbox[i].next_attempt_at = due;
            outbox[i].updated_at = now;
            assert(outbox_rows(outbox@) =~= outbox_rows(before).update(
                i as int,
                retry_row(before[i as int]@, error@, backoff_secs as int, now as int),
            ));
            true
        },
        None => false,
    }
}

/// Marks a queue row permanently failed: it leaves the queue and is recorded in
/// the ledger as exhausted, with the last attempt counted and its error kept
/// (cut to [`MAX_ERROR_CHARS`] characters). Returns `false`, and changes nothing,
/// where the claim `lease_token` no longer holds the row.
pub fn mark_outbox_exhausted(
    outbox: &mut Vec<WebhookOutbox>,
    ledger: &mut Vec<WebhookExecution>,
    key: &String,
    lease_token: u128,
    error: &str,
    now: i64,
) -> (r: bool)
    requires
        unique_queue_keys(outbox_rows(old(outbox)@)),
        forall|i: int| 0 <= i < old(outbox)@.len() ==> (#[trigger] old(outbox)@[i]).attempts < i32::MAX,
    ensures
        r == holds_lease(outbox_rows(old(outbox)@), key@, lease_token),
        !r ==> *final(outbox) == *old(outbox) && *final(ledger) == *old(ledger),
        r ==> exists|i: int|
            0 <= i < old(outbox)@.len() && held(key@, lease_token)(
                #[trigger] outbox_rows(old(outbox)@)[i],
            ) && historised(
                outbox_rows(old(outbox)@),
                ledger_rows(old(ledger)@),
                outbox_rows(final(outbox)@),
                ledger_rows(final(ledger)@),
                i,
                history_row(
                    outbox_rows(old(outbox)@)[i],
                    WebhookExecutionStatus::Exhausted,
                    outbox_rows(old(outbox)@)[i].attempts + 1,
                    Some(truncated(error@, MAX_ERROR_CHARS as int)),
                    now as int,
                ),
            ),
{
    match find_held(outbox, key, lease_token) {
        Some(i) => {
            assert(outbox_rows(outbox@)[i as int] == outbox@[i as int]@);
            let attempts: i32 = outbox[i].attempts + 1;
            let trimmed: String = truncate(error, MAX_ERROR_CHARS);
            historise(
                outbox,
                ledger,
                i,
                WebhookExecutionStatus::Exhausted,
                attempts,
                Some(trimmed),
                now,
            );
            true
        },
        None => false,
    }
}

// ---------------------------------------------------------------------------
// Listing
// ---------------------------------------------------------------------------

/// A queue row shown as a pending delivery.
pub open spec fn as_pending(r: OutboxRow) -> LedgerRow {
    LedgerRow {
        id: r.id,
        task_id: r.task_id,
        trigger: r.trigger,
        condition: r.condition,
        key: r.key,
        status: WebhookExecutionStatus::Pending,
        attempts: r.attempts,
        created_at: r.created_at,
        updated_at: r.updated_at,
        next_attempt_at: r.next_attempt_at,
        last_error: r.last_error,
        batch_id: r.batch_id,
    }
}

/// The deliveries with the given status, or all: the matching ledger rows, then,
/// where pending deliveries are asked for, the queue.
pub open spec fn deliveries(
    outbox: Seq<OutboxRow>,
    ledger: Seq<LedgerRow>,
    status: Option<WebhookExecutionStatus>,
) -> Seq<LedgerRow> {
    let recorded = ledger.filter(|r: LedgerRow| status is None || status == Some(r.status));
    if status is None || status == Some(WebhookExecutionStatus::Pending) {
        recorded + outbox.map_values(|r: OutboxRow| as_pending(r))
    } else {
        recorded
    }
}

/// The sort key of a delivery: most recently updated first, then by descending
/// id. A row without an id sorts first.
pub open spec fn recency_key(r: LedgerRow) -> SortKey {
    match r.id {
        Some(id) => ((-r.updated_at) as i128, 1i128, (u128::MAX - id) as u128),
        None => ((-r.updated_at) as i128, 0i128, 0u128),
    }
}

/// The page of `s` that starts at `offset` and holds at most `limit` elements.
pub open spec fn page<A>(s: Seq<A>, limit: int, offset: int) -> Seq<A> {
    if offset >= s.len() {
        Seq::empty()
    } else {
        first_n(s.skip(offset), limit)
    }
}

/// Lists delivery records, optionally by status, most recently updated first.
/// Pending deliveries are the queue rows, together with the start rows still
/// pending in the ledger.
pub fn list_webhook_deliveries(
    outbox: &Vec<WebhookOutbox>,
    ledger: &Vec<WebhookExecution>,
    status: Option<WebhookExecutionStatus>,
    limit: i64,
    offset: i64,
) -> (r: Vec<WebhookExecution>)
    requires
        limit >= 0,
        offset >= 0,
    ensures
        ({
            let all = deliveries(outbox_rows(outbox@), ledger_rows(ledger@), status);
            let sorted = pick(all, order(all.map_values(|r: LedgerRow| recency_key(r))));
            ledger_rows(r@) == page(sorted, limit as int, offset as int)
        }),
{
    let ghost os = outbox_rows(outbox@);
    let ghost ls = ledger_rows(ledger@);
    let ghost p = |r: LedgerRow| status is None || status == Some(r.status);
    let ghost proj = |r: OutboxRow| as_pending(r);
    let mut all: Vec<WebhookExecution> = Vec::new();
    let mut i: usize = 0;
    proof {
        reveal(Seq::filter);
        assert(ledger_rows(all@) =~= ls.take(0).filter(p));
    }
    while i < ledger.len()
        invariant
            i <= ledger.len(),
            ls == ledger_rows(ledger@),
            p == (|r: LedgerRow| status is None || status == Some(r.status)),
            ledger_rows(all@) =~= ls.take(i as int).filter(p),
        decreases ledger.len() - i,
    {
        proof {
            lemma_filter_take(ls, p, i as int);
            assert(ls[i as int] == ledger@[i as int]@);
        }
        let wanted: bool = match status {
            None => true,
            Some(s) => s == ledger[i].status,
        };
        if wanted {
            let row: WebhookExecution = ledger[i].clone();
            assert(ledger_rows(all@.push(row)) =~= ledger_rows(all@).push(row@));
            all.push(row);
        }
        i += 1;
    }
    assert(ls.take(i as int) =~= ls);
    let with_queue: bool = match status {
        None => true,
        Some(s) => s == WebhookExecutionStatus::Pending,
    };
    if with_queue {
        let ghost part = ledger_rows(all@);
        let mut i: usize = 0;
        while i < outbox.len()
            invariant
                i <= outbox.len(),
                os == outbox_rows(outbox@),
                proj == (|r: OutboxRow| as_pending(r)),
                ledger_rows(all@) =~= part + os.map_values(proj).take(i as int),
            decreases outbox.len() - i,
        {
            let row: WebhookExecution = pending_delivery(&outbox[i]);
            proof {
                assert(os[i as int] == outbox@[i as int]@);
                assert(os.map_values(proj).take(i + 1) =~= os.map_values(proj).take(i as int).push(
                    row@,
                ));
                assert(ledger_rows(all@.push(row)) =~= ledger_rows(all@).push(row@));
            }
            all.push(row);
            i += 1;
        }
        assert(os.map_values(proj).take(i as int) =~= os.map_values(proj));
    }
    let ghost rs = ledger_rows(all@);
    let ghost kf = |r: LedgerRow| recency_key(r);
    assert(rs =~= deliveries(os, ls, status));
    let mut keys: Vec<SortKey> = Vec::new();
    let mut i: usize = 0;
    while i < all.len()
        invariant
            i <= all.len(),
            rs == ledger_rows(all@),
            kf == (|r: LedgerRow| recency_key(r)),
            keys@ =~= rs.map_values(kf).take(i as int),
        decreases all.len() - i,
    {
        assert(rs[i as int] == all@[i as int]@);
        let key: SortKey = match all[i].id {
            Some(id) => (-(all[i].updated_at as i128), 1i128, u128::MAX - id),
            None => (-(all[i].updated_at as i128), 0i128, 0u128),
        };
        keys.push(key);
        i += 1;
    }
    assert(keys@ =~= rs.map_values(kf));
    let at: Vec<usize> = sort_positions(&keys);
    let ghost up = |k: usize| k as int;
    let ghost sorted = pick(rs, order(keys@));
    let mut r: Vec<WebhookExecution> = Vec::new();
    assert(at@.map_values(up).len() == at@.len());
    if (offset as u128) < (at.len() as u128) {
        let start: usize = offset as usize;
        let mut j: usize = start;
        while j < at.len() && ((j - start) as u128) < (limit as u128)
            invariant
                start <= j <= at.len(),
                start == offset,
                j - start <= limit,
                up == (|k: usize| k as int),
                rs == ledger_rows(all@),
                at@.map_values(up) == order(keys@),
                at@.len() == keys@.len(),
                keys@.len() == all@.len(),
                sorted == pick(rs, order(keys@)),
                sorted.len() == at@.len(),
                forall|k: int| 0 <= k < at@.len() ==> #[trigger] at@[k] < keys@.len(),
                ledger_rows(r@) =~= sorted.subrange(start as int, j as int),
            decreases at.len() - j,
        {
            let row: WebhookExecution = all[at[j]].clone();
            proof {
                assert(order(keys@)[j as int] == at@.map_values(up)[j as int]);
                assert(sorted[j as int] == row@);
                assert(sorted.subrange(start as int, j + 1) =~= sorted.subrange(
                    start as int,
                    j as int,
                ).push(row@));
                assert(ledger_rows(r@.push(row)) =~= ledger_rows(r@).push(row@));
            }
            r.push(row);
            j += 1;
        }
        assert(ledger_rows(r@) =~= page(sorted, limit as int, offset as int));
    } else {
        assert(ledger_rows(r@) =~= page(sorted, limit as int, offset as int));
    }
    r
}

/// A queue row shown as a pending delivery.
fn pending_delivery(r: &WebhookOutbox) -> (d: WebhookExecution)
    ensures
        d@ == as_pending(r@),
{
    WebhookExecution {
        id: r.id,
        task_id: r.task_id,
        trigger: r.trigger,
        condition: r.condition,
        idempotency_key: r.idempotency_key.clone(),
        status: WebhookExecutionStatus::Pending,
        attempts: r.attempts,
        created_at: r.created_at,
        updated_at: r.updated_at,
        next_attempt_at: r.next_attempt_at,
        last_error: crate::models::clone_opt_text(&r.last_error),
        batch_id: r.batch_id,
    }
}

} // verus!
