//! What the metrics count.

use crate::metrics::{
    at, bumped, counted, counter_series, gauged, moved, sampled, series_of, Metrics,
};
use crate::models::{StatusKind, TaskRow};
use crate::workers::change_metrics::{
    all_moves, counted_up, mark_noted, moves, noted, Cause, StatusChange, Tally,
};
use crate::workers::delivery_loop::MarkView;
use vstd::prelude::*;

verus! {

/// Counting raises the series of the labels by one, moving changes it by the amount, and
/// setting sets it. No other series changes.
pub proof fn series_change_one_at_a_time(
    c: Map<u64, u64>,
    g: Map<u64, i64>,
    labels: Seq<Seq<char>>,
    n: i64,
    other: u64,
)
    requires
        counted(c, series_of(labels)) < u64::MAX,
        i64::MIN <= gauged(g, series_of(labels)) + n <= i64::MAX,
    ensures
        counted(bumped(c, labels), series_of(labels)) == counted(c, series_of(labels)) + 1,
        gauged(moved(g, labels, n), series_of(labels)) == gauged(g, series_of(labels)) + n,
        gauged(at(g, labels, n), series_of(labels)) == n,
        other != series_of(labels) ==> counted(bumped(c, labels), other) == counted(c, other)
            && gauged(moved(g, labels, n), other) == gauged(g, other) && gauged(
            at(g, labels, n),
            other,
        ) == gauged(g, other),
{
}

/// A counter that counted up is higher by as many.
pub proof fn counters_count_up(value: u64, n: nat)
    requires
        value + n <= u64::MAX,
    ensures
        counted_up(value, n) == value + n,
    decreases n,
{
    if n > 0 {
        counters_count_up(value, (n - 1) as nat);
    }
}

/// A snapshot shows the last count of each label, and nothing from before it.
pub proof fn snapshots_show_the_last_counts(counts: Seq<(String, i64)>, key: u64)
    ensures
        (forall|k: int| 0 <= k < counts.len() ==> series_of(seq![(#[trigger] counts[k]).0@]) != key)
            ==> !sampled(counts).dom().contains(key),
        counts.len() > 0 ==> sampled(counts)[series_of(seq![counts.last().0@])] == counts.last().1,
        counts.len() > 0 && key != series_of(seq![counts.last().0@]) ==> gauged(
            sampled(counts),
            key,
        ) == gauged(sampled(counts.drop_last()), key),
    decreases counts.len(),
{
    if counts.len() > 0 {
        let init = counts.drop_last();
        snapshots_show_the_last_counts(init, key);
        assert(counts[counts.len() - 1] == counts.last());
        if forall|k: int|
            0 <= k < counts.len() ==> series_of(seq![(#[trigger] counts[k]).0@]) != key {
            assert forall|k: int| 0 <= k < init.len() implies series_of(
                seq![(#[trigger] init[k]).0@],
            ) != key by {
                assert(init[k] == counts[k]);
            }
        }
    }
}

/// The end of the task that a change is about is passed on as a success or a failure, and
/// is counted by what brought it about: an update by the transition, a timeout as such, a
/// cancellation as such. A start is counted as the transition that it is. Claims and
/// returns are counted for each task.
pub proof fn ends_are_counted_by_cause(t: Tally, id: u128, c: StatusChange)
    requires
        c.id == id,
    ensures
        ({
            let u = noted(t, Cause::Update { id }, c);
            &&& c.to == StatusKind::Success ==> u == (Tally {
                transitions: bumped(t.transitions, seq!["Running"@, "success"@]),
                propagations: bumped(t.propagations, seq!["success"@]),
                ..t
            })
            &&& c.to == StatusKind::Failure ==> u == (Tally {
                transitions: bumped(t.transitions, seq!["Running"@, "failure"@]),
                propagations: bumped(t.propagations, seq!["failure"@]),
                ..t
            })
        }),
        c.to == StatusKind::Failure ==> noted(t, Cause::Timeout { id }, c) == (Tally {
            transitions: bumped(t.transitions, seq!["Running"@, "Failure"@]),
            propagations: bumped(t.propagations, seq!["failure"@]),
            timed_out: t.timed_out.wrapping_add(1),
            ..t
        }),
        c.to == StatusKind::Canceled ==> noted(t, Cause::Cancel { id }, c) == (Tally {
            propagations: bumped(t.propagations, seq!["failure"@]),
            canceled: t.canceled.wrapping_add(1),
            ..t
        }),
        c.to == StatusKind::Running ==> noted(t, Cause::Start { id }, c) == (Tally {
            transitions: bumped(t.transitions, seq!["Claimed"@, "Running"@]),
            ..t
        }),
        c.to == StatusKind::Failure ==> noted(t, Cause::Start { id }, c) == (Tally {
            propagations: bumped(t.propagations, seq!["failure"@]),
            ..t
        }),
        noted(t, Cause::Claim, c) == (Tally {
            transitions: bumped(t.transitions, seq!["Pending"@, "Claimed"@]),
            ..t
        }),
        noted(t, Cause::Requeue, c) == (Tally {
            transitions: bumped(t.transitions, seq!["Claimed"@, "Pending"@]),
            ..t
        }),
        noted(t, Cause::Other, c) == t,
{
}

/// The change of another task is counted by what became of it: unblocked, failed with
/// what it required, or canceled as a dead end.
pub proof fn other_changes_are_counted_by_outcome(t: Tally, id: u128, c: StatusChange)
    requires
        c.id != id,
    ensures
        c.to == StatusKind::Pending ==> noted(t, Cause::Update { id }, c) == (Tally {
            transitions: bumped(t.transitions, seq!["Waiting"@, "Pending"@]),
            unblocked: t.unblocked.wrapping_add(1),
            ..t
        }),
        c.to == StatusKind::Failure ==> noted(t, Cause::Update { id }, c) == (Tally {
            propagations: bumped(t.propagations, seq!["failure"@]),
            failed: t.failed.wrapping_add(1),
            ..t
        }),
        c.to == StatusKind::Canceled ==> noted(t, Cause::Update { id }, c) == (Tally {
            transitions: bumped(t.transitions, seq![c.from.stored_name(), "Canceled"@]),
            dead_ends: t.dead_ends.wrapping_add(1),
            ..t
        }),
        noted(t, Cause::Update { id }, c) == noted(t, Cause::Timeout { id }, c),
        noted(t, Cause::Update { id }, c) == noted(t, Cause::Cancel { id }, c),
        noted(t, Cause::Update { id }, c) == noted(t, Cause::Start { id }, c),
{
}

/// The changes that are reported are those of tasks that were known and have another
/// status now. They lead from the one to the other.
pub proof fn changes_lead_from_the_old_status_to_the_new(
    before: Map<u128, StatusKind>,
    rows: Seq<TaskRow>,
    r: TaskRow,
)
    ensures
        moves(before, r).len() == 0 <==> !before.contains_key(r.id) || before[r.id] == r.status,
        moves(before, r).len() > 0 ==> {
            let m = moves(before, r);
            &&& m[0].id == r.id && m[0].from == before[r.id]
            &&& m.last().id == r.id && m.last().to == r.status
            &&& m.len() > 1 ==> m.len() == 2 && m[0].to == m[1].from && before[r.id]
                == StatusKind::Waiting && m[0].to == StatusKind::Pending && r.status
                == StatusKind::Canceled
        },
        rows.len() > 0 ==> all_moves(before, rows) == all_moves(before, rows.drop_last()) + moves(
            before,
            rows.last(),
        ),
        rows.len() == 0 ==> all_moves(before, rows).len() == 0,
{
}

/// A mark that was taken counts as what it is, in the series of its event, and in no other
/// metric. One that was not taken counts nothing; one that was not recorded counts as such.
pub proof fn marks_are_counted_by_kind(a: Metrics, m: MarkView, taken: Option<bool>, b: Metrics)
    requires
        mark_noted(a, m, taken, b),
    ensures
        taken == Some(false) ==> b == a,
        taken == Some(true) ==> match m {
            MarkView::Success { label, .. } => {
                &&& b == (Metrics { webhook_delivery_success: b.webhook_delivery_success, ..a })
                &&& counter_series(b.webhook_delivery_success) == bumped(
                    counter_series(a.webhook_delivery_success),
                    seq![label],
                )
            },
            MarkView::Retry { label, .. } => {
                &&& b == (Metrics { webhook_delivery_retries: b.webhook_delivery_retries, ..a })
                &&& counter_series(b.webhook_delivery_retries) == bumped(
                    counter_series(a.webhook_delivery_retries),
                    seq![label],
                )
            },
            MarkView::Exhausted { label, .. } => {
                &&& b == (Metrics { webhook_delivery_exhausted: b.webhook_delivery_exhausted, ..a })
                &&& counter_series(b.webhook_delivery_exhausted) == bumped(
                    counter_series(a.webhook_delivery_exhausted),
                    seq![label],
                )
            },
        },
        taken is None ==> b == (Metrics { webhook_mark_failures: b.webhook_mark_failures, ..a })
            && counter_series(b.webhook_mark_failures) == bumped(
            counter_series(a.webhook_mark_failures),
            seq![
                if m is Success {
                    "success"@
                } else if m is Retry {
                    "retry"@
                } else {
                    "exhausted"@
                },
            ],
        ),
{
}

} // verus!
