//! One iteration of the metrics sampler: gauges that no single event keeps current.

use crate::metrics::{
    at, gauge_series, sampled, set_db_pool_connections, set_running_tasks_by_kind_snapshot,
    set_tasks_by_status_snapshot, Metrics,
};
use vstd::prelude::*;

verus! {

/// The connections in use, of those that the pool holds.
pub open spec fn in_use(connections: int, idle: int) -> int {
    if connections >= idle {
        connections - idle
    } else {
        0
    }
}

/// Connections in use and idle ones, of a pool. The two numbers of a pool are not
/// read at one instant, so there may be more idle ones than there are.
pub fn pool_occupancy(connections: u32, idle: u32) -> (r: (i64, i64))
    ensures
        r.0 == in_use(connections as int, idle as int),
        r.1 == idle,
{
    let i: i64 = idle as i64;
    let c: i64 = connections as i64;
    if c >= i {
        (c - i, i)
    } else {
        (0, i)
    }
}

/// Updates the sampled gauges. Counts that could not be had leave their gauge as it
/// was.
pub fn sample_metrics(
    m: &mut Metrics,
    connections: u32,
    idle: u32,
    by_status: Option<&Vec<(String, i64)>>,
    running_by_kind: Option<&Vec<(String, i64)>>,
)
    requires
        old(m).wf(),
    ensures
        final(m).wf(),
        gauge_series(final(m).db_pool_connections) == at(
            at(
                gauge_series(old(m).db_pool_connections),
                seq!["in_use"@],
                in_use(connections as int, idle as int) as i64,
            ),
            seq!["idle"@],
            idle as i64,
        ),
        gauge_series(final(m).tasks_by_status) == match by_status {
            Some(c) => sampled(c@),
            None => gauge_series(old(m).tasks_by_status),
        },
        gauge_series(final(m).running_tasks_by_kind) == match running_by_kind {
            Some(c) => sampled(c@),
            None => gauge_series(old(m).running_tasks_by_kind),
        },
        *final(m) == (Metrics {
            db_pool_connections: final(m).db_pool_connections,
            tasks_by_status: final(m).tasks_by_status,
            running_tasks_by_kind: final(m).running_tasks_by_kind,
            ..*old(m)
        }),
{
    let (used, free) = pool_occupancy(connections, idle);
    set_db_pool_connections(m, used, free);
    if let Some(c) = by_status {
        set_tasks_by_status_snapshot(m, c);
    }
    if let Some(c) = running_by_kind {
        set_running_tasks_by_kind_snapshot(m, c);
    }
}

} // verus!
