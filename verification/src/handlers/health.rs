//! Probes.

use vstd::prelude::*;

verus! {

/// Longest wait of a probe for a connection, in seconds: much shorter than that of
/// a request, so that a probe always answers soon.
pub const PROBE_ACQUIRE_TIMEOUT_SECS: u64 = 2;

/// What came of a probe's wait for a connection.
#[derive(Clone, Copy, Debug, PartialEq, Eq, Structural)]
pub enum Probe {
    /// There was one.
    Acquired,
    /// None could be had.
    Failed,
    /// None was free in time.
    TimedOut,
}

/// The answer of the liveness probe.
#[derive(Clone, Copy, Debug)]
pub struct HealthResponse {
    /// `ok` or `degraded`.
    pub status: &'static str,
    /// `healthy` or `unhealthy`.
    pub database: &'static str,
    /// Connections of the pool.
    pub pool_size: u32,
    /// Idle ones.
    pub pool_idle: u32,
}

/// The liveness probe. It is answered with success in any case: a restart does not
/// bring back a database or free a pool.
pub fn health_check(probe: Probe, connections: u32, idle: u32) -> (r: HealthResponse)
    ensures
        r.status@ == if probe == Probe::Acquired {
            "ok"@
        } else {
            "degraded"@
        },
        r.database@ == if probe == Probe::Acquired {
            "healthy"@
        } else {
            "unhealthy"@
        },
        r.pool_size == connections,
        r.pool_idle == idle,
{
    let healthy: bool = probe == Probe::Acquired;
    HealthResponse {
        status: if healthy {
            "ok"
        } else {
            "degraded"
        },
        database: if healthy {
            "healthy"
        } else {
            "unhealthy"
        },
        pool_size: connections,
        pool_idle: idle,
    }
}

/// Whether a pool has no connection left to give.
pub fn pool_exhausted(connections: u32, idle: u32, max_size: u32) -> (r: bool)
    ensures
        r == (idle == 0 && connections >= max_size),
{
    idle == 0 && connections >= max_size
}

/// The readiness probe: why the service is not ready, if it is not. A pool without
/// a connection left is not even asked for one.
pub fn readiness_check(connections: u32, idle: u32, max_size: u32, probe: Probe) -> (r: Option<
    &'static str,
>)
    ensures
        if idle == 0 && connections >= max_size {
            r matches Some(m) && m@ == "connection pool exhausted"@
        } else {
            match probe {
                Probe::Acquired => r is None,
                Probe::Failed => r matches Some(m) && m@
                    == "cannot acquire database connection"@,
                Probe::TimedOut => r matches Some(m) && m@
                    == "connection acquire timed out (pool saturated)"@,
            }
        },
{
    if pool_exhausted(connections, idle, max_size) {
        return Some("connection pool exhausted");
    }
    match probe {
        Probe::Acquired => None,
        Probe::Failed => Some("cannot acquire database connection"),
        Probe::TimedOut => Some("connection acquire timed out (pool saturated)"),
    }
}

} // verus!
