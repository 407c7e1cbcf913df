//! Which replica schedules: the one that holds the leader lock.

use vstd::prelude::*;

verus! {

/// The advisory lock that the scheduling replicas contend for.
pub const START_LEADER_LOCK_KEY: i64 = 0x4152_4352_554E_0001;

/// The lease of one replica: a connection of its own, and whether the lock is held
/// on it. The lock lives and dies with the connection.
#[derive(Clone, Copy, Debug, PartialEq, Eq, Structural)]
pub struct LeaderLease {
    /// Whether the connection is open.
    pub connected: bool,
    /// Whether the lock is held.
    pub is_leader: bool,
}

/// What has to be done next to know whether this replica leads.
#[derive(Clone, Copy, Debug, PartialEq, Eq, Structural)]
pub enum LeaseAction {
    /// Open the connection.
    Connect,
    /// See whether the connection is alive.
    Ping,
    /// Try to take the lock.
    TryLock,
    /// Nothing: this is the answer.
    Answer {
        /// Whether this replica leads.
        leader: bool,
    },
}

/// What came of it.
#[derive(Clone, Copy, Debug, PartialEq, Eq, Structural)]
pub enum LeaseEvent {
    /// A new tick.
    Tick,
    /// The connection was opened, or not.
    Connected {
        /// Whether it was.
        ok: bool,
    },
    /// The connection is alive, or not.
    Pinged {
        /// Whether it is.
        ok: bool,
    },
    /// The lock was granted, or is held elsewhere.
    Locked {
        /// Whether it was granted.
        granted: bool,
    },
    /// Trying to take the lock failed.
    LockFailed,
}

impl LeaderLease {
    /// Only an open connection holds the lock.
    pub open spec fn wf(self) -> bool {
        self.is_leader ==> self.connected
    }

    /// No connection, no lock.
    pub fn new() -> (r: Self)
        ensures
            r.wf(),
            !r.connected,
    {
        LeaderLease { connected: false, is_leader: false }
    }

    /// The next action of a lease with an open connection: a leader makes sure that
    /// it still is one, a standby tries to become it.
    pub open spec fn next(self) -> LeaseAction {
        if self.is_leader {
            LeaseAction::Ping
        } else {
            LeaseAction::TryLock
        }
    }

    /// Goes one step towards knowing whether this replica leads. Starting from a
    /// tick, the caller carries out each action and hands its event back, until
    /// there is an answer. The lock is only ever asked for by a standby, so that it
    /// is not taken twice; a broken connection gives leadership up.
    pub fn ensure(&mut self, event: LeaseEvent) -> (r: LeaseAction)
        requires
            old(self).wf(),
        ensures
            final(self).wf(),
            match event {
                LeaseEvent::Tick => *final(self) == *old(self) && r == if old(self).connected {
                    old(self).next()
                } else {
                    LeaseAction::Connect
                },
                LeaseEvent::Connected { ok } => if ok {
                    *final(self) == (LeaderLease { connected: true, is_leader: false }) && r
                        == LeaseAction::TryLock
                } else {
                    *final(self) == *old(self) && r == (LeaseAction::Answer { leader: false })
                },
                LeaseEvent::Pinged { ok } => if ok {
                    *final(self) == *old(self) && r == (LeaseAction::Answer {
                        leader: old(self).is_leader,
                    })
                } else {
                    *final(self) == (LeaderLease { connected: false, is_leader: false }) && r == (
                    LeaseAction::Answer { leader: false })
                },
                LeaseEvent::Locked { granted } => if granted && old(self).connected {
                    *final(self) == (LeaderLease { connected: true, is_leader: true }) && r == (
                    LeaseAction::Answer { leader: true })
                } else {
                    *final(self) == *old(self) && r == (LeaseAction::Answer { leader: false })
                },
                LeaseEvent::LockFailed => *final(self) == (LeaderLease {
                    connected: false,
                    is_leader: false,
                }) && r == (LeaseAction::Answer { leader: false }),
            },
            r == LeaseAction::TryLock ==> !final(self).is_leader,
            r == (LeaseAction::Answer { leader: true }) ==> final(self).is_leader,
    {
        match event {
            LeaseEvent::Tick => {
                if !self.connected {
                    LeaseAction::Connect
                } else if self.is_leader {
                    LeaseAction::Ping
                } else {
                    LeaseAction::TryLock
                }
            },
            LeaseEvent::Connected { ok } => {
                if ok {
                    self.connected = true;
                    self.is_leader = false;
                    LeaseAction::TryLock
                } else {
                    LeaseAction::Answer { leader: false }
                }
            },
            LeaseEvent::Pinged { ok } => {
                if ok {
                    LeaseAction::Answer { leader: self.is_leader }
                } else {
                    self.connected = false;
                    self.is_leader = false;
                    LeaseAction::Answer { leader: false }
                }
            },
            LeaseEvent::Locked { granted } => {
                if granted && self.connected {
                    self.is_leader = true;
                    LeaseAction::Answer { leader: true }
                } else {
                    LeaseAction::Answer { leader: false }
                }
            },
            LeaseEvent::LockFailed => {
                self.connected = false;
                self.is_leader = false;
                LeaseAction::Answer { leader: false }
            },
        }
    }
}

} // verus!
