//! Decision rules of the replicated service and its clients.
//!
//! The service wraps a state machine behind the replication engine:
//! it submits encoded commands, keys a one-shot waiter by the log slot
//! the engine promised, and answers the caller when that slot is
//! applied. The surrounding process does the waiting and the wire work;
//! the decisions below say exactly what to do at each step.

use vstd::prelude::*;

verus! {

/// What a client call can fail with.
pub enum Error {
    /// This peer is not the leader; try the hinted peer.
    NotLeader { hint: usize },
    /// The command did not commit within the deadline; retrying is safe,
    /// the state machine suppresses duplicates.
    Timeout,
    /// Another leader's command won the log slot; retry.
    Failed,
    /// This replica group does not own the key; ask the controller.
    WrongGroup,
}

/// How long a client waits for one attempt, in milliseconds.
pub const CALL_DEADLINE_MILLIS: u64 = 500;

/// How long a migrating group sleeps between retries, in milliseconds.
pub const MIGRATION_BACKOFF_MILLIS: u64 = 100;

/// A waiter registered for a log slot: the request id the answer must
/// carry.
pub struct Waiter {
    pub index: u64,
    pub request_id: u64,
}

/// What to do when the entry at a waiter's slot is applied: deliver the
/// output when the slot was won by the waiter's own request, otherwise
/// drop the waiter with `Failed` — a different command took the slot.
pub fn waiter_decision(w: &Waiter, applied_index: u64, applied_id: u64) -> (deliver: Option<bool>)
    ensures
        match deliver {
            Option::Some(d) => w.index == applied_index && d == (w.request_id == applied_id),
            Option::None => w.index != applied_index,
        },
{
    if w.index != applied_index {
        None
    } else {
        Some(w.request_id == applied_id)
    }
}

/// Whether the service should snapshot now: a threshold is set and the
/// persisted state has outgrown it.
pub fn should_snapshot(max_raft_state: &Option<usize>, persisted_len: usize) -> (r: bool)
    ensures
        r == match *max_raft_state {
            Option::Some(t) => persisted_len > t,
            Option::None => false,
        },
{
    match max_raft_state {
        Option::Some(t) => persisted_len > *t,
        Option::None => false,
    }
}

/// The peer a clerk tries next: the hint of a `NotLeader` answer, and
/// the next peer round-robin on any other failure.
pub fn next_peer(current: usize, n: usize, outcome: &Error) -> (next: usize)
    requires
        n >= 1,
        current < n,
    ensures
        next < n,
        match *outcome {
            Error::NotLeader { hint } => next == (if hint < n {
                hint as int
            } else {
                ((current + 1) as int) % (n as int)
            }),
            _ => next == ((current + 1) as int) % (n as int),
        },
{
    match outcome {
        Error::NotLeader { hint } => {
            if *hint < n {
                *hint
            } else {
                (current + 1) % n
            }
        }
        _ => (current + 1) % n,
    }
}

/// How many times a sharded-store clerk retries before failing hard.
pub const MAX_CLIENT_RETRIES: usize = 100;

} // verus!
