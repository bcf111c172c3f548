//! What a synchronisation attempt reports, and the wait budget that bounds it.
use crate::packet::MotorPacket;
use vstd::prelude::*;

verus! {

/// Wait budget of one synchronisation attempt, in milliseconds.
pub const DEFAULT_BUDGET_MS: u64 = 1000;

/// Outcome of feeding a synchroniser what the link delivered so far.
#[derive(Clone, Copy, Debug, PartialEq, Eq, Structural)]
pub enum SyncResult {
    /// A whole packet was found.
    Packet(MotorPacket),
    /// No packet yet and the budget is not spent: read again.
    Pending,
    /// The budget is spent without a whole packet: no packet this cycle.
    TimedOut,
    /// The stream closed after a magic and before the payload was whole.
    Incomplete,
}

/// Whether an attempt started at `start_ms` has spent `budget_ms` by
/// `now_ms`. A clock that reads earlier than the start counts as no time
/// spent.
pub fn budget_expired(start_ms: u64, now_ms: u64, budget_ms: u64) -> (r: bool)
    ensures
        r == (now_ms >= start_ms && now_ms - start_ms >= budget_ms),
{
    now_ms >= start_ms && now_ms - start_ms >= budget_ms
}

} // verus!
