use vstd::prelude::*;

verus! {

/// Interval, in milliseconds, between two transport-level pings.
pub const HEARTBEAT_INTERVAL_MS: u64 = 5000;

/// Longest silence, in milliseconds, that a connection may keep before it is
/// considered dead.
pub const CLIENT_TIMEOUT_MS: u64 = 10000;

/// What the heartbeat monitor does when its timer fires.
#[derive(Clone, Copy, Debug, PartialEq, Eq, Structural)]
pub enum HeartbeatAction {
    /// The connection is alive: send a transport ping.
    SendPing,
    /// The connection has been silent too long: stop the session.
    Stop,
}

/// True when a connection last heard from at `last_seen` is still alive at `now`.
pub open spec fn is_alive(last_seen: u64, now: u64) -> bool {
    now <= last_seen || now - last_seen <= CLIENT_TIMEOUT_MS
}

/// Decides what a timer tick at `now` does for a connection last heard from at
/// `last_seen` (both in milliseconds).
pub fn heartbeat_check(last_seen: u64, now: u64) -> (r: HeartbeatAction)
    ensures
        r == (if is_alive(last_seen, now) { HeartbeatAction::SendPing } else { HeartbeatAction::Stop }),
{
    if now > last_seen && now - last_seen > CLIENT_TIMEOUT_MS {
        HeartbeatAction::Stop
    } else {
        HeartbeatAction::SendPing
    }
}

} // verus!
