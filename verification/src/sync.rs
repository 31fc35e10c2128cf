//! The background synchronizer's decision logic. The rate and routing
//! caches are refreshed by two periodic polling loops that live with the
//! process plumbing: each loop owns a timer and a non-owning handle to
//! the shared backend connection, and at every tick asks this module
//! what to do, then applies the answer — a refresh through
//! `Store::update_rates` or `Store::update_routes`, or stopping the loop
//! for good once the store has been torn down.
use vstd::prelude::*;

verus! {

/// The poll interval, in milliseconds, that both refresh loops default
/// to.
pub const POLL_INTERVAL: u64 = 60000;

/// What a refresh loop does at one tick.
#[derive(Clone, Copy, Debug, PartialEq, Eq, Structural)]
pub enum TickAction {
    /// Read the authoritative table and replace the cache wholesale.
    Refresh,
    /// Schedule no further ticks: the store has been torn down.
    Stop,
}

/// The tick decision: refresh while the shared connection is still
/// reachable; stop, and never resume, once it is not. Stopping is
/// cooperative — the loop discovers the teardown at its next tick, not
/// at a bounded time.
pub fn poll_tick(store_reachable: bool) -> (r: TickAction)
    ensures
        r == (if store_reachable {
            TickAction::Refresh
        } else {
            TickAction::Stop
        }),
{
    if store_reachable {
        TickAction::Refresh
    } else {
        TickAction::Stop
    }
}

} // verus!
