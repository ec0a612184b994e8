//! The liveness signal: a daemon is stale when its last heartbeat lies
//! further in the past than the staleness threshold. Staleness is advisory —
//! it only decides membership in the next snapshot, never aborts anything.

use vstd::prelude::*;

verus! {

/// Whether a daemon last seen at `last_seen` counts as stale at `now`.
pub open spec fn stale_at(last_seen: int, now: int, threshold: int) -> bool {
    now - last_seen > threshold
}

/// The staleness predicate the registry consults during rotation.
pub fn is_stale(last_seen: i64, now: i64, threshold: i64) -> (b: bool)
    ensures
        b == stale_at(last_seen as int, now as int, threshold as int),
{
    let diff: i128 = (now as i128) - (last_seen as i128);
    diff > (threshold as i128)
}

} // verus!
