//! Event counters that wrap around.

use vstd::prelude::*;

verus! {

/// A counter after one more event; it starts over behind its largest value.
pub open spec fn next(count: u64) -> u64 {
    if count == u64::MAX {
        0
    } else {
        (count + 1) as u64
    }
}

/// A counter after one more event.
pub fn bump(count: u64) -> (bumped: u64)
    ensures
        bumped == next(count),
{
    count.wrapping_add(1)
}

} // verus!
