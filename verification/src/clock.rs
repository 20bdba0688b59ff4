//! The wall clock, in microseconds.

use std::time::SystemTime;
use vstd::prelude::*;

use crate::foreign::since_epoch;

verus! {

/// A reading of the clock as a timestamp. A clock that stands before the epoch
/// reads as zero, and what does not fit in the timestamp is lost at the top.
pub fn timestamp(micros: Option<u128>) -> (r: u64)
    ensures
        match micros {
            None => r == 0,
            Some(m) => r == m % 0x1_0000_0000_0000_0000,
        },
        micros matches Some(m) ==> m <= u64::MAX ==> r == m,
{
    match micros {
        None => 0,
        Some(m) => (m % 0x1_0000_0000_0000_0000) as u64,
    }
}

/// Microseconds since the Unix epoch. Nothing is promised of the number: it is
/// whatever the clock of this machine says.
pub fn now_us() -> u64 {
    timestamp(match since_epoch(SystemTime::now()) {
        Some(span) => Some(span.as_micros()),
        None => None,
    })
}

/// How often the clock is read again before it is taken to be standing still.
pub const MAX_SPINS: u32 = 1_000_000;

/// A reading of the clock, given out once the clock has moved on from it or has
/// stood still for too long. As of `now_us`, nothing is promised of the number.
pub fn spent_us() -> u64 {
    let t = now_us();
    let mut spins: u32 = 0;
    while stands_still(t, now_us(), spins)
        invariant
            spins <= MAX_SPINS,
        decreases MAX_SPINS - spins,
    {
        spins = spins + 1;
    }
    t
}

/// Whether a reading is still to be held back: the clock, read again, has not
/// moved on from it, and has not been read again too often either.
pub fn stands_still(reading: u64, again: u64, spins: u32) -> (r: bool)
    ensures
        r == (again == reading && spins < MAX_SPINS),
{
    spins < MAX_SPINS && again == reading
}

} // verus!
