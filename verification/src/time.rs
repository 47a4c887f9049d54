//! Media time in a track's timescale, read as milliseconds.

use vstd::prelude::*;

verus! {

/// `unscaled` ticks of `timescale` per second in whole milliseconds, rounded down,
/// or `u64::MAX` where that does not fit.
pub open spec fn milliseconds_of(unscaled: u64, timescale: u32) -> u64 {
    let exact = unscaled * 1000 / (timescale as int);
    if exact > u64::MAX { u64::MAX } else { exact as u64 }
}

/// Conversions of media time.
pub struct Time;

impl Time {
    /// `unscaled_time`, counted in ticks of `timescale` per second, in whole
    /// milliseconds: fractions are dropped, and a result too large for a `u64`
    /// saturates at `u64::MAX`.
    pub fn milliseconds(unscaled_time: u64, timescale: u32) -> (ms: u64)
        requires
            timescale > 0,
        ensures
            ms == milliseconds_of(unscaled_time, timescale),
    {
        let scaled: u128 = (unscaled_time as u128) * 1000;
        let exact: u128 = scaled / (timescale as u128);
        if exact > u64::MAX as u128 {
            u64::MAX
        } else {
            exact as u64
        }
    }
}

} // verus!
