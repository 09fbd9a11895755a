//! The timestamp oracle: it hands out timestamps in strictly increasing
//! order, each at least the physical time at which it was asked for.
use vstd::prelude::*;

verus! {

/// Ask for a timestamp.
#[derive(Clone, Copy, Debug, Default)]
pub struct TimestampRequest {}

/// A timestamp, in nanoseconds.
#[derive(Clone, Copy, Debug)]
pub struct TimestampResponse {
    pub timestamp: u64,
}

/// The timestamp handed out after `last` when the clock reads `now`: the
/// clock itself if it is ahead, else the next number; none once the numbers
/// are used up.
pub open spec fn next_timestamp(last: u64, now: u64) -> Option<u64> {
    if last < now {
        Some(now)
    } else if last < u64::MAX {
        Some((last + 1) as u64)
    } else {
        None
    }
}

/// The oracle remembers the last timestamp it handed out.
#[derive(Clone, Debug)]
pub struct TimestampOracle {
    last: u64,
}

impl TimestampOracle {
    /// The last timestamp handed out, 0 before the first.
    pub closed spec fn last_issued(&self) -> u64 {
        self.last
    }

    /// An oracle that has handed out nothing.
    pub fn new() -> (o: TimestampOracle)
        ensures
            o.last_issued() == 0,
    {
        TimestampOracle { last: 0 }
    }

    /// Hands out the next timestamp, the clock reading `now`.
    pub fn get_timestamp(&mut self, _req: TimestampRequest, now: u64) -> (r: Option<TimestampResponse>)
        ensures
            match next_timestamp(old(self).last_issued(), now) {
                None => r is None && final(self).last_issued() == old(self).last_issued(),
                Some(t) => r matches Some(resp) && resp.timestamp == t && final(self).last_issued() == t,
            },
    {
        if self.last < now {
            self.last = now;
        } else if self.last < u64::MAX {
            self.last = self.last + 1;
        } else {
            return None;
        }
        Some(TimestampResponse { timestamp: self.last })
    }
}

impl Default for TimestampOracle {
    fn default() -> (o: TimestampOracle)
        ensures
            o.last_issued() == 0,
    {
        TimestampOracle::new()
    }
}

} // verus!
