//! Wall-clock stopwatch for timing long-running work: records a start, an
//! end, and the moment of the last tick, in milliseconds since the Unix
//! epoch.
//!
//! The clock reading itself comes from the system and nothing is promised
//! of it; every difference is computed saturating, so a clock that jumps
//! backwards yields zero rather than a fault.

use vstd::prelude::*;

verus! {

/// A stopwatch over the system clock, all times in milliseconds since the
/// Unix epoch (0 = never set).
#[derive(Debug)]
pub struct TimeKeeper {
    pub start_time: u128,
    pub last_tick_time: u128,
    pub end_time: u128,
}

/// One reading: the time now, the time since the previous tick, and the
/// time since the stopwatch was started.
#[derive(Debug)]
pub struct Tick {
    pub time: u128,
    pub time_since_last_tick: u128,
    pub time_since_start: u128,
}

/// The difference of two clock readings, zero when the clock went
/// backwards.
pub open spec fn clock_diff(later: u128, earlier: u128) -> u128 {
    if later >= earlier {
        (later - earlier) as u128
    } else {
        0
    }
}

/// Relies on std::time::SystemTime::now and
/// SystemTime::duration_since(UNIX_EPOCH): the wall clock in milliseconds
/// since the Unix epoch, 0 for a clock before the epoch. A clock reading
/// promises nothing.
#[verifier::external_body]
fn now_millis() -> u128 {
    std::time::SystemTime::now()
        .duration_since(std::time::UNIX_EPOCH)
        .map(|d| d.as_millis())
        .unwrap_or(0)
}

impl TimeKeeper {
    /// A stopwatch with nothing recorded yet.
    pub fn new() -> (r: TimeKeeper)
        ensures
            r.start_time == 0,
            r.end_time == 0,
            r.last_tick_time == 0,
    {
        TimeKeeper { start_time: 0, end_time: 0, last_tick_time: 0 }
    }

    /// Record the start: start and last-tick times become the time now, and
    /// a first reading is taken (against the just-recorded start, so both
    /// distances of the reading agree).
    pub fn start(&mut self) -> (t: Tick)
        ensures
            final(self).end_time == old(self).end_time,
            final(self).last_tick_time == t.time,
            t.time_since_last_tick == clock_diff(t.time, final(self).start_time),
            t.time_since_start == clock_diff(t.time, final(self).start_time),
    {
        let time = now_millis();
        self.start_time = time;
        self.last_tick_time = time;
        self.tick()
    }

    /// Record the end: end and last-tick times become the time now, and a
    /// reading is taken against the recorded start.
    pub fn end(&mut self) -> (t: Tick)
        ensures
            final(self).start_time == old(self).start_time,
            final(self).last_tick_time == t.time,
            t.time_since_last_tick == clock_diff(t.time, final(self).end_time),
            t.time_since_start == clock_diff(t.time, old(self).start_time),
    {
        let time = now_millis();
        self.end_time = time;
        self.last_tick_time = time;
        self.tick()
    }

    /// Take a reading: the time now, the (saturating) time since the last
    /// tick and since the start; the last-tick time moves to now.
    pub fn tick(&mut self) -> (t: Tick)
        ensures
            final(self).start_time == old(self).start_time,
            final(self).end_time == old(self).end_time,
            final(self).last_tick_time == t.time,
            t.time_since_last_tick == clock_diff(t.time, old(self).last_tick_time),
            t.time_since_start == clock_diff(t.time, old(self).start_time),
    {
        let time = now_millis();
        let time_since_last_tick = if time >= self.last_tick_time {
            time - self.last_tick_time
        } else {
            0
        };
        let time_since_start = if time >= self.start_time {
            time - self.start_time
        } else {
            0
        };
        self.last_tick_time = time;
        Tick { time, time_since_last_tick, time_since_start }
    }
}

} // verus!
