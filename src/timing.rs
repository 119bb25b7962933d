use vstd::prelude::*;

verus! {

/// Pulses per second of the timing source.
pub const TICKS_PER_SECOND: u64 = 60;

/// The shortest gap between two pulses, in nanoseconds (a sixtieth of a
/// second, rounded to the nearest nanosecond).
pub const FRAME_NANOS: u64 = 16_666_667;

/// The fixed-rate timing source: the one authority on how much time has
/// passed. It is polled with the reading of a monotonic clock, in
/// nanoseconds, and fires once a frame's worth of time has gone by since it
/// last fired, handing out the time that actually went by.
#[derive(Debug, Clone, Copy, PartialEq, Eq, Structural)]
pub struct TimingSource {
    pub last_pulse: u64,
}

impl TimingSource {
    /// A source whose last pulse was at `now`.
    pub fn new(now: u64) -> (r: Self)
        ensures
            r.last_pulse == now,
    {
        TimingSource { last_pulse: now }
    }

    /// Decides whether a pulse is due at `now`. If at least `FRAME_NANOS`
    /// have passed since the last pulse, it returns the elapsed time and
    /// counts `now` as the last pulse; otherwise it returns `None` and keeps
    /// its state. A clock reading before the last pulse counts as no time.
    pub fn poll(&mut self, now: u64) -> (r: Option<u64>)
        ensures
            now >= old(self).last_pulse && now - old(self).last_pulse >= FRAME_NANOS ==> r == Some(
                (now - old(self).last_pulse) as u64,
            ) && final(self).last_pulse == now,
            !(now >= old(self).last_pulse && now - old(self).last_pulse >= FRAME_NANOS) ==> r
                is None && *final(self) == *old(self),
    {
        if now >= self.last_pulse && now - self.last_pulse >= FRAME_NANOS {
            let elapsed = now - self.last_pulse;
            self.last_pulse = now;
            Some(elapsed)
        } else {
            None
        }
    }
}

} // verus!
