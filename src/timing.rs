use vstd::prelude::*;

verus! {

/// A periodic timer: reports, at most once per period, that a period has
/// passed since it last fired. Times are in milliseconds, read by the caller.
#[derive(Clone, Copy, Debug, PartialEq, Eq, Structural)]
pub struct Interval {
    last: u64,
    interval: u64,
}

impl Interval {
    /// A timer with the given period that counts from `now`.
    pub fn new(interval: u64, now: u64) -> (r: Self)
        ensures
            r.interval() == interval,
            r.last() == now,
    {
        Interval { last: now, interval }
    }

    pub closed spec fn interval(&self) -> u64 {
        self.interval
    }

    pub closed spec fn last(&self) -> u64 {
        self.last
    }

    /// The time the timer last fired.
    pub fn last_fired(&self) -> (r: u64)
        ensures
            r == self.last(),
    {
        self.last
    }

    /// The period of the timer.
    pub fn period(&self) -> (r: u64)
        ensures
            r == self.interval(),
    {
        self.interval
    }

    /// Fires, and restarts from `now`, when more than one period has passed
    /// between the last firing and `now`. A `now` before the last firing
    /// does not fire.
    pub fn check(&mut self, now: u64) -> (r: bool)
        ensures
            r == (now >= old(self).last() && now - old(self).last() > old(self).interval()),
            final(self).interval() == old(self).interval(),
            final(self).last() == if r {
                now
            } else {
                old(self).last()
            },
    {
        if now >= self.last && now - self.last > self.interval {
            self.last = now;
            true
        } else {
            false
        }
    }
}

/// The simulation's frame counter and the time of its last update, in
/// milliseconds.
#[derive(Clone, Copy, Debug, PartialEq, Eq, Structural)]
pub struct GameSync {
    pub last_update: u64,
    pub frame: usize,
}

impl GameSync {
    /// Frame zero, updated at `now`.
    pub fn new(now: u64) -> (r: Self)
        ensures
            r == (GameSync { last_update: now, frame: 0 }),
    {
        GameSync { last_update: now, frame: 0 }
    }

    /// Counts one more frame, updated at `now`.
    pub fn update(&mut self, now: u64)
        requires
            old(self).frame < usize::MAX,
        ensures
            *final(self) == (GameSync { last_update: now, frame: (old(self).frame + 1) as usize }),
    {
        self.last_update = now;
        self.frame = self.frame + 1;
    }
}

} // verus!
