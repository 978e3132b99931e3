//! Timing utility structs.
//!
//! Durations and instants are plain nanosecond counts, handed in by the
//! caller; the structs hold the bookkeeping that decides what is reported.

use vstd::prelude::*;

verus! {

/// Collects timing information: tracks the minimum, maximum, total and
/// count of the duration samples (in nanoseconds) given to `update`.
///
/// When only one sample was collected, a report shows just the total, as
/// all the values are the same.
#[derive(Debug, Clone, Copy, PartialEq, Eq, Structural)]
pub struct Timing {
    /// Smallest sample seen so far; starts at the largest representable
    /// duration so that the first sample replaces it.
    pub min: u128,
    /// Largest sample seen so far.
    pub max: u128,
    /// Sum of all samples.
    pub total: u128,
    /// Number of samples.
    pub counted: u32,
}

impl Timing {
    /// Updates the tracked values with the given duration.
    pub fn update(&mut self, given: u128)
        requires
            old(self).counted < u32::MAX,
            old(self).total + given <= u128::MAX,
        ensures
            final(self).min == if old(self).min > given {
                given
            } else {
                old(self).min
            },
            final(self).max == if old(self).max < given {
                given
            } else {
                old(self).max
            },
            final(self).total == old(self).total + given,
            final(self).counted == old(self).counted + 1,
    {
        if self.min > given {
            self.min = given;
        }
        if self.max < given {
            self.max = given;
        }
        self.total = self.total + given;
        self.counted = self.counted + 1;
    }

    /// The average duration over the counted samples.
    pub fn average(&self) -> (r: u128)
        requires
            self.counted > 0,
        ensures
            r == self.total / (self.counted as u128),
    {
        self.total / (self.counted as u128)
    }

    /// The values a report shows: minimum, maximum, average and total when
    /// more than one sample was counted — with one sample all the values
    /// are the same, so nothing is reported beyond the total.
    pub fn report(&self) -> (r: Option<(u128, u128, u128, u128)>)
        ensures
            self.counted > 1 ==> r == Some(
                (self.min, self.max, self.total / (self.counted as u128), self.total),
            ),
            self.counted <= 1 ==> r is None,
    {
        if self.counted > 1 {
            Some((self.min, self.max, self.average(), self.total))
        } else {
            None
        }
    }
}

impl Default for Timing {
    /// An empty collection: nothing counted, the minimum at the largest
    /// representable duration, the maximum and the total at zero.
    fn default() -> (r: Self)
        ensures
            r.min == u128::MAX,
            r.max == 0,
            r.total == 0,
            r.counted == 0,
    {
        Timing { min: u128::MAX, max: 0, total: 0, counted: 0 }
    }
}

/// Indicates when a configured span of time has passed since the last
/// recorded instant.
///
/// Instants are nanosecond readings of a monotonic clock, counted from
/// whatever moment the caller picks as its epoch; the span defaults to ten
/// seconds.
#[derive(Debug, Clone, Copy, PartialEq, Eq, Structural)]
pub struct LogTimer {
    /// The last recorded instant; starts at the epoch itself.
    pub last: u128,
    /// The span of time that must pass before `update` reports true.
    pub drtn: u128,
}

impl LogTimer {
    /// Checks the given instant against the stored one: reports whether
    /// more than the configured span has passed, and records the given
    /// instant when it has.
    pub fn update(&mut self, now: u128) -> (r: bool)
        ensures
            r == (now > old(self).last + old(self).drtn),
            r ==> *final(self) == (LogTimer { last: now, drtn: old(self).drtn }),
            !r ==> *final(self) == *old(self),
    {
        if now > self.last && now - self.last > self.drtn {
            self.last = now;
            true
        } else {
            false
        }
    }
}

impl Default for LogTimer {
    /// A timer anchored at the epoch with the ten-second default span.
    fn default() -> (r: Self)
        ensures
            r.last == 0,
            r.drtn == 10000000000,
    {
        LogTimer { last: 0, drtn: 10000000000 }
    }
}

} // verus!
