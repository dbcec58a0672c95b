use vstd::prelude::*;

verus! {

/// A point in simulated time, or a duration, in whole hours.
#[derive(Debug, Clone, Copy, PartialEq, Eq, Structural, PartialOrd, Ord, Hash)]
pub struct DateTime {
    pub hours: u64,
}

impl DateTime {
    pub fn from_hours(hours: u64) -> (r: Self)
        ensures
            r.hours == hours,
    {
        DateTime { hours }
    }

    pub fn increment(&mut self)
        requires
            old(self).hours < u64::MAX,
        ensures
            final(self).hours == old(self).hours + 1,
    {
        self.hours = self.hours + 1;
    }

    pub fn into_hours(self) -> (r: u64)
        ensures
            r == self.hours,
    {
        self.hours
    }

    pub fn saturating_sub(&self, rhs: Self) -> (r: Self)
        ensures
            r.hours == if self.hours >= rhs.hours { self.hours - rhs.hours } else { 0 },
    {
        if self.hours >= rhs.hours {
            DateTime { hours: self.hours - rhs.hours }
        } else {
            DateTime { hours: 0 }
        }
    }
}

} // verus!
