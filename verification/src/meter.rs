//! A bounded counter such as health, fuel, daylight or carried junk.
use vstd::prelude::*;

verus! {

/// A counter with a current value and a maximum. Every operation but `new` keeps the current
/// value at most the maximum once it is.
#[derive(Clone, Debug)]
pub struct Meter {
    current: u32,
    max: u32,
}

/// `to`, clamped to `max`.
pub open spec fn clamped(to: int, max: int) -> int {
    if to < max {
        to
    } else {
        max
    }
}

/// `current` lowered by `by`, stopping at zero.
pub open spec fn decreased(current: int, by: int) -> int {
    if current >= by {
        current - by
    } else {
        0
    }
}

/// `current` raised by `by`, stopping at `max`.
pub open spec fn increased(current: int, max: int, by: int) -> int {
    clamped(current + by, max)
}

impl Meter {
    /// The current value.
    pub closed spec fn spec_current(&self) -> u32 {
        self.current
    }

    /// The maximum.
    pub closed spec fn spec_max(&self) -> u32 {
        self.max
    }

    /// A meter with the given current value and maximum (the current value is not clamped).
    pub fn new(current: u32, max: u32) -> (m: Meter)
        ensures
            m.spec_current() == current,
            m.spec_max() == max,
    {
        Meter { current, max }
    }

    pub fn current_and_max(&self) -> (r: (u32, u32))
        ensures
            r == (self.spec_current(), self.spec_max()),
    {
        (self.current, self.max)
    }

    pub fn current(&self) -> (c: u32)
        ensures
            c == self.spec_current(),
    {
        self.current
    }

    pub fn max(&self) -> (m: u32)
        ensures
            m == self.spec_max(),
    {
        self.max
    }

    /// Sets the current value to `to`, clamped to the maximum.
    pub fn set_current(&mut self, to: u32)
        ensures
            final(self).spec_max() == old(self).spec_max(),
            final(self).spec_current() == clamped(to as int, old(self).spec_max() as int),
    {
        self.current = if to < self.max {
            to
        } else {
            self.max
        };
    }

    /// Lowers the current value by `by`, stopping at zero.
    pub fn decrease(&mut self, by: u32)
        ensures
            final(self).spec_max() == old(self).spec_max(),
            final(self).spec_current() == decreased(old(self).spec_current() as int, by as int),
    {
        self.current = if self.current >= by {
            self.current - by
        } else {
            0
        };
    }

    /// Raises the current value by `by`, stopping at the maximum. The sum must fit in a
    /// `u32`.
    pub fn increase(&mut self, by: u32)
        requires
            old(self).spec_current() + by <= u32::MAX,
        ensures
            final(self).spec_max() == old(self).spec_max(),
            final(self).spec_current() == increased(
                old(self).spec_current() as int,
                old(self).spec_max() as int,
                by as int,
            ),
    {
        let to = self.current + by;
        self.set_current(to);
    }

    /// Sets the maximum, lowering the current value to it if needed.
    pub fn set_max(&mut self, to: u32)
        ensures
            final(self).spec_max() == to,
            final(self).spec_current() == clamped(old(self).spec_current() as int, to as int),
    {
        self.max = to;
        let current = self.current;
        self.set_current(current);
    }

    /// True iff the current value is zero.
    pub fn is_empty(&self) -> (b: bool)
        ensures
            b == (self.spec_current() == 0),
    {
        self.current == 0
    }

    /// True iff the current value equals the maximum.
    pub fn is_full(&self) -> (b: bool)
        ensures
            b == (self.spec_current() == self.spec_max()),
    {
        self.current == self.max
    }

    /// Sets the current value to the maximum.
    pub fn fill(&mut self)
        ensures
            final(self).spec_max() == old(self).spec_max(),
            final(self).spec_current() == old(self).spec_max(),
    {
        self.current = self.max;
    }
}

/// Raising a meter by an amount that does not take it past its maximum, then lowering it by
/// the same amount, gives back the value it had.
pub proof fn law_increase_then_decrease(current: u32, max: u32, by: u32)
    requires
        current + by <= max,
    ensures
        decreased(increased(current as int, max as int, by as int), by as int) == current,
{
}

/// Once a meter's current value is at most its maximum, setting, lowering, raising and filling
/// it keep it so, and changing the maximum leaves it at most the new maximum.
pub proof fn law_current_stays_within_max(current: u32, max: u32, to: u32, by: u32)
    requires
        current <= max,
    ensures
        clamped(to as int, max as int) <= max,
        decreased(current as int, by as int) <= max,
        increased(current as int, max as int, by as int) <= max,
        clamped(current as int, to as int) <= to,
        0 <= decreased(current as int, by as int),
{
}

} // verus!
