//! Exact timeline time: rational rates and tick ranges.

use vstd::prelude::*;

verus! {

/// A frame rate (or any tick rate) as `num / den` ticks per second.
#[derive(Debug, Clone, Copy, PartialEq, Eq, Structural)]
pub struct Rational {
    pub num: i32,
    pub den: i32,
}

impl Rational {
    /// 24 frames per second.
    pub fn fps_24() -> (r: Rational)
        ensures
            r == (Rational { num: 24, den: 1 }),
    {
        Rational { num: 24, den: 1 }
    }

    /// 30 frames per second.
    pub fn fps_30() -> (r: Rational)
        ensures
            r == (Rational { num: 30, den: 1 }),
    {
        Rational { num: 30, den: 1 }
    }

    /// 60 frames per second.
    pub fn fps_60() -> (r: Rational)
        ensures
            r == (Rational { num: 60, den: 1 }),
    {
        Rational { num: 60, den: 1 }
    }

    /// NTSC film, 24000/1001 frames per second.
    pub fn fps_23_976() -> (r: Rational)
        ensures
            r == (Rational { num: 24000, den: 1001 }),
    {
        Rational { num: 24000, den: 1001 }
    }

    pub fn new(num: i32, den: i32) -> (r: Rational)
        ensures
            r == (Rational { num, den }),
    {
        Rational { num, den }
    }
}

/// A tick count at a rate.
#[derive(Debug, Clone, Copy, PartialEq, Eq, Structural)]
pub struct RationalTime {
    pub value: i64,
    pub rate: Rational,
}

impl RationalTime {
    pub fn new(value: i64, rate: Rational) -> (r: RationalTime)
        ensures
            r == (RationalTime { value, rate }),
    {
        RationalTime { value, rate }
    }
}

/// A span of ticks: where it starts and how long it runs.
#[derive(Debug, Clone, Copy, PartialEq, Eq, Structural)]
pub struct TimeRange {
    pub start: RationalTime,
    pub duration: RationalTime,
}

/// `a + b`, clamped into `i64`.
pub open spec fn sat_add_i64(a: int, b: int) -> int {
    if a + b > i64::MAX {
        i64::MAX as int
    } else if a + b < i64::MIN {
        i64::MIN as int
    } else {
        a + b
    }
}

/// `a + b`, clamped into `i64` (`i64::saturating_add`).
pub fn saturating_add_i64(a: i64, b: i64) -> (r: i64)
    ensures
        r == sat_add_i64(a as int, b as int),
{
    let sum = a as i128 + b as i128;
    if sum > i64::MAX as i128 {
        i64::MAX
    } else if sum < i64::MIN as i128 {
        i64::MIN
    } else {
        sum as i64
    }
}

impl TimeRange {
    /// A range of `duration` ticks starting at `start`, both at `rate`.
    pub fn at_rate(start: i64, duration: i64, rate: Rational) -> (r: TimeRange)
        ensures
            r.start == (RationalTime { value: start, rate }),
            r.duration == (RationalTime { value: duration, rate }),
    {
        TimeRange { start: RationalTime { value: start, rate }, duration: RationalTime { value: duration, rate } }
    }

    /// The spec value of [`Self::end_tick`].
    pub open spec fn spec_end(self) -> int {
        sat_add_i64(self.start.value as int, self.duration.value as int)
    }

    /// The first tick after the range (saturating at the `i64` bounds).
    pub fn end_tick(&self) -> (e: i64)
        ensures
            e == self.spec_end(),
    {
        saturating_add_i64(self.start.value, self.duration.value)
    }

    /// Whether the range holds no ticks.
    pub fn is_empty(&self) -> (r: bool)
        ensures
            r == (self.duration.value <= 0),
    {
        self.duration.value <= 0
    }
}

} // verus!
