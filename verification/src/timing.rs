//! Milliseconds to timeline ticks and back.
//!
//! Captions arrive in milliseconds (recognizers and subtitle files both speak
//! wall-clock) while the timeline is exact ticks at a rational rate. This is
//! the one place that conversion happens, so every caption source snaps the
//! same way.

use vstd::prelude::*;

use crate::time::{sat_add_i64, saturating_add_i64, Rational, TimeRange};

verus! {

/// `d * (x / d) <= x < d * (x / d) + d` for a positive divisor.
pub proof fn lemma_floor_div(x: int, d: int)
    requires
        d > 0,
    ensures
        d * (x / d) <= x < d * (x / d) + d,
{
    vstd::arithmetic::div_mod::lemma_fundamental_div_mod(x, d);
    vstd::arithmetic::div_mod::lemma_mod_bound(x, d);
}

/// A rate that can place anything: a positive numerator and denominator.
pub open spec fn rate_valid(rate: Rational) -> bool {
    rate.num > 0 && rate.den > 0
}

/// The nearest tick to `ms` at `rate`, halves rounding up; `0` for an unusable
/// rate.
pub open spec fn spec_ticks(rate: Rational, ms: int) -> int {
    if rate.den <= 0 || rate.num <= 0 {
        0
    } else {
        (2 * ms * rate.num + 1000 * rate.den) / (2000 * rate.den)
    }
}

/// The nearest millisecond to `ticks` at `rate`, halves rounding up, clamped
/// into `u32`; `0` for an unusable rate or a tick at or before zero.
pub open spec fn spec_ms(rate: Rational, ticks: int) -> int {
    if rate.num <= 0 || rate.den <= 0 || ticks <= 0 {
        0
    } else {
        let v = (2 * ticks * 1000 * rate.den + rate.num) / (2 * rate.num);
        if v > u32::MAX {
            u32::MAX as int
        } else {
            v
        }
    }
}

/// The largest tick any `u32` millisecond value maps to, at any rate.
pub open spec fn max_tick() -> int {
    0x40_0000_0000_0000
}

/// Ticks never go negative and stay far inside `i64`.
pub proof fn lemma_ticks_bounds(rate: Rational, ms: int)
    requires
        0 <= ms <= u32::MAX,
    ensures
        0 <= spec_ticks(rate, ms) <= max_tick(),
{
    if rate.den > 0 && rate.num > 0 {
        let n = ms * rate.num;
        let d = 1000 * rate.den;
        assert(0 <= n <= 0xFFFF_FFFF * 0x7FFF_FFFF) by (nonlinear_arith)
            requires
                n == ms * rate.num,
                0 <= ms <= 0xFFFF_FFFF,
                0 < rate.num <= 0x7FFF_FFFF,
        ;
        assert(2 * ms * rate.num + 1000 * rate.den == 2 * n + d) by (nonlinear_arith)
            requires
                n == ms * rate.num,
                d == 1000 * rate.den,
        ;
        assert(2000 * rate.den == 2 * d);
        let x = 2 * n + d;
        let top: int = 2 * (0xFFFF_FFFFint * 0x7FFF_FFFFint) + 1000 * 0x7FFF_FFFFint;
        vstd::arithmetic::div_mod::lemma_div_pos_is_pos(x, 2 * d);
        vstd::arithmetic::div_mod::lemma_div_is_ordered_by_denominator(x, 2000, 2 * d);
        vstd::arithmetic::div_mod::lemma_div_is_ordered(x, top, 2000);
        lemma_floor_div(top, 2000);
    }
}

/// Where caption times land on the timeline.
#[derive(Debug, Clone, Copy, PartialEq, Eq, Structural)]
pub struct Placement {
    /// The rate the cue clips are placed at (the timeline's frame rate).
    pub rate: Rational,
    /// Timeline tick that caption time zero maps to. Non-zero when captioning
    /// one asset that starts partway into the sequence.
    pub offset_ticks: i64,
}

impl Placement {
    pub fn new(rate: Rational, offset_ticks: i64) -> (p: Placement)
        ensures
            p == (Placement { rate, offset_ticks }),
    {
        Placement { rate, offset_ticks }
    }

    /// Placement at the sequence start.
    pub fn at_rate(rate: Rational) -> (p: Placement)
        ensures
            p == (Placement { rate, offset_ticks: 0 }),
    {
        Placement::new(rate, 0)
    }

    /// The nearest tick to `ms`, excluding the offset.
    pub fn ticks(self, ms: u32) -> (t: i64)
        ensures
            t == spec_ticks(self.rate, ms as int),
            0 <= t <= max_tick(),
    {
        proof {
            lemma_ticks_bounds(self.rate, ms as int);
        }
        if self.rate.den <= 0 || self.rate.num <= 0 {
            return 0;
        }
        let num = self.rate.num as u128;
        let den = self.rate.den as u128;
        assert((ms as u128) * num <= 0xFFFF_FFFF * 0x7FFF_FFFF) by (nonlinear_arith)
            requires
                ms <= 0xFFFF_FFFF,
                num <= 0x7FFF_FFFF,
        ;
        let n: u128 = (ms as u128) * num;
        let d: u128 = 1000 * den;
        let t: u128 = (2 * n + d) / (2 * d);
        assert(2 * n + d == 2 * (ms as int) * self.rate.num + 1000 * self.rate.den) by (nonlinear_arith)
            requires
                n == (ms as int) * (self.rate.num as int),
                d == 1000 * (self.rate.den as int),
        ;
        assert(t == spec_ticks(self.rate, ms as int));
        t as i64
    }

    /// The millisecond position of `ticks`, excluding the offset. Ticks at or
    /// before zero give zero: caption times never run before their own cue.
    pub fn ms(self, ticks: i64) -> (m: u32)
        ensures
            m == spec_ms(self.rate, ticks as int),
    {
        if self.rate.num <= 0 || self.rate.den <= 0 || ticks <= 0 {
            return 0;
        }
        let num = self.rate.num as u128;
        let den = self.rate.den as u128;
        let t = ticks as u128;
        assert(t * 1000 * den <= 0x7FFF_FFFF_FFFF_FFFF * 1000 * 0x7FFF_FFFF) by (nonlinear_arith)
            requires
                t <= 0x7FFF_FFFF_FFFF_FFFF,
                den <= 0x7FFF_FFFF,
        ;
        let n: u128 = t * 1000 * den;
        let v: u128 = (2 * n + num) / (2 * num);
        assert(2 * n + num == 2 * (ticks as int) * 1000 * self.rate.den + self.rate.num) by (nonlinear_arith)
            requires
                n == (t as int) * 1000 * (den as int),
                t == ticks,
                den == self.rate.den,
                num == self.rate.num,
        ;
        assert(v == (2 * ticks * 1000 * self.rate.den + self.rate.num) / (2 * self.rate.num));
        if v > 0xFFFF_FFFF {
            u32::MAX
        } else {
            v as u32
        }
    }
}

/// Converting milliseconds to ticks and back lands within half a frame plus
/// half a millisecond of where it started:
/// `2 * num * |ms(ticks(m)) - m| <= num + 1000 * den`. At 60 fps that is
/// within 9 ms.
pub proof fn lemma_ms_ticks_round_trip(p: Placement, m: u32)
    requires
        rate_valid(p.rate),
    ensures
        ({
            let back = spec_ms(p.rate, spec_ticks(p.rate, m as int));
            let diff = if back >= m { back - m } else { m - back };
            2 * p.rate.num * diff <= p.rate.num + 1000 * p.rate.den
        }),
{
    let num = p.rate.num as int;
    let den = p.rate.den as int;
    let d = 1000 * den;
    let x = m as int;
    let t = spec_ticks(p.rate, x);
    lemma_ticks_bounds(p.rate, x);
    assert(2000 * den == 2 * d);
    lemma_floor_div(2 * x * num + d, 2 * d);
    // 2dt - d <= 2xN < 2dt + d
    let b = (2 * t * 1000 * den + num) / (2 * num);
    lemma_floor_div(2 * t * 1000 * den + num, 2 * num);
    assert(t * 1000 * den == t * d) by (nonlinear_arith)
        requires
            d == 1000 * den,
    ;
    // 2Nb - N <= 2td < 2Nb + N
    let back = spec_ms(p.rate, t);
    if t <= 0 {
        assert(t == 0);
        assert(back == 0);
        assert(2 * x * num < d) by (nonlinear_arith)
            requires
                2 * d * t <= 2 * x * num + d,
                2 * x * num + d < 2 * d * t + 2 * d,
                t == 0,
        ;
        assert(2 * num * x == 2 * x * num) by (nonlinear_arith);
    } else {
        assert(b == (2 * t * 1000 * den + num) / (2 * num));
        assert(2 * num * b - num <= 2 * t * d < 2 * num * b + num) by (nonlinear_arith)
            requires
                2 * num * ((2 * t * 1000 * den + num) / (2 * num)) <= 2 * t * 1000 * den + num,
                2 * t * 1000 * den + num < 2 * num * ((2 * t * 1000 * den + num) / (2 * num))
                    + 2 * num,
                b == (2 * t * 1000 * den + num) / (2 * num),
                t * 1000 * den == t * d,
        ;
        assert(2 * d * t - d <= 2 * x * num < 2 * d * t + d) by (nonlinear_arith)
            requires
                2 * d * ((2 * x * num + d) / (2 * d)) <= 2 * x * num + d,
                2 * x * num + d < 2 * d * ((2 * x * num + d) / (2 * d)) + 2 * d,
                t == (2 * x * num + d) / (2 * d),
        ;
        // |2N b - 2N x| <= N + d
        assert(2 * num * b - 2 * num * x <= num + d && 2 * num * x - 2 * num * b <= num + d)
            by (nonlinear_arith)
            requires
                2 * num * b - num <= 2 * t * d < 2 * num * b + num,
                2 * d * t - d <= 2 * x * num < 2 * d * t + d,
        ;
        if b > u32::MAX {
            assert(back == u32::MAX);
            assert(x <= u32::MAX);
            assert(2 * num * (back - x) <= 2 * num * (b - x)) by (nonlinear_arith)
                requires
                    num > 0,
                    back <= b,
            ;
            assert(2 * num * (b - x) == 2 * num * b - 2 * num * x) by (nonlinear_arith);
        } else {
            assert(back == b);
            assert(2 * num * (b - x) == 2 * num * b - 2 * num * x) by (nonlinear_arith);
            assert(2 * num * (x - b) == 2 * num * x - 2 * num * b) by (nonlinear_arith);
        }
    }
}

/// `a - b`, floored at zero (`u32::saturating_sub`).
pub open spec fn sat_sub(a: int, b: int) -> int {
    if a >= b {
        a - b
    } else {
        0
    }
}

/// `a + b`, capped at `u32::MAX` (`u32::saturating_add`).
pub open spec fn sat_add_u32(a: int, b: int) -> int {
    if a + b > u32::MAX {
        u32::MAX as int
    } else {
        a + b
    }
}

/// The larger of two integers.
pub open spec fn max_int(a: int, b: int) -> int {
    if a >= b {
        a
    } else {
        b
    }
}

/// Span `j` after [`separate_spans`]: its end pulled back so the next span
/// starts at least `gap` later, but never to or before its own start.
pub open spec fn separated(spans: Seq<(u32, u32)>, j: int, gap: u32) -> (u32, u32) {
    if j + 1 < spans.len() {
        let latest = sat_sub(spans[j + 1].0 as int, gap as int);
        if spans[j].1 > latest {
            (spans[j].0, max_int(latest, sat_add_u32(spans[j].0 as int, 1)) as u32)
        } else {
            spans[j]
        }
    } else {
        spans[j]
    }
}

/// Pull each span's end back so the next one starts at least `min_gap_ms`
/// later.
///
/// Starts are never moved: they come from real speech, or from a file someone
/// already timed. The hold on the previous line is the rule that yields.
pub fn separate_spans(spans: &mut Vec<(u32, u32)>, min_gap_ms: u32)
    ensures
        final(spans)@.len() == old(spans)@.len(),
        forall|j: int|
            0 <= j < old(spans)@.len() ==> #[trigger] final(spans)@[j] == separated(
                old(spans)@,
                j,
                min_gap_ms,
            ),
{
    let ghost orig = spans@;
    let n = spans.len();
    let mut index: usize = 1;
    while index < n
        invariant
            1 <= index,
            n == orig.len(),
            spans@.len() == n,
            forall|j: int| 0 <= j < index - 1 && j < n ==> #[trigger] spans@[j] == separated(orig, j, min_gap_ms),
            forall|j: int| index - 1 <= j < n ==> #[trigger] spans@[j] == orig[j],
        decreases n - index,
    {
        let latest_end = spans[index].0.saturating_sub(min_gap_ms);
        let previous = spans[index - 1];
        if previous.1 > latest_end {
            let floor = previous.0.saturating_add(1);
            let end = if latest_end >= floor {
                latest_end
            } else {
                floor
            };
            spans.set(index - 1, (previous.0, end));
        }
        assert(spans@[index - 1] == separated(orig, index - 1, min_gap_ms));
        index += 1;
    }
}

/// One span snapped after a previous range ending at `floor`:
/// `(start, end)` in ticks before the offset.
pub open spec fn snap_one(rate: Rational, floor: int, span: (u32, u32)) -> (int, int) {
    let t = spec_ticks(rate, span.0 as int);
    let start = if t < floor {
        floor
    } else {
        t
    };
    let e = spec_ticks(rate, if span.1 >= span.0 { span.1 as int } else { span.0 as int });
    let end = if e >= start + 1 {
        e
    } else {
        start + 1
    };
    (start, end)
}

/// The tick spans [`snap_spans`] gives, before the offset: each one starts
/// where its milliseconds round to, or where the previous one ended if that is
/// later.
pub open spec fn snapped(rate: Rational, spans: Seq<(u32, u32)>) -> Seq<(int, int)>
    decreases spans.len(),
{
    if spans.len() == 0 {
        Seq::empty()
    } else {
        let prev = snapped(rate, spans.drop_last());
        let floor = if prev.len() == 0 {
            i64::MIN as int
        } else {
            prev.last().1
        };
        prev.push(snap_one(rate, floor, spans.last()))
    }
}

/// Snapped spans are as many as the input, never empty, never overlap, start
/// no earlier than their own milliseconds round to, and stay within
/// `max_tick() + len` ticks.
pub proof fn lemma_snapped(rate: Rational, spans: Seq<(u32, u32)>)
    ensures
        snapped(rate, spans).len() == spans.len(),
        forall|i: int|
            0 <= i < spans.len() ==> {
                let s = #[trigger] snapped(rate, spans)[i];
                &&& s.0 < s.1
                &&& s.0 >= spec_ticks(rate, spans[i].0 as int)
                &&& 0 <= s.0
                &&& s.1 <= max_tick() + i + 1
            },
        forall|i: int|
            0 < i < spans.len() ==> #[trigger] snapped(rate, spans)[i].0 >= snapped(
                rate,
                spans,
            )[i - 1].1,
    decreases spans.len(),
{
    if spans.len() > 0 {
        let init = spans.drop_last();
        lemma_snapped(rate, init);
        let k = spans.len() - 1;
        lemma_ticks_bounds(rate, spans[k].0 as int);
        lemma_ticks_bounds(rate, spans[k].1 as int);
        assert forall|i: int| 0 <= i < k implies #[trigger] init[i] == spans[i] by {}
    }
}

/// Snap millisecond spans to whole ticks: every range at least one tick long,
/// none starting before the previous one ends, each shifted by the offset.
///
/// Rounding two nearby cues to the same frame is common at 24 fps with 40 ms
/// gaps, so a collision gives the frame to the earlier cue and pushes the
/// later one forward rather than dropping the first word of a line.
pub fn snap_spans(placement: Placement, spans: &Vec<(u32, u32)>) -> (ranges: Vec<TimeRange>)
    requires
        spans@.len() <= 0x1000_0000_0000_0000,
    ensures
        ranges@.len() == spans@.len(),
        forall|i: int|
            0 <= i < spans@.len() ==> {
                let s = snapped(placement.rate, spans@)[i];
                &&& (#[trigger] ranges@[i]).start.value == sat_add_i64(
                    s.0,
                    placement.offset_ticks as int,
                )
                &&& ranges@[i].duration.value == s.1 - s.0
                &&& ranges@[i].start.rate == placement.rate
                &&& ranges@[i].duration.rate == placement.rate
            },
{
    proof {
        lemma_snapped(placement.rate, spans@);
    }
    let mut ranges: Vec<TimeRange> = Vec::new();
    let mut floor: i64 = i64::MIN;
    let mut i: usize = 0;
    while i < spans.len()
        invariant
            0 <= i <= spans@.len() <= 0x1000_0000_0000_0000,
            ranges@.len() == i,
            snapped(placement.rate, spans@).len() == spans@.len(),
            i == 0 ==> floor == i64::MIN,
            i > 0 ==> floor == snapped(placement.rate, spans@)[i - 1].1,
            forall|j: int|
                0 <= j < i ==> {
                    let s = snapped(placement.rate, spans@)[j];
                    &&& (#[trigger] ranges@[j]).start.value == sat_add_i64(
                        s.0,
                        placement.offset_ticks as int,
                    )
                    &&& ranges@[j].duration.value == s.1 - s.0
                    &&& ranges@[j].start.rate == placement.rate
                    &&& ranges@[j].duration.rate == placement.rate
                },
            forall|j: int|
                0 <= j < spans@.len() ==> {
                    let s = #[trigger] snapped(placement.rate, spans@)[j];
                    &&& s.0 < s.1
                    &&& 0 <= s.0
                    &&& s.1 <= max_tick() + j + 1
                },
        decreases spans@.len() - i,
    {
        let (start_ms, end_ms) = spans[i];
        proof {
            lemma_snapped_index(placement.rate, spans@, i as int);
        }
        let mut start = placement.ticks(start_ms);
        if start < floor {
            start = floor;
        }
        let last_ms = if end_ms >= start_ms {
            end_ms
        } else {
            start_ms
        };
        let e = placement.ticks(last_ms);
        let end = if e >= start + 1 {
            e
        } else {
            start + 1
        };
        floor = end;
        let shifted = saturating_add_i64(start, placement.offset_ticks);
        ranges.push(TimeRange::at_rate(shifted, end - start, placement.rate));
        i += 1;
    }
    ranges
}

/// Each snapped span is the previous one's successor: span `i` snaps after
/// the end of span `i - 1` (or after nothing, for the first).
pub proof fn lemma_snapped_index(rate: Rational, spans: Seq<(u32, u32)>, i: int)
    requires
        0 <= i < spans.len(),
    ensures
        snapped(rate, spans)[i] == snap_one(
            rate,
            if i == 0 {
                i64::MIN as int
            } else {
                snapped(rate, spans)[i - 1].1
            },
            spans[i],
        ),
    decreases spans.len(),
{
    let init = spans.drop_last();
    lemma_snapped(rate, init);
    if i < spans.len() - 1 {
        lemma_snapped_index(rate, init, i);
    }
}

/// A recognizer's centisecond time in milliseconds, saturating at
/// `u32::MAX`.
pub fn centiseconds_to_ms(centiseconds: u64) -> (ms: u32)
    ensures
        ms == (if centiseconds * 10 > u32::MAX {
            u32::MAX as int
        } else {
            centiseconds * 10
        }),
{
    if centiseconds > 429_496_729 {
        u32::MAX
    } else {
        (centiseconds * 10) as u32
    }
}

} // verus!
