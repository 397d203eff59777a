use cutlass_captions::time::Rational;
use cutlass_captions::timing::{centiseconds_to_ms, separate_spans, snap_spans, Placement};

#[test]
fn ticks_round_to_the_nearest_frame() {
    let at_30 = Placement::at_rate(Rational::fps_30());
    assert_eq!(at_30.ticks(0), 0);
    assert_eq!(at_30.ticks(33), 1, "33 ms is one frame at 30 fps");
    assert_eq!(at_30.ticks(1_000), 30);
    // 16 ms is just under half a frame, 17 ms just over.
    assert_eq!(at_30.ticks(16), 0);
    assert_eq!(at_30.ticks(17), 1);
}

#[test]
fn ticks_stay_exact_at_ntsc_rates() {
    let at_23_976 = Placement::at_rate(Rational::fps_23_976());
    // 1001 ms is exactly 24 ticks at 24000/1001.
    assert_eq!(at_23_976.ticks(1_001), 24);
    assert_eq!(at_23_976.ms(24), 1_001);
}

#[test]
fn ms_and_ticks_round_trip_within_a_frame() {
    let placement = Placement::at_rate(Rational::fps_60());
    for ms in [0_u32, 1, 500, 1_234, 60_000] {
        let back = placement.ms(placement.ticks(ms));
        assert!(back.abs_diff(ms) <= 17, "{ms} ms drifted to {back} ms");
    }
}

#[test]
fn an_invalid_rate_degrades_instead_of_dividing_by_zero() {
    let broken = Placement::at_rate(Rational::new(0, 0));
    assert_eq!(broken.ticks(1_000), 0);
    assert_eq!(broken.ms(30), 0);
}

#[test]
fn snapping_keeps_every_span_non_empty_and_ordered() {
    let placement = Placement::at_rate(Rational::fps_24());
    // Two cues 5 ms apart both round to tick 0 at 24 fps.
    let ranges = snap_spans(placement, &vec![(0, 4), (5, 9), (1_000, 2_000)]);
    assert_eq!(ranges[0].start.value, 0);
    assert_eq!(ranges[0].duration.value, 1);
    assert_eq!(ranges[1].start.value, 1, "pushed clear of the first cue");
    assert_eq!(ranges[1].duration.value, 1);
    assert_eq!(ranges[2].start.value, 24);
}

#[test]
fn separating_shortens_the_earlier_span_only() {
    let mut spans = vec![(0, 1_000), (800, 1_500)];
    separate_spans(&mut spans, 40);
    assert_eq!(spans[0], (0, 760));
    assert_eq!(spans[1], (800, 1_500), "starts are never moved");
}

#[test]
fn separating_never_empties_a_span() {
    let mut spans = vec![(100, 900), (110, 900)];
    separate_spans(&mut spans, 500);
    assert_eq!(spans[0], (100, 101), "kept non-empty for snapping to fix");
}

#[test]
fn snapping_applies_the_offset() {
    let placement = Placement::new(Rational::fps_30(), 90);
    let ranges = snap_spans(placement, &vec![(0, 1_000)]);
    assert_eq!(ranges[0].start.value, 90);
    assert_eq!(ranges[0].duration.value, 30);
}

#[test]
fn the_round_trip_bound_holds_at_every_rate() {
    for rate in [
        Rational::fps_24(),
        Rational::fps_30(),
        Rational::fps_60(),
        Rational::fps_23_976(),
    ] {
        let placement = Placement::at_rate(rate);
        for ms in [0_u32, 7, 499, 1_001, 86_400_000, u32::MAX] {
            let back = placement.ms(placement.ticks(ms));
            let num = u64::from(rate.num.unsigned_abs());
            let den = u64::from(rate.den.unsigned_abs());
            assert!(2 * num * u64::from(back.abs_diff(ms)) <= num + 1_000 * den);
        }
    }
}

#[test]
fn ticks_before_zero_are_zero_milliseconds() {
    assert_eq!(Placement::at_rate(Rational::fps_30()).ms(-5), 0);
}

#[test]
fn a_large_offset_saturates_instead_of_wrapping() {
    let placement = Placement::new(Rational::fps_30(), i64::MAX);
    let ranges = snap_spans(placement, &vec![(1_000, 2_000)]);
    assert_eq!(ranges[0].start.value, i64::MAX);
    assert_eq!(ranges[0].duration.value, 30);
}

#[test]
fn whisper_centiseconds_convert_without_overflowing() {
    assert_eq!(centiseconds_to_ms(0), 0);
    assert_eq!(centiseconds_to_ms(123), 1_230);
    assert_eq!(centiseconds_to_ms(u64::MAX), u32::MAX);
}

#[test]
fn centiseconds_saturate_exactly_at_the_u32_ceiling() {
    assert_eq!(centiseconds_to_ms(429_496_729), 4_294_967_290);
    assert_eq!(centiseconds_to_ms(429_496_730), u32::MAX);
}
