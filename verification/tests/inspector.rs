use cutlass_captions::caption::highlight::CaptionHighlightMode;
use cutlass_captions::inspector::{channel, clock, group, highlight_mode, line_budget, line_count, timecode};

#[test]
fn clock_prints_minutes_seconds_and_hundredths() {
    assert_eq!(clock(0, 30, 1), "0:00.00");
    assert_eq!(clock(60, 30, 1), "0:02.00");
    assert_eq!(clock(135, 30, 1), "0:04.50");
    assert_eq!(clock(30 * 75, 30, 1), "1:15.00");
    assert_eq!(clock(24, 24_000, 1001), "0:01.00");
}

#[test]
fn clock_marks_negative_times_and_ignores_unusable_rates() {
    assert_eq!(clock(-45, 30, 1), "-0:01.50");
    assert_eq!(clock(90, 0, 1), "0:00.00");
    assert_eq!(clock(90, 30, -1), "0:00.00");
}

#[test]
fn timecodes_join_start_and_end() {
    assert_eq!(timecode(0, 60, 30, 1), "0:00.00 → 0:02.00");
    assert_eq!(timecode(90, 45, 30, 1), "0:03.00 → 0:04.50");
}

#[test]
fn group_lookup_finds_the_first_matching_id() {
    let ids = vec!["7".to_string(), "8".to_string(), "7".to_string()];
    assert_eq!(group(&ids, "7"), Some(0));
    assert_eq!(group(&ids, "8"), Some(1));
    assert_eq!(group(&ids, "9"), None);
    assert_eq!(group(&ids, ""), None);
}

#[test]
fn the_sheet_numbers_read_back_into_the_model() {
    assert_eq!(highlight_mode(0), Some(CaptionHighlightMode::Off));
    assert_eq!(highlight_mode(1), Some(CaptionHighlightMode::Word));
    assert_eq!(highlight_mode(2), Some(CaptionHighlightMode::Line));
    assert_eq!(highlight_mode(3), None);
    assert_eq!(highlight_mode(-1), None);
    assert_eq!(line_budget(-5), 0);
    assert_eq!(line_budget(42), 42);
    assert_eq!(line_budget(100_000), u16::MAX);
    assert_eq!(line_count(-1), 0);
    assert_eq!(line_count(3), 3);
    assert_eq!(line_count(1_000), u8::MAX);
    assert_eq!(channel(-20), 0);
    assert_eq!(channel(128), 128);
    assert_eq!(channel(300), 255);
}
