use cutlass_captions::format::{
    format_timestamp, numbered_lines, parse_timestamp, split_timing, strip_markup,
};

#[test]
fn timestamps_parse_with_either_separator() {
    assert_eq!(parse_timestamp("00:00:01,500"), Some(1_500));
    assert_eq!(parse_timestamp("00:00:01.500"), Some(1_500));
    assert_eq!(parse_timestamp(" 01:02:03,004 "), Some(3_723_004));
}

#[test]
fn timestamps_parse_without_hours_or_fractions() {
    assert_eq!(parse_timestamp("02:03.500"), Some(123_500));
    assert_eq!(parse_timestamp("00:00:07"), Some(7_000));
}

#[test]
fn fractions_pad_and_truncate_to_milliseconds() {
    assert_eq!(parse_timestamp("00:00:00.5"), Some(500));
    assert_eq!(parse_timestamp("00:00:00.05"), Some(50));
    assert_eq!(parse_timestamp("00:00:00.123456"), Some(123));
}

#[test]
fn malformed_timestamps_are_rejected() {
    for bad in [
        "",
        "abc",
        "00:xx:01,000",
        "00:00:01,abc",
        "1:2:3:4:5",
        "00::01,000",
        "-00:00:01,000",
    ] {
        assert_eq!(parse_timestamp(bad), None, "{bad:?} should not parse");
    }
}

#[test]
fn timestamps_round_trip() {
    for ms in [0_u32, 1, 999, 1_500, 3_723_004] {
        let text = format_timestamp(ms, ',');
        assert_eq!(parse_timestamp(&text), Some(ms), "{text}");
    }
}

#[test]
fn format_pads_every_field() {
    assert_eq!(format_timestamp(0, ','), "00:00:00,000");
    assert_eq!(format_timestamp(61_007, '.'), "00:01:01.007");
}

#[test]
fn markup_is_stripped_and_entities_decoded() {
    assert_eq!(strip_markup("<i>hello</i>"), "hello");
    assert_eq!(strip_markup("<c.yellow>hi</c> there"), "hi there");
    assert_eq!(strip_markup("{\\an8}top"), "top");
    assert_eq!(strip_markup("<00:00:01.000>word"), "word");
    assert_eq!(strip_markup("a &amp; b &lt;c&gt;"), "a & b <c>");
}

#[test]
fn an_unclosed_tag_is_kept_verbatim() {
    assert_eq!(strip_markup("2 < 3"), "2 < 3");
    assert_eq!(strip_markup("<i>a</i> 2 < 3"), "a 2 < 3");
}

#[test]
fn an_unknown_entity_survives() {
    assert_eq!(strip_markup("Q&A &unknown;"), "Q&A &unknown;");
}

#[test]
fn timing_lines_split_on_the_arrow() {
    assert_eq!(
        split_timing("00:00:01,000 --> 00:00:02,000"),
        Some(("00:00:01,000".to_owned(), "00:00:02,000".to_owned()))
    );
    assert_eq!(split_timing("00:00:01,000"), None);
}

#[test]
fn numbered_lines_drop_the_byte_order_mark() {
    let lines = numbered_lines("\u{feff}1\r\ntext");
    assert_eq!(lines, [(1, "1".to_owned()), (2, "text".to_owned())]);
}

#[test]
fn hours_past_a_day_format_and_parse_back() {
    // 100 hours, 1 minute, 1.001 seconds.
    let ms = 360_061_001;
    assert_eq!(format_timestamp(ms, ','), "100:01:01,001");
    assert_eq!(parse_timestamp("100:01:01,001"), Some(ms));
}

#[test]
fn a_timestamp_past_u32_milliseconds_is_rejected() {
    assert_eq!(parse_timestamp("5000:00:00,000"), None);
}
