use cutlass_captions::error::CaptionError;
use cutlass_captions::vtt::parse_vtt;
use cutlass_captions::caption::group::CaptionFileFormat;
use cutlass_captions::caption::layout::CaptionLayout;
use cutlass_captions::srt::{parse_srt, write_srt};
use cutlass_captions::subtitle::{
    detect_format, parse_subtitles, place_subtitles, subtitles_from_clips, ImportOptions,
    SubtitleCue,
};
use cutlass_captions::time::{Rational, TimeRange};
use cutlass_captions::timing::Placement;

fn options() -> ImportOptions {
    ImportOptions::new(Placement::at_rate(Rational::fps_30()))
}

#[test]
fn cues_land_on_frames_at_the_file_times() {
    let specs = place_subtitles(
        &[
            SubtitleCue::new(1_000, 2_000, "first"),
            SubtitleCue::new(3_000, 4_000, "second"),
        ],
        &options(),
    )
    .unwrap();
    assert_eq!(specs[0].timeline.start.value, 30);
    assert_eq!(specs[0].timeline.duration.value, 30);
    assert_eq!(specs[1].timeline.start.value, 90);
    assert_eq!(specs[0].text, "first");
}

#[test]
fn the_file_keeps_its_own_line_breaks_by_default() {
    let specs = place_subtitles(
        &[SubtitleCue::new(0, 2_000, "a deliberately\nbroken line")],
        &options(),
    )
    .unwrap();
    assert_eq!(specs[0].text, "a deliberately\nbroken line");
}

#[test]
fn rewrapping_reflows_to_the_layout() {
    let mut opts = options().with_layout(CaptionLayout {
        max_chars_per_line: 10,
        ..CaptionLayout::default()
    });
    opts.rewrap = true;
    let specs =
        place_subtitles(&[SubtitleCue::new(0, 2_000, "the quick brown fox")], &opts).unwrap();
    assert_eq!(specs[0].text, "the quick\nbrown fox");
}

#[test]
fn overlapping_cues_are_pushed_apart() {
    let specs = place_subtitles(
        &[
            SubtitleCue::new(0, 5_000, "long one"),
            SubtitleCue::new(1_000, 2_000, "interrupting"),
        ],
        &options(),
    )
    .unwrap();
    assert!(
        specs[0].timeline.end_tick() <= specs[1].timeline.start.value,
        "{specs:?}"
    );
}

#[test]
fn a_too_short_cue_is_held_for_the_minimum() {
    let specs = place_subtitles(&[SubtitleCue::new(0, 50, "blink")], &options()).unwrap();
    assert_eq!(specs[0].timeline.duration.value, 18, "600 ms at 30 fps");
}

#[test]
fn a_long_cue_keeps_its_own_duration() {
    // Unlike segmentation, an imported file's durations are authoritative: a
    // 20-second cue was timed that way on purpose.
    let specs = place_subtitles(&[SubtitleCue::new(0, 20_000, "held")], &options()).unwrap();
    assert_eq!(specs[0].timeline.duration.value, 600);
}

#[test]
fn word_timings_are_estimated_only_when_asked() {
    let mut opts = options();
    let plain = place_subtitles(&[SubtitleCue::new(0, 2_000, "one two")], &opts).unwrap();
    assert!(plain[0].words.is_empty());

    opts.estimate_words = true;
    let karaoke = place_subtitles(&[SubtitleCue::new(0, 2_000, "one two")], &opts).unwrap();
    assert_eq!(karaoke[0].words.len(), 2);
    assert_eq!(karaoke[0].words[0].text(&karaoke[0].text), "one");
    assert_eq!(karaoke[0].words[0].start_ms, 0, "clip-relative");
}

#[test]
fn estimated_timings_are_clip_relative_after_the_offset() {
    let mut opts = ImportOptions::new(Placement::new(Rational::fps_30(), 300));
    opts.estimate_words = true;
    let specs = place_subtitles(&[SubtitleCue::new(5_000, 6_000, "one two")], &opts).unwrap();
    assert_eq!(specs[0].timeline.start.value, 450, "300 + 5 s at 30 fps");
    assert_eq!(specs[0].words[0].start_ms, 0);
    assert!(specs[0].words[1].end_ms <= 1_000, "{:?}", specs[0].words);
}

#[test]
fn blank_cues_are_dropped() {
    let specs = place_subtitles(
        &[
            SubtitleCue::new(0, 1_000, ""),
            SubtitleCue::new(2_000, 3_000, "real"),
        ],
        &options(),
    )
    .unwrap();
    assert_eq!(specs.len(), 1);
    assert_eq!(specs[0].text, "real");
}

#[test]
fn nothing_in_nothing_out() {
    assert!(place_subtitles(&[], &options()).unwrap().is_empty());
}

#[test]
fn tests_an_invalid_layout_is_rejected() {
    let opts = options().with_layout(CaptionLayout {
        min_duration_ms: 0,
        ..CaptionLayout::default()
    });
    assert!(place_subtitles(&[SubtitleCue::new(0, 1_000, "hi")], &opts).is_err());
}

#[test]
fn a_whitespace_only_cue_is_refused_as_blank_text() {
    // Only empty cues are dropped; one holding nothing but spaces reaches
    // validation, which refuses a cue that would render nothing.
    assert!(place_subtitles(&[SubtitleCue::new(0, 1_000, "   ")], &options()).is_err());
}

#[test]
fn the_format_is_sniffed_from_the_header() {
    let (format, cues) = parse_subtitles("WEBVTT\n\n00:00:01.000 --> 00:00:02.000\nhi\n").unwrap();
    assert_eq!(format, CaptionFileFormat::Vtt);
    assert_eq!(cues.len(), 1);

    let (format, cues) = parse_subtitles("1\n00:00:01,000 --> 00:00:02,000\nhi\n").unwrap();
    assert_eq!(format, CaptionFileFormat::Srt);
    assert_eq!(cues.len(), 1);
}

#[test]
fn a_header_after_blank_lines_still_means_webvtt() {
    assert_eq!(detect_format("\n  \n  WEBVTT\n"), CaptionFileFormat::Vtt);
    assert_eq!(detect_format(""), CaptionFileFormat::Srt);
}

#[test]
fn clips_convert_back_into_subtitle_cues_in_order() {
    let rate = Rational::fps_30();
    let placement = Placement::new(rate, 30);
    let cues = subtitles_from_clips(
        vec![
            (TimeRange::at_rate(120, 30, rate), "second".to_owned()),
            (TimeRange::at_rate(30, 60, rate), "first".to_owned()),
        ],
        placement,
    );
    assert_eq!(
        cues,
        [
            SubtitleCue::new(0, 2_000, "first"),
            SubtitleCue::new(3_000, 4_000, "second"),
        ]
    );
}

#[test]
fn clips_with_equal_times_keep_their_order() {
    let rate = Rational::fps_30();
    let placement = Placement::at_rate(rate);
    let cues = subtitles_from_clips(
        vec![
            (TimeRange::at_rate(30, 30, rate), "b".to_owned()),
            (TimeRange::at_rate(0, 30, rate), "a".to_owned()),
            (TimeRange::at_rate(30, 30, rate), "c".to_owned()),
        ],
        placement,
    );
    let texts: Vec<&str> = cues.iter().map(|cue| cue.text.as_str()).collect();
    assert_eq!(texts, ["a", "b", "c"]);
}

#[test]
fn a_placed_group_survives_an_srt_round_trip() {
    let rate = Rational::fps_30();
    let placement = Placement::at_rate(rate);
    let original = [
        SubtitleCue::new(1_000, 2_000, "first"),
        SubtitleCue::new(3_000, 4_000, "second line"),
    ];
    let specs = place_subtitles(&original, &options()).unwrap();
    let exported = subtitles_from_clips(
        specs
            .iter()
            .map(|spec| (spec.timeline, spec.text.clone()))
            .collect::<Vec<_>>(),
        placement,
    );
    assert_eq!(exported, original);
    assert_eq!(parse_srt(&write_srt(&exported)).unwrap(), original);
}

#[test]
fn a_written_file_is_recognized_and_read_back() {
    let cues = vec![SubtitleCue::new(500, 1_750, "Hello"), SubtitleCue::new(2_000, 3_000, "two\nlines")];
    let srt = write_srt(&cues);
    let vtt = cutlass_captions::vtt::write_vtt(&cues);
    assert_eq!(parse_subtitles(&srt).unwrap(), (CaptionFileFormat::Srt, cues.clone()));
    assert_eq!(parse_subtitles(&vtt).unwrap(), (CaptionFileFormat::Vtt, cues));
}

#[test]
fn a_file_that_does_not_read_reports_its_parsers_error() {
    let srt = "1\n00:00:02,000 --> 00:00:01,000\nbackwards\n";
    let expected = parse_srt(srt).unwrap_err();
    assert_eq!(parse_subtitles(srt).unwrap_err(), expected);
    assert_eq!(expected, CaptionError::Parse { line: 2, message: "cue ends before it starts".to_owned() });

    let vtt = "WEBVTT\n\nnot a cue\n";
    let expected = parse_vtt(vtt).unwrap_err();
    assert_eq!(parse_subtitles(vtt).unwrap_err(), expected);
    assert_eq!(
        expected,
        CaptionError::Parse { line: 3, message: "expected a '-->' timing line after 'not a cue'".to_owned() }
    );

    assert_eq!(
        parse_vtt("  \n").unwrap_err(),
        CaptionError::Parse { line: 1, message: "the file is empty".to_owned() }
    );
    assert_eq!(
        parse_subtitles("1\n00:00:01,000 00:00:02,000\nhi\n").unwrap_err(),
        CaptionError::Parse { line: 1, message: "expected a '-->' timing line after '1'".to_owned() }
    );
}

#[test]
fn a_blank_block_is_dropped_and_every_read_cue_runs_forwards() {
    let srt = "1\n00:00:01,000 --> 00:00:02,000\n \n\n2\n00:00:03,000 --> 00:00:04,000\nhi\n";
    let (_, cues) = parse_subtitles(srt).unwrap();
    assert_eq!(cues.len(), 1);
    assert_eq!(cues[0].text, "hi");
    assert!(cues.iter().all(|cue| cue.start_ms <= cue.end_ms && !cue.text.trim().is_empty()));
}
