use cutlass_captions::caption::cue::CaptionWord;
use cutlass_captions::caption::layout::CaptionLayout;
use cutlass_captions::reflow::{estimate_word_timings, overflow_cuts, rewrap, wrap};

#[test]
fn wrap_breaks_at_the_last_word_that_fits() {
    assert_eq!(wrap("the quick brown fox", 10), "the quick\nbrown fox");
}

#[test]
fn wrap_collapses_existing_whitespace_and_breaks() {
    assert_eq!(wrap("  the\nquick   brown ", 20), "the quick brown");
}

#[test]
fn wrap_gives_an_overlong_word_its_own_line() {
    assert_eq!(
        wrap("a supercalifragilistic b", 8),
        "a\nsupercalifragilistic\nb"
    );
}

#[test]
fn wrap_counts_characters_not_bytes() {
    // Five characters, ten bytes: it fits a five-char line.
    assert_eq!(wrap("привет", 6), "привет");
}

#[test]
fn wrap_of_a_zero_budget_puts_every_word_on_its_own_line() {
    assert_eq!(wrap("a b c", 0), "a\nb\nc");
}

#[test]
fn wrap_of_blank_text_is_empty() {
    assert_eq!(wrap(" \n\t ", 10), "");
}

#[test]
fn rewrap_carries_word_timings_onto_the_new_line_breaks() {
    let text = "the quick brown fox";
    let words = vec![
        CaptionWord::new(0, 100, 0..3),
        CaptionWord::new(100, 200, 4..9),
        CaptionWord::new(200, 300, 10..15),
        CaptionWord::new(300, 400, 16..19),
    ];
    let (wrapped, remapped) = rewrap(text, &words, 10);
    assert_eq!(wrapped, "the quick\nbrown fox");
    for (word, expected) in remapped.iter().zip(["the", "quick", "brown", "fox"]) {
        assert_eq!(word.text(&wrapped), expected);
    }
    assert_eq!(remapped[3].start_ms, 300, "times ride along untouched");
}

#[test]
fn rewrap_is_a_no_op_when_the_wrapping_already_matches() {
    let words = vec![CaptionWord::new(0, 100, 0..3)];
    let (wrapped, remapped) = rewrap("the", &words, 10);
    assert_eq!(wrapped, "the");
    assert_eq!(remapped, words);
}

#[test]
fn rewrap_remaps_a_word_spanning_several_tokens() {
    // A word range covering "quick brown" keeps covering both after the
    // break moves between them.
    let words = vec![CaptionWord::new(0, 400, 4..15)];
    let (wrapped, remapped) = rewrap("the quick brown fox", &words, 10);
    assert_eq!(wrapped, "the quick\nbrown fox");
    assert_eq!(remapped[0].text(&wrapped), "quick\nbrown");
}

#[test]
fn rewrap_moves_ranges_out_of_collapsed_whitespace() {
    // Two spaces collapse to one: "b" moves a byte left.
    let words = vec![CaptionWord::new(0, 100, 0..1), CaptionWord::new(100, 200, 3..4)];
    let (wrapped, remapped) = rewrap("a  b", &words, 32);
    assert_eq!(wrapped, "a b");
    assert_eq!(remapped[1].range, 2..3);
    assert_eq!(remapped[1].text(&wrapped), "b");
}

/// Four words, one second each, wrapping to one word per line at 6 chars.
fn four_lines() -> (&'static str, Vec<CaptionWord>) {
    (
        "alpha bravo charlie delta",
        vec![
            CaptionWord::new(0, 1_000, 0..5),
            CaptionWord::new(1_000, 2_000, 6..11),
            CaptionWord::new(2_000, 3_000, 12..19),
            CaptionWord::new(3_000, 4_000, 20..25),
        ],
    )
}

fn layout(max_chars_per_line: u16, max_lines: u8) -> CaptionLayout {
    CaptionLayout {
        max_chars_per_line,
        max_lines,
        ..CaptionLayout::default()
    }
}

#[test]
fn a_one_line_budget_cuts_at_every_line() {
    let (text, words) = four_lines();
    let cuts = overflow_cuts(text, &words, 4_000, &layout(7, 1));
    assert_eq!(cuts, vec![1_000, 2_000, 3_000]);
}

#[test]
fn a_two_line_budget_cuts_at_every_other_line() {
    let (text, words) = four_lines();
    let cuts = overflow_cuts(text, &words, 4_000, &layout(7, 2));
    assert_eq!(cuts, vec![2_000], "one cut, into two two-line cues");
}

#[test]
fn a_cue_that_already_fits_is_not_cut() {
    let (text, words) = four_lines();
    assert!(overflow_cuts(text, &words, 4_000, &layout(7, 4)).is_empty());
    assert!(
        overflow_cuts(text, &words, 4_000, &layout(64, 1)).is_empty(),
        "one line at 64 chars holds the whole cue"
    );
}

#[test]
fn a_cue_without_timings_is_cut_on_the_length_estimate() {
    let (text, _) = four_lines();
    let cuts = overflow_cuts(text, &[], 4_000, &layout(7, 1));
    assert_eq!(cuts.len(), 3, "still three cuts, on estimated word times");
    assert!(cuts[0] > 0 && cuts.windows(2).all(|w| w[1] > w[0]));
}

#[test]
fn cuts_are_measured_after_the_new_wrapping() {
    // Stale line breaks from the old rule must not decide the cuts: this
    // text arrives as two lines and has to come back as four.
    let (_, words) = four_lines();
    let cuts = overflow_cuts("alpha bravo\ncharlie delta", &words, 4_000, &layout(7, 1));
    assert_eq!(cuts, vec![1_000, 2_000, 3_000]);
}

#[test]
fn estimate_weights_longer_words_with_more_time() {
    let words = estimate_word_timings("hi extraordinarily", 0, 1_000);
    assert_eq!(words.len(), 2);
    let short = words[0].end_ms - words[0].start_ms;
    let long = words[1].end_ms - words[1].start_ms;
    assert!(long > short * 4, "{long} ms vs {short} ms");
    assert_eq!(words[0].start_ms, 0);
    assert_eq!(words[1].end_ms, 1_000, "the estimate fills the whole span");
}

#[test]
fn estimate_ranges_land_on_the_words() {
    let text = "alpha beta\ngamma";
    let words = estimate_word_timings(text, 100, 400);
    for (word, expected) in words.iter().zip(["alpha", "beta", "gamma"]) {
        assert_eq!(word.text(text), expected);
    }
    assert_eq!(words[0].start_ms, 100);
}

#[test]
fn estimate_declines_an_empty_span_or_empty_text() {
    assert!(estimate_word_timings("hello", 500, 500).is_empty());
    assert!(estimate_word_timings("   ", 0, 1_000).is_empty());
}

#[test]
fn estimated_timings_are_ascending_and_non_overlapping() {
    let text = "one two three four five six seven";
    let words = estimate_word_timings(text, 0, 37);
    let mut previous = 0;
    for word in &words {
        assert!(word.start_ms >= previous, "{word:?} went backwards");
        assert!(word.end_ms >= word.start_ms);
        previous = word.end_ms;
    }
}

#[test]
fn estimate_splits_exactly_by_characters() {
    // 2 + 8 characters over 1000 ms: 200 ms, then 800 ms.
    let words = estimate_word_timings("ab cdefghij", 1_000, 2_000);
    assert_eq!((words[0].start_ms, words[0].end_ms), (1_000, 1_200));
    assert_eq!((words[1].start_ms, words[1].end_ms), (1_200, 2_000));
    assert_eq!(words[1].range, 3..11);
}

#[test]
fn estimate_of_a_backwards_span_is_empty() {
    assert!(estimate_word_timings("hello", 900, 100).is_empty());
}

#[test]
fn wrapping_keeps_the_words_and_wrapping_twice_changes_nothing() {
    let texts = ["the quick  brown fox\njumps over\tthe lazy dog", "  ", "extraordinarily long words wrap", "a b c d e f"];
    for text in texts {
        for budget in [0u16, 1, 5, 12, 42] {
            let once = wrap(text, budget);
            let once_words: Vec<&str> = once.split_whitespace().collect();
            let text_words: Vec<&str> = text.split_whitespace().collect();
            assert_eq!(once_words, text_words, "{text:?} at {budget}");
            assert_eq!(wrap(&once, budget), once, "{text:?} at {budget}");
        }
    }
}

#[test]
fn rewrapping_keeps_every_timing() {
    let text = "alpha bravo charlie delta";
    let words = vec![
        CaptionWord::new(0, 1_000, 0..5),
        CaptionWord::new(1_000, 2_000, 6..11),
        CaptionWord::new(2_000, 3_000, 12..19),
        CaptionWord::new(3_000, 4_000, 20..25),
    ];
    for budget in [1u16, 6, 12, 40] {
        let (_, moved) = rewrap(text, &words, budget);
        assert_eq!(moved.len(), words.len());
        for (after, before) in moved.iter().zip(words.iter()) {
            assert_eq!((after.start_ms, after.end_ms), (before.start_ms, before.end_ms));
        }
    }
}
