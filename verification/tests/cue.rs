use cutlass_captions::caption::cue::{CaptionCue, CaptionWord, MAX_CAPTION_WORDS};
use cutlass_captions::caption::spec::CaptionCueSpec;
use cutlass_captions::error::ModelError;
use cutlass_captions::ids::CaptionGroupId;
use cutlass_captions::time::{Rational, TimeRange};

fn group() -> CaptionGroupId {
    CaptionGroupId::from_raw(7)
}

fn cue(words: Vec<CaptionWord>) -> CaptionCue {
    CaptionCue {
        words,
        ..CaptionCue::new(group(), 0)
    }
}

#[test]
fn word_text_slices_the_cue_content() {
    let word = CaptionWord::new(0, 100, 6..11);
    assert_eq!(word.text("hello world"), "world");
}

#[test]
fn word_text_is_empty_for_a_split_character() {
    // 'é' is two bytes: a range ending inside it is not a boundary.
    let word = CaptionWord::new(0, 100, 0..1);
    assert_eq!(word.text("é"), "");
}

#[test]
fn word_text_is_empty_for_a_backwards_or_outside_range() {
    assert_eq!(CaptionWord::new(0, 100, 3..1).text("hello"), "");
    assert_eq!(CaptionWord::new(0, 100, 2..9).text("hello"), "");
    assert_eq!(CaptionWord::new(0, 100, 2..4).byte_range(), 2..4);
}

#[test]
fn validate_accepts_ascending_non_overlapping_words() {
    let cue = cue(vec![
        CaptionWord::new(0, 200, 0..5),
        CaptionWord::new(200, 400, 6..11),
    ]);
    assert!(cue.validate("hello world").is_ok());
}

#[test]
fn validate_rejects_overlapping_ranges() {
    let cue = cue(vec![
        CaptionWord::new(0, 200, 0..7),
        CaptionWord::new(200, 400, 6..11),
    ]);
    assert!(cue.validate("hello world").is_err());
}

#[test]
fn validate_rejects_ranges_past_the_text() {
    let cue = cue(vec![CaptionWord::new(0, 200, 0..99)]);
    assert!(cue.validate("hello").is_err());
}

#[test]
fn validate_rejects_ranges_off_a_character_boundary() {
    let cue = cue(vec![CaptionWord::new(0, 200, 0..1)]);
    assert!(matches!(cue.validate("é"), Err(ModelError::InvalidParam(_))));
}

#[test]
fn validate_rejects_backwards_times() {
    let cue = cue(vec![
        CaptionWord::new(0, 400, 0..5),
        CaptionWord::new(200, 300, 6..11),
    ]);
    assert!(cue.validate("hello world").is_err());
}

#[test]
fn validate_rejects_too_many_words() {
    let words = (0..=MAX_CAPTION_WORDS)
        .map(|i| CaptionWord::new(i as u32, i as u32, 0..0))
        .collect();
    assert!(cue(words).validate("").is_err());
}

#[test]
fn active_word_holds_the_last_started_word() {
    let cue = cue(vec![
        CaptionWord::new(0, 100, 0..5),
        CaptionWord::new(300, 400, 6..11),
    ]);
    assert_eq!(cue.active_word_at(0), Some(0));
    assert_eq!(cue.active_word_at(150), Some(0), "gap holds the prior word");
    assert_eq!(cue.active_word_at(300), Some(1));
    assert_eq!(cue.active_word_at(9_999), Some(1), "past the end holds");
}

#[test]
fn active_word_is_none_before_the_first_word_and_without_timings() {
    let cue = cue(vec![CaptionWord::new(50, 100, 0..5)]);
    assert_eq!(cue.active_word_at(10), None);
    assert_eq!(CaptionCue::new(group(), 0).active_word_at(0), None);
    assert!(!CaptionCue::new(group(), 0).has_word_timings());
}

fn range(start: i64, duration: i64) -> TimeRange {
    TimeRange::at_rate(start, duration, Rational::new(30, 1))
}

#[test]
fn cue_spec_validates_text_and_placement() {
    assert!(
        CaptionCueSpec::new("Hello", range(0, 30))
            .validate()
            .is_ok()
    );
    assert!(CaptionCueSpec::new("   ", range(0, 30)).validate().is_err());
    assert_eq!(
        CaptionCueSpec::new("Hi", range(0, 0)).validate(),
        Err(ModelError::InvalidRange)
    );
    assert!(CaptionCueSpec::new("Hi", range(-5, 30)).validate().is_err());
}

#[test]
fn cue_spec_validates_word_ranges_against_its_own_text() {
    let spec =
        CaptionCueSpec::new("hi", range(0, 30)).with_words(vec![CaptionWord::new(0, 10, 0..9)]);
    assert!(spec.validate().is_err(), "range past the text is rejected");
}

#[test]
fn a_spec_binds_its_cue_to_the_group() {
    let spec =
        CaptionCueSpec::new("hi", range(0, 30)).with_words(vec![CaptionWord::new(0, 10, 0..2)]);
    let cue = spec.cue(group(), 4);
    assert_eq!(cue.group, group());
    assert_eq!(cue.index, 4);
    assert_eq!(cue.words, spec.words);
    assert!(!cue.text_edited && !cue.style_override);
}
