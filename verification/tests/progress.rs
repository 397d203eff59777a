use cutlass_captions::progress::{byte_detail, per_mille_of, per_mille_of_percent, Stage};

#[test]
fn downloads_report_thousandths_of_the_known_total() {
    assert_eq!(per_mille_of(0, 0), None);
    assert_eq!(per_mille_of(50, 200), Some(250));
    assert_eq!(per_mille_of(300, 200), Some(1000), "done is capped at the total");
    assert_eq!(per_mille_of(1, 3), Some(333));
}

#[test]
fn percent_steps_cap_at_one_hundred() {
    assert_eq!(per_mille_of_percent(0), 0);
    assert_eq!(per_mille_of_percent(42), 420);
    assert_eq!(per_mille_of_percent(250), 1000);
}

#[test]
fn download_detail_shows_whole_megabytes() {
    assert_eq!(byte_detail(5, 0), None);
    assert_eq!(byte_detail(12_345_678, 148_000_000).as_deref(), Some("12 MB of 148 MB"));
    assert_eq!(byte_detail(200_000_000, 148_000_000).as_deref(), Some("148 MB of 148 MB"));
}

#[test]
fn stages_say_what_they_do_and_whether_they_can_measure_it() {
    assert_eq!(Stage::Transcribing.label(), "Transcribing speech…");
    assert_eq!(Stage::Cancelling.label(), "Cancelling…");
    assert!(!Stage::Model.is_indeterminate());
    assert!(!Stage::Transcribing.is_indeterminate());
    assert!(Stage::Decoding.is_indeterminate());
    assert!(Stage::Preparing.is_indeterminate());
}
