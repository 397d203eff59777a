use cutlass_captions::caption::highlight::CaptionHighlightMode;
use cutlass_captions::caption::template::{caption_template_catalog, caption_template_spec};

#[test]
fn catalog_ids_are_unique_and_findable() {
    let catalog = caption_template_catalog();
    assert!(!catalog.is_empty());
    for spec in &catalog {
        assert_eq!(
            caption_template_spec(&spec.id).map(|s| s.id),
            Some(spec.id.clone())
        );
        assert_eq!(
            catalog.iter().filter(|s| s.id == spec.id).count(),
            1,
            "duplicate template id {}",
            spec.id
        );
    }
    assert!(caption_template_spec("nope").is_none());
}

#[test]
fn every_template_builds_a_valid_layout() {
    for spec in caption_template_catalog() {
        assert!(
            spec.layout().validate().is_ok(),
            "template {} built an invalid layout",
            spec.id
        );
    }
}

#[test]
fn karaoke_template_highlights_words() {
    let spec = caption_template_spec("karaoke_pop").unwrap();
    assert_eq!(spec.highlight, Some(CaptionHighlightMode::Word));
    assert_eq!(spec.max_lines, 1, "karaoke reads one line at a time");
}

#[test]
fn template_layouts_keep_the_default_timing_rules() {
    let spec = caption_template_spec("bold_box").unwrap();
    let layout = spec.layout();
    assert_eq!(layout.max_chars_per_line, 28);
    assert_eq!(layout.max_lines, 2);
    assert_eq!(layout.min_duration_ms, 600);
    assert_eq!(layout.max_duration_ms, 5_000);
    assert_eq!(layout.min_gap_ms, 40);
    assert_eq!(caption_template_catalog().len(), 6);
}

#[test]
fn every_template_carries_its_picker_label() {
    let labels: Vec<String> = caption_template_catalog().iter().map(|t| t.label.clone()).collect();
    assert_eq!(labels, vec!["Clean", "Bold box", "Karaoke pop", "Glow", "Outline", "Multiline"]);
    assert_eq!(caption_template_spec("bold_box").unwrap().label, "Bold box");
}
