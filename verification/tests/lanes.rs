use cutlass_captions::caption::cue::CaptionWord;
use cutlass_captions::caption::spec::CaptionCueSpec;
use cutlass_captions::caption::template::caption_template_spec;
use cutlass_captions::ids::{CaptionGroupId, ClipId, TrackId};
use cutlass_captions::lanes::{free_text_lane, manual_cue_duration, next_cue, rewrapped_cues, template_layout};
use cutlass_captions::project::{CaptionGroupSpec, Project};
use cutlass_captions::time::{Rational, TimeRange};
use cutlass_captions::timeline::TrackKind;

fn r24() -> Rational {
    Rational::fps_24()
}

fn project() -> Project {
    Project::new("captions", r24())
}

/// A text lane holding one caption cue over `[start, start + duration)`.
fn lane_with_cue(project: &mut Project, start: i64, duration: i64) -> TrackId {
    let track = project.add_track(TrackKind::Text, "Captions").expect("text lane");
    project
        .add_caption_group(
            &CaptionGroupSpec::manual(track, "Captions"),
            &[CaptionCueSpec::new("hello", TimeRange::at_rate(start, duration, r24()))],
        )
        .expect("caption group");
    track
}

fn cues(spans: &[(i64, i64)]) -> Vec<CaptionCueSpec> {
    spans
        .iter()
        .map(|&(start, duration)| CaptionCueSpec::new("line", TimeRange::at_rate(start, duration, r24())))
        .collect()
}

#[test]
fn a_busy_text_lane_is_not_offered_to_an_overlapping_batch() {
    let mut project = project();
    lane_with_cue(&mut project, 0, 60);

    let batch = cues(&[(30, 30), (90, 30)]);
    assert_eq!(free_text_lane(project.timeline(), &batch), None);
}

#[test]
fn a_batch_that_clears_the_existing_cues_reuses_the_lane() {
    let mut project = project();
    let lane = lane_with_cue(&mut project, 0, 60);

    let batch = cues(&[(60, 30), (120, 30)]);
    assert_eq!(free_text_lane(project.timeline(), &batch), Some(lane));
}

#[test]
fn a_second_batch_falls_through_to_the_free_lane() {
    let mut project = project();
    let busy = lane_with_cue(&mut project, 0, 60);
    let free = project.add_track(TrackKind::Text, "Captions 2").expect("second text lane");

    let batch = cues(&[(0, 60)]);
    let picked = free_text_lane(project.timeline(), &batch);
    assert_eq!(picked, Some(free));
    assert_ne!(picked, Some(busy));
}

#[test]
fn only_text_lanes_are_offered_to_a_batch() {
    let mut project = project();
    project.add_track(TrackKind::Video, "V1").unwrap();
    let batch = cues(&[(0, 24)]);
    assert_eq!(free_text_lane(project.timeline(), &batch), None);

    let text = project.add_track(TrackKind::Text, "T1").unwrap();
    assert_eq!(free_text_lane(project.timeline(), &batch), Some(text));
}

/// Three cues 0–1 s, 1–2 s, 2–3 s in one group on a fresh lane.
fn three_cues(project: &mut Project) -> (CaptionGroupId, Vec<ClipId>) {
    let track = project.add_track(TrackKind::Text, "Captions").unwrap();
    project
        .add_caption_group(
            &CaptionGroupSpec::manual(track, "Captions"),
            &[
                CaptionCueSpec::new("one", TimeRange::at_rate(0, 24, r24())),
                CaptionCueSpec::new("two", TimeRange::at_rate(24, 24, r24())),
                CaptionCueSpec::new("three", TimeRange::at_rate(48, 24, r24())),
            ],
        )
        .unwrap()
}

#[test]
fn the_next_cue_is_the_following_line_of_the_same_group() {
    let mut project = project();
    let (_, clips) = three_cues(&mut project);
    let (_, others) = three_cues(&mut project);

    assert_eq!(next_cue(project.timeline(), clips[0]), Some(clips[1]));
    assert_eq!(next_cue(project.timeline(), clips[1]), Some(clips[2]));
    assert_eq!(next_cue(project.timeline(), clips[2]), None);
    assert_eq!(next_cue(project.timeline(), others[0]), Some(others[1]));
}

#[test]
fn a_plain_or_missing_clip_has_no_next_cue() {
    let mut project = project();
    let (_, clips) = three_cues(&mut project);
    let (group, _) = three_cues(&mut project);
    let ungrouped = project.timeline().caption_cue_ids(group);
    project.ungroup_caption_cues(&ungrouped).unwrap();

    assert_eq!(next_cue(project.timeline(), ungrouped[0]), None);
    assert_eq!(next_cue(project.timeline(), ClipId(9_999)), None);
    assert_eq!(next_cue(project.timeline(), clips[0]), Some(clips[1]));
}

#[test]
fn a_hand_added_line_holds_three_seconds() {
    assert_eq!(manual_cue_duration(Rational::fps_24()), 72);
    assert_eq!(manual_cue_duration(Rational::fps_30()), 90);
    assert_eq!(manual_cue_duration(Rational::fps_23_976()), 71);
    assert_eq!(manual_cue_duration(Rational::new(30, 0)), 90);
    assert_eq!(manual_cue_duration(Rational::new(0, 1)), 1);
    assert_eq!(manual_cue_duration(Rational::new(-24, 1)), 1);
    assert_eq!(manual_cue_duration(Rational::new(1, 100)), 1);
}

#[test]
fn a_known_template_lends_its_rules_and_an_unknown_one_the_defaults() {
    let karaoke = caption_template_spec("karaoke_pop").expect("catalog entry");
    assert_eq!(template_layout("karaoke_pop"), karaoke.layout());
    let defaults = cutlass_captions::caption::layout::CaptionLayout::default_layout();
    assert_eq!(template_layout("no_such_template"), defaults);
    assert_eq!(template_layout(""), defaults);
}

#[test]
fn rewrapping_lists_only_the_cues_whose_breaks_move() {
    let mut project = project();
    let track = project.add_track(TrackKind::Text, "Captions").unwrap();
    let (group, clips) = project
        .add_caption_group(
            &CaptionGroupSpec::manual(track, "Captions"),
            &[
                CaptionCueSpec::new("alpha bravo charlie delta", TimeRange::at_rate(0, 96, r24()))
                    .with_words(vec![
                        CaptionWord::new(0, 1_000, 0..5),
                        CaptionWord::new(1_000, 2_000, 6..11),
                        CaptionWord::new(2_000, 3_000, 12..19),
                        CaptionWord::new(3_000, 4_000, 20..25),
                    ]),
                CaptionCueSpec::new("short", TimeRange::at_rate(96, 24, r24())),
            ],
        )
        .unwrap();

    let edits = rewrapped_cues(project.timeline(), group, 12);
    assert_eq!(edits, vec![(clips[0], "alpha bravo\ncharlie\ndelta".to_string())]);

    assert!(rewrapped_cues(project.timeline(), group, 64).is_empty());
}
