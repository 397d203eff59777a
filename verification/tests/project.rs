use cutlass_captions::caption::cue::CaptionWord;
use cutlass_captions::caption::highlight::CaptionHighlightMode;
use cutlass_captions::caption::layout::CaptionLayout;
use cutlass_captions::caption::spec::CaptionCueSpec;
use cutlass_captions::error::ModelError;
use cutlass_captions::ids::{CaptionGroupId, ClipId, TrackId};
use cutlass_captions::project::{CaptionGroupSpec, Project};
use cutlass_captions::time::{Rational, RationalTime, TimeRange};
use cutlass_captions::timeline::TrackKind;

fn r30() -> Rational {
    Rational::fps_30()
}

fn rt(value: i64) -> RationalTime {
    RationalTime::new(value, r30())
}

fn tr(start: i64, duration: i64) -> TimeRange {
    TimeRange::at_rate(start, duration, r30())
}

/// A project with one text lane, plus the cue specs for two lines of speech.
fn captioned() -> (Project, TrackId, Vec<CaptionCueSpec>) {
    let mut project = Project::new("captions", r30());
    let track = project.add_track(TrackKind::Text, "Captions").unwrap();
    let cues = vec![
        CaptionCueSpec::new("hello world", tr(0, 30)).with_words(vec![
            CaptionWord::new(0, 500, 0..5),
            CaptionWord::new(500, 1000, 6..11),
        ]),
        CaptionCueSpec::new("second line", tr(30, 30)),
    ];
    (project, track, cues)
}

fn add(project: &mut Project, track: TrackId, cues: &[CaptionCueSpec]) -> (CaptionGroupId, Vec<ClipId>) {
    let spec = CaptionGroupSpec::manual(track, "Captions");
    project.add_caption_group(&spec, cues).unwrap()
}

fn text_of(project: &Project, id: ClipId) -> Option<String> {
    project.clip(id).unwrap().text_content().map(|t| t.to_string())
}

#[test]
fn add_caption_group_places_one_clip_per_cue_with_dense_indices() {
    let (mut project, track, cues) = captioned();
    let (group, clips) = add(&mut project, track, &cues);

    assert_eq!(clips.len(), 2);
    assert_eq!(project.timeline().caption_group_count(), 1);
    assert_eq!(project.timeline().caption_cue_ids(group), clips);
    for (index, &clip_id) in clips.iter().enumerate() {
        let clip = project.clip(clip_id).unwrap();
        let cue = clip.caption.as_ref().expect("cue metadata");
        assert_eq!(cue.group, group);
        assert_eq!(cue.index, index as u32);
        assert_eq!(project.timeline().track_of(clip_id), Some(track));
    }
    assert_eq!(text_of(&project, clips[0]).as_deref(), Some("hello world"));
    assert_eq!(project.clip(clips[0]).unwrap().caption.as_ref().unwrap().words.len(), 2);
}

#[test]
fn add_caption_group_requires_a_text_lane() {
    let mut project = Project::new("captions", r30());
    let video = project.add_track(TrackKind::Video, "V1").unwrap();
    let spec = CaptionGroupSpec::manual(video, "Captions");
    let cues = [CaptionCueSpec::new("hi", tr(0, 30))];
    assert!(matches!(
        project.add_caption_group(&spec, &cues),
        Err(ModelError::IncompatibleTrackKind { .. })
    ));
    assert_eq!(project.timeline().caption_group_count(), 0);
}

#[test]
fn add_caption_group_rejects_an_empty_batch() {
    let (mut project, track, _) = captioned();
    let spec = CaptionGroupSpec::manual(track, "Captions");
    assert!(project.add_caption_group(&spec, &[]).is_err());
    assert_eq!(project.timeline().caption_group_count(), 0);
}

#[test]
fn add_caption_group_rejects_overlapping_cues_atomically() {
    let (mut project, track, _) = captioned();
    let spec = CaptionGroupSpec::manual(track, "Captions");
    let overlapping = [
        CaptionCueSpec::new("one", tr(0, 30)),
        CaptionCueSpec::new("two", tr(15, 30)),
    ];
    assert!(project.add_caption_group(&spec, &overlapping).is_err());
    assert_eq!(project.timeline().caption_group_count(), 0);
    assert_eq!(project.timeline().clip_count(), 0);
}

#[test]
fn add_caption_group_rejects_cues_colliding_with_an_existing_clip() {
    let (mut project, track, cues) = captioned();
    add(&mut project, track, &cues);
    let spec = CaptionGroupSpec::manual(track, "More");
    let clashing = [CaptionCueSpec::new("clash", tr(10, 30))];
    assert!(matches!(
        project.add_caption_group(&spec, &clashing),
        Err(ModelError::Overlap(_))
    ));
    assert_eq!(project.timeline().caption_group_count(), 1);
}

#[test]
fn a_refused_batch_leaves_the_id_allocator_alone() {
    let (mut project, track, cues) = captioned();
    let before = project.timeline().next_id;
    let spec = CaptionGroupSpec::manual(track, "Captions").with_template("no_such_look");
    assert!(matches!(
        project.add_caption_group(&spec, &cues),
        Err(ModelError::InvalidParam(_))
    ));
    assert_eq!(project.timeline().next_id, before);
    let (group, clips) = add(&mut project, track, &cues);
    assert_eq!(group.raw(), before);
    assert_eq!(clips, vec![ClipId::from_raw(before + 1), ClipId::from_raw(before + 2)]);
}

#[test]
fn remove_and_restore_a_group_round_trips_every_id() {
    let (mut project, track, cues) = captioned();
    let (group, clips) = add(&mut project, track, &cues);

    let (removed_group, removed_cues) = project.remove_caption_group(group).unwrap();
    assert_eq!(project.timeline().caption_group_count(), 0);
    assert_eq!(project.timeline().clip_count(), 0);

    let restored = project.restore_caption_group(removed_group, removed_cues).unwrap();
    assert_eq!(restored, group);
    assert_eq!(project.timeline().caption_cue_ids(group), clips);
}

#[test]
fn remove_caption_group_rejects_an_unknown_group() {
    let (mut project, _, _) = captioned();
    let missing = CaptionGroupId::from_raw(u64::MAX - 3);
    assert!(matches!(
        project.remove_caption_group(missing),
        Err(ModelError::UnknownCaptionGroup(_))
    ));
}

#[test]
fn set_group_template_applies_style_layout_and_highlight() {
    let (mut project, track, cues) = captioned();
    let (group, clips) = add(&mut project, track, &cues);

    project.set_caption_group_template(group, "karaoke_pop").unwrap();
    let stored = project.timeline().caption_group(group).unwrap();
    assert_eq!(stored.template.as_deref(), Some("karaoke_pop"));
    assert_eq!(stored.layout.max_lines, 1);
    assert_eq!(stored.highlight, Some(CaptionHighlightMode::Word));
    assert!(!project.clip(clips[0]).unwrap().caption.as_ref().unwrap().style_override);
}

#[test]
fn applying_a_template_clears_override_flags() {
    let (mut project, track, cues) = captioned();
    let (group, clips) = add(&mut project, track, &cues);
    let index = project.timeline.clips.iter().position(|c| c.id == clips[1]).unwrap();
    project.timeline.clips[index].caption.as_mut().unwrap().style_override = true;

    project.set_caption_group_template(group, "clean").unwrap();
    assert!(!project.clip(clips[1]).unwrap().caption.as_ref().unwrap().style_override);
    assert_eq!(project.timeline().caption_group(group).unwrap().highlight, None);
}

#[test]
fn invalid_layout_is_rejected() {
    let (mut project, track, cues) = captioned();
    let (group, _) = add(&mut project, track, &cues);
    let layout = CaptionLayout {
        max_lines: 0,
        ..CaptionLayout::default()
    };
    assert!(project.set_caption_group_layout(group, layout).is_err());
    let good = CaptionLayout {
        max_lines: 3,
        ..CaptionLayout::default()
    };
    project.set_caption_group_layout(group, good).unwrap();
    assert_eq!(project.timeline().caption_group(group).unwrap().layout.max_lines, 3);
}

#[test]
fn set_highlight_stores_and_clears() {
    let (mut project, track, cues) = captioned();
    let (group, _) = add(&mut project, track, &cues);

    project.set_caption_highlight(group, Some(CaptionHighlightMode::Word)).unwrap();
    assert_eq!(
        project.timeline().caption_group(group).unwrap().highlight,
        Some(CaptionHighlightMode::Word)
    );
    project.set_caption_highlight(group, None).unwrap();
    assert_eq!(project.timeline().caption_group(group).unwrap().highlight, None);
}

#[test]
fn set_group_label_rejects_an_absurd_name_without_losing_the_old_one() {
    let (mut project, track, cues) = captioned();
    let (group, _) = add(&mut project, track, &cues);
    assert!(project.set_caption_group_label(group, "x".repeat(300)).is_err());
    assert_eq!(project.timeline().caption_group(group).unwrap().label, "Captions");
    project.set_caption_group_label(group, "English".into()).unwrap();
    assert_eq!(project.timeline().caption_group(group).unwrap().label, "English");
}

#[test]
fn set_cue_text_flags_the_edit_and_remaps_word_timings() {
    let (mut project, track, cues) = captioned();
    let (_, clips) = add(&mut project, track, &cues);

    project
        .set_caption_cue(clips[0], "hello there world".into(), None, None)
        .unwrap();
    let clip = project.clip(clips[0]).unwrap();
    let cue = clip.caption.as_ref().unwrap();
    assert_eq!(clip.text_content(), Some("hello there world"));
    assert!(cue.text_edited);
    assert_eq!(cue.words.len(), 3, "one timing per new word");
    assert!(cue.validate("hello there world").is_ok());
    assert_eq!(cue.words[2].text("hello there world"), "world");
}

#[test]
fn set_cue_text_rejects_blank_text_and_non_cues() {
    let (mut project, track, cues) = captioned();
    let (_, clips) = add(&mut project, track, &cues);
    assert!(project.set_caption_cue(clips[0], "  ".into(), None, None).is_err());

    let plain = project.add_text_clip(track, "title", tr(120, 30)).unwrap();
    assert!(matches!(
        project.set_caption_cue(plain, "hi".into(), None, None),
        Err(ModelError::NotACaptionCue(_))
    ));
}

#[test]
fn set_cue_text_rejects_word_ranges_that_do_not_match_the_new_text() {
    let (mut project, track, cues) = captioned();
    let (_, clips) = add(&mut project, track, &cues);
    let bogus = vec![CaptionWord::new(0, 100, 0..99)];
    assert!(project
        .set_caption_cue(clips[0], "hi".into(), Some(bogus), None)
        .is_err());
    assert_eq!(text_of(&project, clips[0]).as_deref(), Some("hello world"));
}

#[test]
fn set_cue_keeps_an_explicit_word_table_and_speaker() {
    let (mut project, track, cues) = captioned();
    let (_, clips) = add(&mut project, track, &cues);
    let words = vec![CaptionWord::new(0, 400, 0..2), CaptionWord::new(400, 900, 3..8)];
    project
        .set_caption_cue(clips[1], "hi there".into(), Some(words), Some("Host".into()))
        .unwrap();
    let cue = project.clip(clips[1]).unwrap().caption.as_ref().unwrap();
    assert_eq!(cue.words, vec![CaptionWord::new(0, 400, 0..2), CaptionWord::new(400, 900, 3..8)]);
    assert_eq!(cue.speaker.as_deref(), Some("Host"));
    assert_eq!(cue.index, 1);
}

#[test]
fn split_cue_partitions_text_and_word_timings() {
    let (mut project, track, cues) = captioned();
    let (group, clips) = add(&mut project, track, &cues);

    // Cue 0 runs ticks 0..30 at 30fps; "hello" ends at 500 ms = tick 15.
    let right = project.split_caption_cue(clips[0], rt(15)).unwrap();

    let left_clip = project.clip(clips[0]).unwrap();
    let right_clip = project.clip(right).unwrap();
    assert_eq!(left_clip.text_content(), Some("hello"));
    assert_eq!(right_clip.text_content(), Some("world"));

    let left_words = &left_clip.caption.as_ref().unwrap().words;
    let right_words = &right_clip.caption.as_ref().unwrap().words;
    assert_eq!(left_words.len(), 1);
    assert_eq!(right_words.len(), 1);
    assert_eq!(right_words[0].start_ms, 0, "the right half rebases to zero");
    assert_eq!(right_words[0].text("world"), "world");
    assert!(left_clip.caption.as_ref().unwrap().validate("hello").is_ok());
    assert!(right_clip.caption.as_ref().unwrap().validate("world").is_ok());

    // Both halves stay in the group, renumbered in timeline order.
    let indices: Vec<u32> = project
        .timeline()
        .caption_cues(group)
        .iter()
        .map(|clip| clip.caption.as_ref().unwrap().index)
        .collect();
    assert_eq!(indices, vec![0, 1, 2]);
}

#[test]
fn split_cue_without_word_timings_repeats_the_text() {
    let (mut project, track, cues) = captioned();
    let (_, clips) = add(&mut project, track, &cues);
    let right = project.split_caption_cue(clips[1], rt(45)).unwrap();
    assert_eq!(text_of(&project, clips[1]).as_deref(), Some("second line"));
    assert_eq!(text_of(&project, right).as_deref(), Some("second line"));
}

#[test]
fn split_cue_refuses_a_point_outside_the_clip() {
    let (mut project, track, cues) = captioned();
    let (_, clips) = add(&mut project, track, &cues);
    assert!(matches!(
        project.split_caption_cue(clips[0], rt(30)),
        Err(ModelError::InvalidParam(_))
    ));
    assert!(matches!(
        project.split_caption_cue(ClipId::from_raw(999), rt(10)),
        Err(ModelError::UnknownClip(_))
    ));
}

#[test]
fn split_halves_share_the_original_span() {
    let (mut project, track, cues) = captioned();
    let (_, clips) = add(&mut project, track, &cues);
    let right = project.split_caption_cue(clips[0], rt(10)).unwrap();
    let left = project.clip(clips[0]).unwrap().timeline;
    let second = project.clip(right).unwrap().timeline;
    assert_eq!((left.start.value, left.duration.value), (0, 10));
    assert_eq!((second.start.value, second.duration.value), (10, 20));
}

#[test]
fn merge_cues_joins_text_and_offsets_word_timings() {
    let (mut project, track, cues) = captioned();
    let (group, clips) = add(&mut project, track, &cues);

    let merged = project.merge_caption_cues(&clips).unwrap();
    assert_eq!(merged, clips[0]);
    let clip = project.clip(merged).unwrap();
    assert_eq!(clip.text_content(), Some("hello world second line"));
    assert_eq!(clip.timeline.start.value, 0);
    assert_eq!(clip.timeline.end_tick(), 60, "the survivor spans both cues");
    assert_eq!(project.timeline().caption_cue_ids(group), vec![merged]);
    let cue = clip.caption.as_ref().unwrap();
    assert!(cue.validate("hello world second line").is_ok());
    assert_eq!(cue.index, 0);
}

#[test]
fn merge_rejects_a_single_cue_and_cross_group_merges() {
    let (mut project, track, cues) = captioned();
    let (_, clips) = add(&mut project, track, &cues);
    assert!(project.merge_caption_cues(&clips[..1]).is_err());

    let other = [CaptionCueSpec::new("other", tr(90, 30))];
    let spec = CaptionGroupSpec::manual(track, "Other");
    let (_, other_clips) = project.add_caption_group(&spec, &other).unwrap();
    assert!(project.merge_caption_cues(&[clips[0], other_clips[0]]).is_err());
}

#[test]
fn merging_word_timings_stay_ascending_across_the_seam() {
    let (mut project, track, _) = captioned();
    let cues = vec![
        CaptionCueSpec::new("one", tr(0, 30)).with_words(vec![CaptionWord::new(0, 900, 0..3)]),
        CaptionCueSpec::new("two", tr(30, 30)).with_words(vec![CaptionWord::new(0, 900, 0..3)]),
    ];
    let (_, clips) = add(&mut project, track, &cues);
    let merged = project.merge_caption_cues(&clips).unwrap();
    let clip = project.clip(merged).unwrap();
    let words = &clip.caption.as_ref().unwrap().words;
    assert_eq!(words.len(), 2);
    assert!(
        words[1].start_ms >= words[0].end_ms,
        "the second cue's timings are offset by its start"
    );
    assert_eq!(words[1].text("one two"), "two");
    assert_eq!(words[1].start_ms, 1000);
}

#[test]
fn merge_orders_by_timeline_and_ignores_repeats() {
    let (mut project, track, cues) = captioned();
    let (_, clips) = add(&mut project, track, &cues);
    let merged = project.merge_caption_cues(&[clips[1], clips[0], clips[1]]).unwrap();
    assert_eq!(merged, clips[0]);
    assert_eq!(text_of(&project, merged).as_deref(), Some("hello world second line"));
    assert!(project.clip(clips[1]).is_none());
}

#[test]
fn deleting_cues_reindexes_and_prunes_the_empty_group() {
    let (mut project, track, cues) = captioned();
    let (group, clips) = add(&mut project, track, &cues);

    project.timeline.remove_clip(clips[0]);
    project.timeline.reindex_caption_group(group);
    assert_eq!(project.clip(clips[1]).unwrap().caption.as_ref().unwrap().index, 0);

    project.timeline.remove_clip(clips[1]);
    let pruned = project.timeline.prune_empty_caption_groups();
    assert_eq!(pruned.len(), 1);
    assert_eq!(project.timeline().caption_group_count(), 0);
}

#[test]
fn ungrouping_leaves_plain_text_clips_behind() {
    let (mut project, track, cues) = captioned();
    let (group, clips) = add(&mut project, track, &cues);

    project.ungroup_caption_cues(&clips).unwrap();
    assert!(project.clip(clips[0]).unwrap().caption.is_none());
    assert_eq!(text_of(&project, clips[0]).as_deref(), Some("hello world"));
    assert!(project.timeline().caption_group(group).is_none());
}

#[test]
fn ungrouping_a_plain_clip_is_rejected() {
    let (mut project, track, _) = captioned();
    let plain = project.add_text_clip(track, "title", tr(0, 30)).unwrap();
    assert!(matches!(
        project.ungroup_caption_cues(&[plain]),
        Err(ModelError::NotACaptionCue(_))
    ));
}

#[test]
fn ungrouping_part_of_a_group_keeps_the_group() {
    let (mut project, track, cues) = captioned();
    let (group, clips) = add(&mut project, track, &cues);
    project.ungroup_caption_cues(&clips[..1]).unwrap();
    assert!(project.timeline().caption_group(group).is_some());
    assert_eq!(project.timeline().caption_cue_ids(group), vec![clips[1]]);
}

#[test]
fn text_clips_are_refused_off_lane_or_overlapping() {
    let (mut project, track, cues) = captioned();
    add(&mut project, track, &cues);
    assert!(matches!(
        project.add_text_clip(track, "clash", tr(20, 30)),
        Err(ModelError::Overlap(_))
    ));
    assert!(matches!(
        project.add_text_clip(track, "empty", tr(200, 0)),
        Err(ModelError::InvalidRange)
    ));
    assert!(matches!(
        project.add_text_clip(TrackId::from_raw(999), "lost", tr(200, 10)),
        Err(ModelError::UnknownTrack(_))
    ));
}
