use cutlass_captions::caption::group::{CaptionFileFormat, CaptionSource};
use cutlass_captions::caption::layout::CaptionLayout;
use cutlass_captions::caption::spec::CaptionCueSpec;
use cutlass_captions::error::{CaptionError, ModelError};
use cutlass_captions::gesture::{add_manual_group, add_transcribed, import_subtitles, CaptionImportError};
use cutlass_captions::ids::{ClipId, MediaId, TrackId};
use cutlass_captions::lanes::template_layout;
use cutlass_captions::project::{CaptionGroupSpec, Project};
use cutlass_captions::subtitle::{parse_subtitles, place_subtitles, ImportOptions};
use cutlass_captions::time::{Rational, TimeRange};
use cutlass_captions::timeline::TrackKind;
use cutlass_captions::timing::Placement;

const TALK: &str = "1\n00:00:01,000 --> 00:00:02,000\nhello\n\n2\n00:00:03,000 --> 00:00:04,000\nworld\n";

fn r24() -> Rational {
    Rational::fps_24()
}

/// A 24 fps project with one video lane.
fn project() -> Project {
    let mut project = Project::new("captions", r24());
    project.add_track(TrackKind::Video, "V1").unwrap();
    project
}

/// A text lane holding one caption cue over `[start, start + duration)`.
fn lane_with_cue(project: &mut Project, start: i64, duration: i64) -> TrackId {
    let track = project.add_track(TrackKind::Text, "Captions").unwrap();
    project
        .add_caption_group(
            &CaptionGroupSpec::manual(track, "Captions"),
            &[CaptionCueSpec::new("hello", TimeRange::at_rate(start, duration, r24()))],
        )
        .unwrap();
    track
}

fn start_of(project: &Project, clip: ClipId) -> i64 {
    project.clip(clip).unwrap().timeline.start.value
}

fn text_of(project: &Project, clip: ClipId) -> String {
    project.clip(clip).unwrap().text.clone().unwrap()
}

#[test]
fn an_imported_file_lands_on_a_new_text_lane() {
    let mut project = project();
    let (group, ids) = import_subtitles(&mut project, TALK, "talk", 0, "").expect("imported");
    assert_eq!(ids.len(), 2);
    let lanes = &project.timeline().tracks;
    assert_eq!(lanes.len(), 2);
    assert_eq!(lanes[1].kind, TrackKind::Text);
    assert_eq!(lanes[1].name, "Captions");

    let record = project.timeline().caption_group(group).expect("group");
    assert_eq!(record.label, "talk");
    assert_eq!(record.track, lanes[1].id);
    assert_eq!(record.source, CaptionSource::Imported { format: CaptionFileFormat::Srt });
    assert_eq!(record.template, None);
    assert_eq!(record.layout, CaptionLayout::default_layout());

    assert_eq!(text_of(&project, ids[0]), "hello");
    assert_eq!(text_of(&project, ids[1]), "world");
    assert_eq!(start_of(&project, ids[0]), 24);
    assert_eq!(start_of(&project, ids[1]), 72);
    // Word timings are estimated so the group can drive a highlight.
    let cue = project.clip(ids[0]).unwrap().caption.as_ref().unwrap();
    assert_eq!(cue.words.len(), 1);
    assert_eq!(cue.index, 0);
}

#[test]
fn an_import_places_its_cues_as_placement_does_from_the_tick() {
    let mut project = project();
    let (_, ids) = import_subtitles(&mut project, TALK, "talk", 48, "").expect("imported");
    let (_, cues) = parse_subtitles(TALK).unwrap();
    let mut options = ImportOptions::new(Placement::new(r24(), 48));
    options.estimate_words = true;
    let specs = place_subtitles(&cues, &options).unwrap();
    for (id, spec) in ids.iter().zip(specs.iter()) {
        assert_eq!(project.clip(*id).unwrap().timeline, spec.timeline);
    }
    assert_eq!(start_of(&project, ids[0]), 72);

    // A playhead before zero places caption time zero at zero.
    let mut project = self::project();
    let (_, ids) = import_subtitles(&mut project, TALK, "talk", -30, "").expect("imported");
    assert_eq!(start_of(&project, ids[0]), 24);
}

#[test]
fn an_import_reuses_a_text_lane_with_room() {
    let mut project = project();
    let lane = lane_with_cue(&mut project, 200, 24);
    let (group, _) = import_subtitles(&mut project, TALK, "talk", 0, "").expect("imported");
    assert_eq!(project.timeline().caption_group(group).unwrap().track, lane);
    assert_eq!(project.timeline().tracks.len(), 2);
}

#[test]
fn a_second_import_over_the_first_takes_a_new_lane() {
    let mut project = project();
    let (first, _) = import_subtitles(&mut project, TALK, "one", 0, "").expect("first");
    let (second, _) = import_subtitles(&mut project, TALK, "two", 0, "").expect("second");
    let timeline = project.timeline();
    assert_ne!(timeline.caption_group(first).unwrap().track, timeline.caption_group(second).unwrap().track);
    assert_eq!(timeline.tracks.len(), 3);
}

#[test]
fn a_webvtt_import_in_a_template_look() {
    let mut project = project();
    let file = "WEBVTT\n\n00:00:01.000 --> 00:00:02.000\nhi\n";
    let (group, ids) = import_subtitles(&mut project, file, "vtt", 0, "karaoke_pop").expect("imported");
    assert_eq!(ids.len(), 1);
    let record = project.timeline().caption_group(group).unwrap();
    assert_eq!(record.source, CaptionSource::Imported { format: CaptionFileFormat::Vtt });
    assert_eq!(record.template.as_deref(), Some("karaoke_pop"));
    assert_eq!(record.layout, template_layout("karaoke_pop"));
}

#[test]
fn import_refusals_leave_the_timeline_alone() {
    let mut project = project();
    let lanes = project.timeline().tracks.len();

    let bad = "1\n00:00:01,000 --> nonsense\nhello\n";
    match import_subtitles(&mut project, bad, "bad", 0, "") {
        Err(CaptionImportError::Parse(CaptionError::Parse { line, message })) => {
            assert_eq!(line, 2);
            assert_eq!(message, "unreadable timestamp in '00:00:01,000 --> nonsense'");
        },
        other => panic!("expected a parse error, got {other:?}"),
    }
    assert!(matches!(import_subtitles(&mut project, "", "empty", 0, ""), Err(CaptionImportError::Empty)));

    // An unknown template is refused by the timeline, and the lane made for
    // the group goes with it.
    match import_subtitles(&mut project, TALK, "talk", 0, "neon_wobble") {
        Err(CaptionImportError::Refused(ModelError::InvalidParam(_))) => {},
        other => panic!("expected a refusal, got {other:?}"),
    }
    assert_eq!(project.timeline().tracks.len(), lanes);
    assert_eq!(project.timeline().clip_count(), 0);
    assert_eq!(project.timeline().caption_group_count(), 0);
}

fn transcribed_cues() -> Vec<CaptionCueSpec> {
    vec![
        CaptionCueSpec::new("first cue", TimeRange::at_rate(0, 24, r24())),
        CaptionCueSpec::new("second cue", TimeRange::at_rate(24, 24, r24())),
    ]
}

#[test]
fn a_transcription_of_media_no_longer_in_the_pool_is_refused() {
    let mut project = project();
    let answer = add_transcribed(
        &mut project,
        &[MediaId(3)],
        7,
        &transcribed_cues(),
        "Auto".to_owned(),
        None,
        "base".to_owned(),
        CaptionLayout::default_layout(),
        "",
    );
    assert_eq!(answer, Err(ModelError::UnknownMedia(MediaId(7))));
    assert_eq!(project.timeline().tracks.len(), 1);
    assert_eq!(project.timeline().caption_group_count(), 0);
}

#[test]
fn a_transcription_is_placed_as_an_auto_group() {
    let mut project = project();
    let lane = lane_with_cue(&mut project, 100, 24);
    let answer = add_transcribed(
        &mut project,
        &[MediaId(3), MediaId(7)],
        7,
        &transcribed_cues(),
        "Auto captions".to_owned(),
        Some("en".to_owned()),
        "base".to_owned(),
        CaptionLayout::default_layout(),
        "karaoke_pop",
    );
    assert_eq!(answer, Ok(2));
    assert_eq!(project.timeline().caption_group_count(), 2);
    let group = project.timeline().groups.iter().find(|g| g.label == "Auto captions").expect("group");
    assert_eq!(group.track, lane);
    assert_eq!(
        group.source,
        CaptionSource::Auto { media: MediaId(7), language: Some("en".to_owned()), model: "base".to_owned() }
    );
    assert_eq!(group.template.as_deref(), Some("karaoke_pop"));
    assert_eq!(group.layout, CaptionLayout::default_layout());
}

#[test]
fn a_hand_added_line_without_a_lane_gets_a_new_one() {
    let mut project = project();
    let (group, clip) = add_manual_group(&mut project, None, 30, "hello".to_owned(), "").expect("added");
    let record = project.timeline().caption_group(group).unwrap();
    assert_eq!(record.label, "Captions");
    assert_eq!(record.source, CaptionSource::Manual);
    assert_eq!(record.template, None);
    let lanes = &project.timeline().tracks;
    assert_eq!(lanes.len(), 2);
    assert_eq!(lanes[1].kind, TrackKind::Text);
    assert_eq!(record.track, lanes[1].id);
    let placed = project.clip(clip).unwrap();
    assert_eq!(placed.timeline, TimeRange::at_rate(30, 72, r24()));
    assert_eq!(placed.text.as_deref(), Some("hello"));
}

#[test]
fn a_blank_hand_added_line_reads_caption_and_starts_at_zero_at_the_latest() {
    let mut project = project();
    let (_, clip) = add_manual_group(&mut project, None, -12, "   ".to_owned(), "karaoke_pop").expect("added");
    assert_eq!(text_of(&project, clip), "Caption");
    assert_eq!(start_of(&project, clip), 0);
    let group = project.clip(clip).unwrap().caption.as_ref().unwrap().group;
    assert_eq!(project.timeline().caption_group(group).unwrap().template.as_deref(), Some("karaoke_pop"));
}

#[test]
fn a_hand_added_line_slides_past_the_clips_on_its_lane() {
    let mut project = project();
    let lane = lane_with_cue(&mut project, 0, 48);
    // Room after the first cue.
    let (_, clip) = add_manual_group(&mut project, Some(lane), 24, "two".to_owned(), "").expect("added");
    assert_eq!(start_of(&project, clip), 48);
    assert_eq!(project.clip(clip).unwrap().track, lane);

    // [48, 120) is now taken; a line at 0 that would also hit [130, 150)
    // from 120 lands after that one.
    project
        .add_caption_group(
            &CaptionGroupSpec::manual(lane, "More"),
            &[CaptionCueSpec::new("three", TimeRange::at_rate(130, 20, r24()))],
        )
        .unwrap();
    let (_, clip) = add_manual_group(&mut project, Some(lane), 0, "four".to_owned(), "").expect("added");
    assert_eq!(start_of(&project, clip), 150);
    assert_eq!(project.timeline().tracks.len(), 2);
}

#[test]
fn a_hand_added_line_named_on_a_video_lane_gets_a_text_lane() {
    let mut project = project();
    let video = project.timeline().tracks[0].id;
    let (group, _) = add_manual_group(&mut project, Some(video), 0, "hi".to_owned(), "").expect("added");
    let lane = project.timeline().caption_group(group).unwrap().track;
    assert_ne!(lane, video);
    assert_eq!(project.timeline().track_kind(lane), Some(TrackKind::Text));
}

#[test]
fn a_refused_hand_added_line_takes_its_new_lane_with_it() {
    let mut project = project();
    match add_manual_group(&mut project, None, 0, "hi".to_owned(), "neon_wobble") {
        Err(ModelError::InvalidParam(_)) => {},
        other => panic!("expected a refusal, got {other:?}"),
    }
    assert_eq!(project.timeline().tracks.len(), 1);
}
