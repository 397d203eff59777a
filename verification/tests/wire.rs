use cutlass_captions::caption::highlight::CaptionHighlightMode;
use cutlass_captions::caption::spec::CaptionCueSpec;
use cutlass_captions::ids::{ClipId, TrackId};
use cutlass_captions::project::{CaptionGroupSpec, Project};
use cutlass_captions::time::{Rational, RationalTime, TimeRange};
use cutlass_captions::timeline::TrackKind;
use cutlass_captions::caption::group::CaptionSource;
use cutlass_captions::wire::{
    add_captions, split_clip, MAX_WIRE_CAPTION_CUES, caption_cue_ref, caption_group_ref, caption_template_ids, merge_captions, require_caption_template,
    set_caption_text, CaptionEdit, MergeCaptions, Rejection, SetCaptionText, WireCaptionHighlightMode,
};

/// How many cues one merge call may name in these tests.
const MAX_CLIPS: usize = 16;

fn r24() -> Rational {
    Rational::fps_24()
}

/// A 24 fps project with a video lane and a text lane.
fn fixture() -> (Project, u64) {
    let mut project = Project::new("captions", r24());
    project.add_track(TrackKind::Video, "V1").unwrap();
    let text = project.add_track(TrackKind::Text, "Captions").unwrap();
    (project, text.0)
}

/// One caption group of two cues (0–2 s, 2–4 s) on the text lane.
fn with_group(project: &mut Project, track: u64) -> (u64, Vec<u64>) {
    let (group, cues) = project
        .add_caption_group(
            &CaptionGroupSpec::manual(TrackId(track), "Captions"),
            &[
                CaptionCueSpec::new("first line", TimeRange::at_rate(0, 48, r24())),
                CaptionCueSpec::new("second line", TimeRange::at_rate(48, 48, r24())),
            ],
        )
        .expect("caption group");
    (group.0, cues.into_iter().map(|id| id.0).collect())
}

fn message(rejection: Rejection) -> String {
    rejection.message()
}

#[test]
fn cue_edits_reject_plain_titles_and_cross_group_merges() {
    let (mut project, text) = fixture();
    let (_, cues) = with_group(&mut project, text);
    let title = project
        .add_text_clip(TrackId(text), "INTRO", TimeRange::at_rate(240, 48, r24()))
        .unwrap()
        .0;

    let refused = set_caption_text(
        &project,
        &SetCaptionText { clip: title, text: "nope".into(), speaker: None },
    );
    let message_text = message(refused.err().expect("a plain title is refused"));
    assert!(message_text.contains("not a caption cue"), "{message_text}");
    assert!(message_text.contains("set_generator"), "{message_text}");

    let lowered = set_caption_text(
        &project,
        &SetCaptionText { clip: cues[0], text: "corrected line".into(), speaker: Some("Ana".into()) },
    )
    .expect("cue edit lowers");
    let CaptionEdit::SetCaptionCue { text: corrected, speaker, .. } = lowered else {
        panic!("expected SetCaptionCue, got {lowered:?}");
    };
    assert_eq!(corrected, "corrected line");
    assert_eq!(speaker.as_deref(), Some("Ana"));

    let (_, other_cues) = project
        .add_caption_group(
            &CaptionGroupSpec::manual(TrackId(text), "Outro"),
            &[CaptionCueSpec::new("outro", TimeRange::at_rate(480, 48, r24()))],
        )
        .expect("second group");
    let refused = merge_captions(&project, &MergeCaptions { clips: vec![cues[0], other_cues[0].0] }, MAX_CLIPS);
    let message_text = message(refused.err().expect("cross-group merge is refused"));
    assert!(message_text.contains("across groups"), "{message_text}");

    let refused = merge_captions(&project, &MergeCaptions { clips: vec![cues[0]] }, MAX_CLIPS);
    assert!(message(refused.err().unwrap()).contains("at least two"));
    let refused = merge_captions(&project, &MergeCaptions { clips: vec![cues[0], cues[0]] }, MAX_CLIPS);
    let message_text = message(refused.err().unwrap());
    assert!(message_text.contains("twice"), "{message_text}");

    let lowered = merge_captions(&project, &MergeCaptions { clips: vec![cues[0], cues[1]] }, MAX_CLIPS)
        .expect("merge lowers");
    assert!(
        matches!(lowered, CaptionEdit::MergeCaptionCues { ref clips } if clips.len() == 2),
        "{lowered:?}"
    );
}

#[test]
fn highlight_modes_map_onto_the_model_and_off_clears() {
    assert_eq!(WireCaptionHighlightMode::Off.mode(), None);
    assert_eq!(WireCaptionHighlightMode::Word.mode(), Some(CaptionHighlightMode::Word));
    assert_eq!(WireCaptionHighlightMode::Line.mode(), Some(CaptionHighlightMode::Line));
}

#[test]
fn the_template_catalog_is_listed_in_order() {
    assert_eq!(caption_template_ids(), "clean, bold_box, karaoke_pop, glow, outline, multiline");
    assert!(require_caption_template("glow").is_ok());
    let refused = require_caption_template("sparkle").err().expect("unknown template");
    assert_eq!(
        refused.message(),
        "unknown caption template 'sparkle'; available templates: clean, bold_box, karaoke_pop, glow, outline, multiline"
    );
}

#[test]
fn an_unknown_group_is_refused_with_the_groups_that_exist() {
    let (mut project, text) = fixture();
    let none = caption_group_ref(&project, 7).err().expect("no groups yet");
    assert_eq!(none.message(), "caption group 7 does not exist; caption groups: ");

    let (group, _) = with_group(&mut project, text);
    let (second, _) = project
        .add_caption_group(
            &CaptionGroupSpec::manual(TrackId(text), "Outro"),
            &[CaptionCueSpec::new("outro", TimeRange::at_rate(480, 48, r24()))],
        )
        .unwrap();
    assert_eq!(caption_group_ref(&project, group).unwrap().id.0, group);
    let refused = caption_group_ref(&project, 999).err().unwrap();
    assert_eq!(
        refused.message(),
        format!("caption group 999 does not exist; caption groups: {group}, {}", second.0)
    );
}

#[test]
fn cue_lookups_refuse_missing_clips_and_plain_titles() {
    let (mut project, text) = fixture();
    let (_, cues) = with_group(&mut project, text);
    let title = project
        .add_text_clip(TrackId(text), "INTRO", TimeRange::at_rate(240, 48, r24()))
        .unwrap();

    assert_eq!(caption_cue_ref(&project, cues[1]).unwrap().id, ClipId(cues[1]));
    let missing = caption_cue_ref(&project, 4_242).err().unwrap();
    assert!(matches!(missing, Rejection::UnknownClip { clip: 4_242 }));
    assert_eq!(missing.message(), "clip 4242 does not exist");
    let plain = caption_cue_ref(&project, title.0).err().unwrap();
    assert!(matches!(plain, Rejection::NotACue { clip } if clip == title.0));
}

#[test]
fn a_cue_edit_keeps_the_speaker_and_refuses_blank_text() {
    let (mut project, text) = fixture();
    let track = TrackId(text);
    let mut spec = CaptionCueSpec::new("hello there", TimeRange::at_rate(0, 48, r24()));
    spec.speaker = Some("Bo".to_string());
    let (_, clips) = project
        .add_caption_group(&CaptionGroupSpec::manual(track, "Captions"), &[spec])
        .unwrap();

    let lowered = set_caption_text(
        &project,
        &SetCaptionText { clip: clips[0].0, text: "hi there".into(), speaker: None },
    )
    .unwrap();
    match lowered {
        CaptionEdit::SetCaptionCue { clip, text, speaker } => {
            assert_eq!(clip, clips[0]);
            assert_eq!(text, "hi there");
            assert_eq!(speaker.as_deref(), Some("Bo"));
        }
        other => panic!("unexpected {other:?}"),
    }

    let blank = set_caption_text(
        &project,
        &SetCaptionText { clip: clips[0].0, text: "  \n ".into(), speaker: None },
    )
    .err()
    .unwrap();
    assert_eq!(
        blank.message(),
        format!("caption cue {} needs text; remove the line with remove_clip instead", clips[0].0)
    );
}

#[test]
fn a_merge_is_checked_entry_by_entry() {
    let (mut project, text) = fixture();
    let (group, cues) = with_group(&mut project, text);

    let too_many = merge_captions(&project, &MergeCaptions { clips: vec![cues[0], cues[1], 5] }, 2)
        .err()
        .unwrap();
    assert_eq!(too_many.message(), "merge_captions accepts at most 2 cue clips (got 3)");

    let missing = merge_captions(&project, &MergeCaptions { clips: vec![cues[0], 9_999] }, MAX_CLIPS)
        .err()
        .unwrap();
    assert!(matches!(missing, Rejection::UnknownClip { clip: 9_999 }));

    let (second, other) = project
        .add_caption_group(
            &CaptionGroupSpec::manual(TrackId(text), "Outro"),
            &[CaptionCueSpec::new("outro", TimeRange::at_rate(480, 48, r24()))],
        )
        .unwrap();
    let cross = merge_captions(&project, &MergeCaptions { clips: vec![cues[1], other[0].0] }, MAX_CLIPS)
        .err()
        .unwrap();
    assert_eq!(
        cross.message(),
        format!(
            "cue {} belongs to caption group {} but the first cue belongs to group {group}; merging across groups has no meaning",
            other[0].0, second.0
        )
    );

    let repeated = merge_captions(&project, &MergeCaptions { clips: vec![cues[1], cues[0], cues[1]] }, MAX_CLIPS)
        .err()
        .unwrap();
    assert_eq!(
        repeated.message(),
        format!("merge_captions lists cue {} twice; list each cue once", cues[1])
    );

    match merge_captions(&project, &MergeCaptions { clips: vec![cues[1], cues[0]] }, MAX_CLIPS).unwrap() {
        CaptionEdit::MergeCaptionCues { clips } => assert_eq!(clips, vec![ClipId(cues[1]), ClipId(cues[0])]),
        other => panic!("unexpected {other:?}"),
    }
}

fn line(text: &str, start: i64, duration: i64) -> (String, TimeRange) {
    (text.to_owned(), TimeRange::at_rate(start, duration, r24()))
}

fn refused(result: Result<(CaptionGroupSpec, Vec<CaptionCueSpec>), Rejection>) -> String {
    match result {
        Err(rejection) => rejection.message(),
        Ok(_) => panic!("call should be rejected"),
    }
}

#[test]
fn add_captions_lowers_cues_to_frame_snapped_ranges() {
    let (project, text) = fixture();
    // 0.0 s + 1.5 s and 1.5 s + 2.0 s at 24 fps.
    let (group, cues) = add_captions(
        &project,
        text,
        &[line("hello there", 0, 36), line("general kenobi", 36, 48)],
        Some("Intro".to_owned()),
        Some("karaoke_pop".to_owned()),
    )
    .expect("lowered");
    assert_eq!(group.track, TrackId(text));
    assert_eq!(group.label, "Intro");
    assert_eq!(group.template.as_deref(), Some("karaoke_pop"));
    assert_eq!(group.source, CaptionSource::Manual);
    assert_eq!(cues.len(), 2);
    assert_eq!(cues[0].text, "hello there");
    assert_eq!(cues[0].timeline, TimeRange::at_rate(0, 36, r24()));
    assert_eq!(cues[1].timeline, TimeRange::at_rate(36, 48, r24()));
    // Word timings are not part of the agent's vocabulary.
    assert!(cues.iter().all(|cue| cue.words.is_empty()));
}

#[test]
fn add_captions_names_the_missing_text_lane_and_the_template_catalog() {
    let (mut project, text) = fixture();
    let video = text - 1;
    assert_eq!(project.timeline().track_kind(TrackId(video)), Some(TrackKind::Video));

    let message = refused(add_captions(&project, video, &[line("nope", 0, 24)], None, None));
    assert!(message.contains("video lane"), "{message}");
    assert!(message.contains("add_track"), "{message}");

    let message = refused(add_captions(&project, text, &[line("nope", 0, 24)], None, Some("neon_wobble".to_owned())));
    assert!(message.contains("neon_wobble"), "{message}");
    assert!(message.contains("karaoke_pop"), "{message}");

    // Blank lines, empty lists, and overlaps are named before anything lands.
    assert!(refused(add_captions(&project, text, &[], None, None)).contains("at least one cue"));
    let message = refused(add_captions(&project, text, &[line("   ", 0, 24)], None, None));
    assert!(message.contains("no text"), "{message}");
    let message = refused(add_captions(&project, text, &[line("one", 0, 48), line("two", 24, 48)], None, None));
    assert!(message.contains("must not overlap"), "{message}");

    // A group id is not a track id: unknown ids list what exists.
    let (group, _) = with_group(&mut project, text);
    let message = match caption_group_ref(&project, group + 100) {
        Err(rejection) => rejection.message(),
        Ok(_) => panic!("unknown group"),
    };
    assert!(message.contains("caption groups: "), "{message}");
    assert!(message.contains(&group.to_string()), "{message}");
}

#[test]
fn add_captions_caps_the_cue_list() {
    let (project, text) = fixture();
    let cues: Vec<(String, TimeRange)> = (0..=MAX_WIRE_CAPTION_CUES as i64).map(|i| line("line", i * 24, 12)).collect();
    let message = refused(add_captions(&project, text, &cues, None, None));
    assert!(message.contains("several calls"), "{message}");
    assert_eq!(
        message,
        "add_captions accepts at most 200 cues per call (got 201); split a long script across several calls"
    );
}

#[test]
fn add_captions_refusals_name_the_first_problem_exactly() {
    let (project, text) = fixture();
    assert_eq!(refused(add_captions(&project, 99, &[line("x", 0, 24)], None, None)), "track 99 does not exist");
    assert_eq!(
        refused(add_captions(&project, text - 1, &[line("x", 0, 24)], None, None)),
        "track 1 is a video lane; captions need a text track \u{2014} call add_track with kind \"text\" first"
    );
    assert_eq!(
        refused(add_captions(&project, text, &[line("one", 0, 24), line(" ", 24, 24)], None, None)),
        "caption cue 1 has no text; every line needs something to show"
    );
    assert_eq!(
        refused(add_captions(&project, text, &[line("one", 0, 48), line("two", 24, 24)], None, None)),
        "caption cue 1 starts at tick 24, before the previous line ends at tick 48; cues must be in order and must not overlap"
    );
    // A blank line before an overlap is the one named.
    assert_eq!(
        refused(add_captions(&project, text, &[line("one", 0, 48), line("", 24, 24)], None, None)),
        "caption cue 1 has no text; every line needs something to show"
    );
}

#[test]
fn add_captions_labels_a_blank_or_missing_label_captions() {
    let (project, text) = fixture();
    let (group, _) = add_captions(&project, text, &[line("one", 0, 24)], Some("  ".to_owned()), None).expect("lowered");
    assert_eq!(group.label, "Captions");
    assert_eq!(group.template, None);
    assert_eq!(group.layout, None);
    let (group, _) = add_captions(&project, text, &[line("one", 0, 24)], None, None).expect("lowered");
    assert_eq!(group.label, "Captions");
    // Touching lines are in order.
    let (_, cues) = add_captions(&project, text, &[line("one", 0, 24), line("two", 24, 24)], None, None).expect("lowered");
    assert_eq!(cues.len(), 2);
    assert_eq!(cues[1].text, "two");
}

#[test]
fn splitting_a_cue_routes_to_the_caption_aware_split() {
    let (mut project, text) = fixture();
    let (_, cues) = with_group(&mut project, text);
    let title = project.add_text_clip(TrackId(text), "INTRO", TimeRange::at_rate(240, 48, r24())).unwrap().0;

    // 1.0 s and 11.0 s at 24 fps.
    let lowered = split_clip(&project, cues[0], RationalTime::new(24, r24())).expect("lowered");
    assert!(
        matches!(lowered, CaptionEdit::SplitCaptionCue { .. }),
        "a caption cue splits its text and timings: {lowered:?}"
    );

    let lowered = split_clip(&project, title, RationalTime::new(264, r24())).expect("lowered");
    assert!(
        matches!(lowered, CaptionEdit::SplitClip { .. }),
        "an ordinary title still splits generically: {lowered:?}"
    );

    assert_eq!(message(split_clip(&project, 999, RationalTime::new(0, r24())).unwrap_err()), "clip 999 does not exist");
}
