use cutlass_captions::caption::cue::CaptionWord;
use cutlass_captions::caption::highlight::CaptionHighlightMode;
use cutlass_captions::caption::layout::CaptionLayout;
use cutlass_captions::caption::spec::CaptionCueSpec;
use cutlass_captions::history::{
    self, CaptionAction, RemoveCaptionGroupAction,
};
use cutlass_captions::ids::{CaptionGroupId, ClipId, TrackId};
use cutlass_captions::project::{CaptionGroupSpec, Project};
use cutlass_captions::time::{Rational, RationalTime, TimeRange};
use cutlass_captions::timeline::TrackKind;

fn rt(value: i64) -> RationalTime {
    RationalTime::new(value, Rational::fps_30())
}

fn tr(start: i64, duration: i64) -> TimeRange {
    TimeRange::at_rate(start, duration, Rational::fps_30())
}

fn project_with_text_lane() -> (Project, TrackId) {
    let mut project = Project::new("captions", Rational::fps_30());
    let track = project.add_track(TrackKind::Text, "Captions").unwrap();
    (project, track)
}

fn cues() -> Vec<CaptionCueSpec> {
    vec![
        CaptionCueSpec::new("hello world", tr(0, 30)).with_words(vec![
            CaptionWord::new(0, 500, 0..5),
            CaptionWord::new(500, 1000, 6..11),
        ]),
        CaptionCueSpec::new("second line", tr(30, 30)),
    ]
}

fn add_captions(project: &mut Project, track: TrackId) -> (CaptionGroupId, Vec<ClipId>, CaptionAction) {
    let spec = CaptionGroupSpec::manual(track, "Captions");
    let (group, undo) = history::add(project, &spec, &cues()).expect("add");
    let clips = project.timeline().caption_cue_ids(group);
    (group, clips, undo)
}

/// Every caption clip of the group and the group itself, as a comparable
/// snapshot.
fn snapshot(project: &Project, group: CaptionGroupId) -> String {
    let timeline = project.timeline();
    format!("{:?}{:?}", timeline.caption_group(group), timeline.caption_cues(group))
}

/// Run `edit`, then assert undo restores the prior state exactly and redo
/// reproduces the post-edit state exactly.
fn assert_oscillates(project: &mut Project, group: CaptionGroupId, edit: impl FnOnce(&mut Project) -> CaptionAction) {
    let before = snapshot(project, group);
    let undo = edit(project);
    let after = snapshot(project, group);
    assert_ne!(before, after, "the edit changed nothing to oscillate");

    let redo = undo.apply(project).expect("undo");
    assert_eq!(snapshot(project, group), before, "undo must restore exactly");
    redo.apply(project).expect("redo");
    assert_eq!(snapshot(project, group), after, "redo must reproduce exactly");
}

#[test]
fn one_command_creates_the_group_and_every_cue() {
    let (mut project, track) = project_with_text_lane();
    let (group, clips, _) = add_captions(&mut project, track);

    assert_eq!(clips.len(), 2);
    assert_eq!(project.timeline().caption_group_count(), 1);
    assert_eq!(project.timeline().clip_count(), 2, "cues are ordinary text clips");
    assert!(project.clip(clips[0]).unwrap().is_caption());
    assert_eq!(project.clip(clips[0]).unwrap().caption.as_ref().unwrap().group, group);
}

#[test]
fn creating_a_group_is_a_single_undo_entry() {
    let (mut project, track) = project_with_text_lane();
    let (group, _, undo) = add_captions(&mut project, track);

    let redo = undo.apply(&mut project).expect("undo");
    assert_eq!(project.timeline().caption_group_count(), 0);
    assert_eq!(project.timeline().clip_count(), 0);

    redo.apply(&mut project).expect("redo");
    assert_eq!(project.timeline().caption_group_count(), 1);
    assert_eq!(project.timeline().caption_cue_ids(group).len(), 2);
}

#[test]
fn redo_of_a_group_keeps_every_cue_id() {
    let (mut project, track) = project_with_text_lane();
    let (group, clips, undo) = add_captions(&mut project, track);
    let redo = undo.apply(&mut project).expect("undo");
    redo.apply(&mut project).expect("redo");
    assert_eq!(
        project.timeline().caption_cue_ids(group),
        clips,
        "ids must survive so selection and deeper history keep resolving"
    );
}

#[test]
fn a_rejected_batch_places_nothing() {
    let (mut project, track) = project_with_text_lane();
    let overlapping = vec![
        CaptionCueSpec::new("one", tr(0, 30)),
        CaptionCueSpec::new("two", tr(10, 30)),
    ];
    let spec = CaptionGroupSpec::manual(track, "Captions");
    assert!(history::add(&mut project, &spec, &overlapping).is_err());
    assert_eq!(project.timeline().clip_count(), 0);
    assert_eq!(project.timeline().caption_group_count(), 0);
}

#[test]
fn applying_a_template_oscillates() {
    let (mut project, track) = project_with_text_lane();
    let (group, _, _) = add_captions(&mut project, track);
    assert_oscillates(&mut project, group, |p| history::set_template(p, group, "karaoke_pop").unwrap());
    assert_eq!(
        project.timeline().caption_group(group).unwrap().highlight,
        Some(CaptionHighlightMode::Word)
    );
}

#[test]
fn layout_highlight_and_label_edits_oscillate() {
    let (mut project, track) = project_with_text_lane();
    let (group, _, _) = add_captions(&mut project, track);

    assert_oscillates(&mut project, group, |p| {
        let layout = CaptionLayout {
            max_chars_per_line: 40,
            ..CaptionLayout::default()
        };
        history::set_layout(p, group, layout).unwrap()
    });
    assert_oscillates(&mut project, group, |p| {
        history::set_highlight(p, group, Some(CaptionHighlightMode::Word)).unwrap()
    });
    assert_oscillates(&mut project, group, |p| history::set_label(p, group, "English".into()).unwrap());
}

#[test]
fn removing_a_group_takes_its_cues_and_undo_brings_them_back() {
    let (mut project, track) = project_with_text_lane();
    let (group, clips, _) = add_captions(&mut project, track);
    let before = snapshot(&project, group);

    let undo = RemoveCaptionGroupAction { group }.apply(&mut project).expect("remove");
    assert_eq!(project.timeline().clip_count(), 0);

    let redo = undo.apply(&mut project).expect("undo");
    assert_eq!(snapshot(&project, group), before);
    assert_eq!(project.timeline().caption_cue_ids(group), clips);

    redo.apply(&mut project).expect("redo");
    assert_eq!(project.timeline().caption_group_count(), 0);
}

#[test]
fn editing_a_cue_oscillates() {
    let (mut project, track) = project_with_text_lane();
    let (group, clips, _) = add_captions(&mut project, track);
    assert_oscillates(&mut project, group, |p| {
        history::set_cue(p, clips[0], "hello there world".into(), None, Some("Host".into())).unwrap()
    });
    assert_eq!(project.clip(clips[0]).unwrap().text_content(), Some("hello there world"));
}

#[test]
fn splitting_a_cue_oscillates_and_renumbers() {
    let (mut project, track) = project_with_text_lane();
    let (group, clips, _) = add_captions(&mut project, track);
    assert_oscillates(&mut project, group, |p| history::split_cue(p, clips[0], rt(15)).unwrap().1);
    let indices: Vec<u32> = project
        .timeline()
        .caption_cues(group)
        .iter()
        .map(|clip| clip.caption.as_ref().unwrap().index)
        .collect();
    assert_eq!(indices, vec![0, 1, 2]);
}

#[test]
fn merging_cues_oscillates() {
    let (mut project, track) = project_with_text_lane();
    let (group, clips, _) = add_captions(&mut project, track);
    let all = clips.clone();
    assert_oscillates(&mut project, group, |p| history::merge_cues(p, &all).unwrap().1);
    assert_eq!(
        project.clip(clips[0]).unwrap().text_content(),
        Some("hello world second line")
    );
}

#[test]
fn ungrouping_leaves_text_clips_and_undo_reattaches_them() {
    let (mut project, track) = project_with_text_lane();
    let (group, clips, _) = add_captions(&mut project, track);
    let before = snapshot(&project, group);

    let undo = history::ungroup(&mut project, &clips).expect("ungroup");
    assert_eq!(project.timeline().caption_group_count(), 0);
    assert!(project.clip(clips[0]).unwrap().caption.is_none());
    assert_eq!(
        project.clip(clips[0]).unwrap().text_content(),
        Some("hello world"),
        "the text survives ungrouping"
    );

    let redo = undo.apply(&mut project).expect("undo");
    assert_eq!(snapshot(&project, group), before);
    redo.apply(&mut project).expect("redo");
    assert_eq!(project.timeline().caption_group_count(), 0);
}

#[test]
fn caption_commands_reject_unknown_groups_and_plain_clips() {
    let (mut project, track) = project_with_text_lane();
    let (_, clips, _) = add_captions(&mut project, track);
    let missing = CaptionGroupId::from_raw(u64::MAX - 5);

    assert!(history::set_template(&mut project, missing, "clean").is_err());

    let plain = project.add_text_clip(track, "title", tr(120, 30)).expect("plain title");
    assert!(
        history::set_cue(&mut project, plain, "hi".into(), None, None).is_err(),
        "a plain title is not a cue"
    );
    assert!(history::merge_cues(&mut project, &[clips[0], plain]).is_err());
}

#[test]
fn an_unknown_caption_template_is_rejected() {
    let (mut project, track) = project_with_text_lane();
    let (group, _, _) = add_captions(&mut project, track);
    assert!(history::set_template(&mut project, group, "does_not_exist").is_err());
    assert_eq!(project.timeline().caption_group(group).unwrap().template, None);
}

#[test]
fn a_refused_edit_leaves_no_undo_and_no_change() {
    let (mut project, track) = project_with_text_lane();
    let (group, clips, _) = add_captions(&mut project, track);
    let before = snapshot(&project, group);
    assert!(history::set_cue(&mut project, clips[0], "   ".into(), None, None).is_err());
    assert!(history::split_cue(&mut project, clips[0], rt(45)).is_err());
    assert!(history::set_label(&mut project, group, "y".repeat(400)).is_err());
    assert_eq!(snapshot(&project, group), before);
}
