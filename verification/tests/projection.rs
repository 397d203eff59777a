use cutlass_captions::caption::group::{CaptionFileFormat, CaptionSource};
use cutlass_captions::caption::spec::CaptionCueSpec;
use cutlass_captions::ids::{CaptionGroupId, MediaId, TrackId};
use cutlass_captions::project::{CaptionGroupSpec, Project};
use cutlass_captions::projection::{caption_group_order, cue_list, first_cue_tick, source_label};
use cutlass_captions::time::{Rational, TimeRange};
use cutlass_captions::timeline::TrackKind;

fn r30() -> Rational {
    Rational::fps_30()
}

fn group_at(project: &mut Project, track: TrackId, label: &str, starts: &[i64]) -> CaptionGroupId {
    let cues: Vec<CaptionCueSpec> = starts
        .iter()
        .map(|&start| CaptionCueSpec::new("line", TimeRange::at_rate(start, 10, r30())))
        .collect();
    project.add_caption_group(&CaptionGroupSpec::manual(track, label), &cues).unwrap().0
}

#[test]
fn sources_read_as_group_headers() {
    assert_eq!(source_label(&CaptionSource::Manual), "Manual");
    assert_eq!(
        source_label(&CaptionSource::Imported { format: CaptionFileFormat::Srt }),
        "Imported (SRT)"
    );
    assert_eq!(
        source_label(&CaptionSource::Imported { format: CaptionFileFormat::Vtt }),
        "Imported (VTT)"
    );
    assert_eq!(
        source_label(&CaptionSource::Auto {
            media: MediaId(3),
            language: Some("en".to_string()),
            model: "base.en".to_string(),
        }),
        "Auto (en)"
    );
    assert_eq!(
        source_label(&CaptionSource::Auto { media: MediaId(3), language: None, model: "base.en".to_string() }),
        "Auto"
    );
}

#[test]
fn groups_list_by_their_first_line_not_their_id() {
    let mut project = Project::new("captions", r30());
    let lane_a = project.add_track(TrackKind::Text, "A").unwrap();
    let lane_b = project.add_track(TrackKind::Text, "B").unwrap();
    let late = group_at(&mut project, lane_a, "Late", &[120, 300]);
    let early = group_at(&mut project, lane_b, "Early", &[90, 200]);
    let tied = group_at(&mut project, lane_a, "Tied", &[500]);
    let same = group_at(&mut project, lane_b, "Same", &[500]);

    assert_eq!(first_cue_tick(project.timeline(), late), 120);
    assert_eq!(first_cue_tick(project.timeline(), early), 90);
    assert_eq!(caption_group_order(project.timeline()), vec![early, late, tied, same]);
}

#[test]
fn a_group_without_cues_sorts_last() {
    let mut project = Project::new("captions", r30());
    let lane = project.add_track(TrackKind::Text, "A").unwrap();
    let first = group_at(&mut project, lane, "First", &[0]);
    let second = group_at(&mut project, lane, "Second", &[60]);
    let (record, _cues) = project.remove_caption_group(first).unwrap();
    project.timeline.add_caption_group(record).unwrap();

    assert_eq!(first_cue_tick(project.timeline(), first), i64::MAX);
    assert_eq!(caption_group_order(project.timeline()), vec![second, first]);
    assert_eq!(first_cue_tick(project.timeline(), CaptionGroupId(777)), i64::MAX);
}

#[test]
fn the_cue_list_runs_by_start_then_number() {
    let rate = Rational::fps_24();
    let mut project = Project::new("list", rate);
    let lane = project.add_track(TrackKind::Text, "Captions").unwrap();
    let other = project.add_track(TrackKind::Text, "Other").unwrap();
    let (group, ids) = project
        .add_caption_group(
            &CaptionGroupSpec::manual(lane, "A"),
            &[
                CaptionCueSpec::new("one", TimeRange::at_rate(0, 24, rate)),
                CaptionCueSpec::new("two", TimeRange::at_rate(24, 24, rate)),
                CaptionCueSpec::new("three", TimeRange::at_rate(96, 24, rate)),
            ],
        )
        .unwrap();
    project
        .add_caption_group(
            &CaptionGroupSpec::manual(other, "B"),
            &[CaptionCueSpec::new("elsewhere", TimeRange::at_rate(30, 24, rate))],
        )
        .unwrap();
    assert_eq!(cue_list(project.timeline(), group), ids);
}
