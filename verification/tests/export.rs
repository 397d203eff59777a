use cutlass_captions::caption::group::CaptionFileFormat;
use cutlass_captions::caption::spec::CaptionCueSpec;
use cutlass_captions::export::{group_subtitles, write_group};
use cutlass_captions::ids::CaptionGroupId;
use cutlass_captions::project::{CaptionGroupSpec, Project};
use cutlass_captions::srt::parse_srt;
use cutlass_captions::subtitle::SubtitleCue;
use cutlass_captions::time::{Rational, TimeRange};
use cutlass_captions::timeline::TrackKind;

fn r30() -> Rational {
    Rational::fps_30()
}

/// Two lines of a group: 1 s – 2.5 s and 3 s – 4 s.
fn captioned() -> (Project, CaptionGroupId) {
    let mut project = Project::new("captions", r30());
    let track = project.add_track(TrackKind::Text, "Captions").unwrap();
    let (group, _) = project
        .add_caption_group(
            &CaptionGroupSpec::manual(track, "Captions"),
            &[
                CaptionCueSpec::new("Hello there", TimeRange::at_rate(30, 45, r30())),
                CaptionCueSpec::new("Two lines\nhere", TimeRange::at_rate(90, 30, r30())),
            ],
        )
        .unwrap();
    (project, group)
}

#[test]
fn a_group_exports_its_cues_in_time_order() {
    let (project, group) = captioned();
    assert_eq!(
        group_subtitles(project.timeline(), group),
        vec![
            SubtitleCue::new(1_000, 2_500, "Hello there"),
            SubtitleCue::new(3_000, 4_000, "Two lines\nhere"),
        ]
    );
}

#[test]
fn a_group_writes_as_subrip_and_webvtt() {
    let (project, group) = captioned();
    let srt = write_group(project.timeline(), group, CaptionFileFormat::Srt);
    assert_eq!(
        srt,
        "1\n00:00:01,000 --> 00:00:02,500\nHello there\n\n\
         2\n00:00:03,000 --> 00:00:04,000\nTwo lines\nhere\n\n"
    );
    assert_eq!(parse_srt(&srt).unwrap(), group_subtitles(project.timeline(), group));

    let vtt = write_group(project.timeline(), group, CaptionFileFormat::Vtt);
    assert_eq!(
        vtt,
        "WEBVTT\n\n1\n00:00:01.000 --> 00:00:02.500\nHello there\n\n\
         2\n00:00:03.000 --> 00:00:04.000\nTwo lines\nhere\n\n"
    );
}

#[test]
fn an_unknown_group_exports_nothing() {
    let (project, _) = captioned();
    assert!(group_subtitles(project.timeline(), CaptionGroupId(404)).is_empty());
    assert_eq!(write_group(project.timeline(), CaptionGroupId(404), CaptionFileFormat::Srt), "");
}
