use cutlass_captions::auto_source::{
    auto_request, auto_source, SourceClip, SourceMedia, SourceProject, SourceTrack, TrackKind, MAX_LINE_LENGTH,
    MIN_LINE_LENGTH,
};
use cutlass_captions::time::Rational;

fn clip(id: &str, media: &str, start: i32, duration: i32) -> SourceClip {
    SourceClip {
        id: id.to_owned(),
        media_id: media.to_owned(),
        duration_label: "0:10".to_owned(),
        start,
        duration,
    }
}

fn media(id: &str, has_audio: bool) -> SourceMedia {
    SourceMedia {
        id: id.to_owned(),
        name: format!("{id}.mp4"),
        path: format!("/tmp/{id}.mp4"),
        has_audio,
        is_missing: false,
    }
}

fn project(tracks: Vec<SourceTrack>, pool: Vec<SourceMedia>) -> SourceProject {
    SourceProject {
        tracks,
        media: pool,
    }
}

fn track(kind: TrackKind, is_main: bool, clips: Vec<SourceClip>) -> SourceTrack {
    SourceTrack {
        kind,
        is_main,
        clips,
    }
}

fn one_clip_project() -> SourceProject {
    project(
        vec![track(TrackKind::Video, true, vec![clip("c1", "m1", 0, 300)])],
        vec![media("m1", true)],
    )
}

#[test]
fn the_selection_wins_when_it_has_audio() {
    let source = auto_source(&one_clip_project(), "c1", 900);
    assert_eq!(source.clip_id, "c1");
    assert_eq!(source.name, "m1.mp4");
    assert_eq!(source.reason, "");
}

#[test]
fn the_playhead_picks_the_main_lane_over_an_overlay() {
    let project = project(
        vec![
            track(TrackKind::Video, false, vec![clip("overlay", "m2", 0, 300)]),
            track(TrackKind::Video, true, vec![clip("main", "m1", 0, 300)]),
        ],
        vec![media("m1", true), media("m2", true)],
    );
    assert_eq!(auto_source(&project, "", 60).clip_id, "main");
}

#[test]
fn a_selection_without_audio_explains_itself() {
    let project = project(
        vec![track(TrackKind::Text, false, vec![clip("title", "", 0, 300)])],
        vec![],
    );
    let source = auto_source(&project, "title", 60);
    assert_eq!(source.clip_id, "");
    assert!(source.reason.contains("no audio"), "{}", source.reason);
}

#[test]
fn nothing_under_the_playhead_asks_for_a_selection() {
    let source = auto_source(&one_clip_project(), "", 9_000);
    assert_eq!(source.clip_id, "");
    assert!(source.reason.contains("Select a clip"), "{}", source.reason);
}

#[test]
fn a_missing_file_is_named_as_the_blocker() {
    let project = project(
        vec![track(TrackKind::Video, true, vec![clip("c1", "m1", 0, 300)])],
        vec![SourceMedia {
            is_missing: true,
            ..media("m1", true)
        }],
    );
    let source = auto_source(&project, "c1", 60);
    assert_eq!(source.clip_id, "");
    assert!(source.reason.contains("missing"), "{}", source.reason);
}

#[test]
fn a_selection_without_audio_falls_back_to_the_playhead() {
    let project = project(
        vec![
            track(TrackKind::Video, true, vec![clip("silent", "m1", 0, 300)]),
            track(TrackKind::Audio, false, vec![clip("voice", "m2", 0, 300)]),
        ],
        vec![media("m1", false), media("m2", true)],
    );
    assert_eq!(auto_source(&project, "silent", 60).clip_id, "voice");
}

#[test]
fn an_audio_lane_is_the_last_resort_and_text_lanes_never_count() {
    let project = project(
        vec![
            track(TrackKind::Text, false, vec![clip("title", "m3", 0, 300)]),
            track(TrackKind::Audio, false, vec![clip("music", "m2", 0, 300)]),
            track(TrackKind::Video, false, vec![clip("broll", "m1", 0, 300)]),
        ],
        vec![media("m1", true), media("m2", true), media("m3", true)],
    );
    assert_eq!(auto_source(&project, "", 0).clip_id, "broll");
}

#[test]
fn a_clip_does_not_cover_its_end_tick() {
    let source = auto_source(&one_clip_project(), "", 300);
    assert_eq!(source.clip_id, "");
}

#[test]
fn an_unreadable_path_is_refused() {
    let project = project(
        vec![track(TrackKind::Video, true, vec![clip("c1", "m1", 0, 300)])],
        vec![SourceMedia {
            path: String::new(),
            ..media("m1", true)
        }],
    );
    assert_eq!(auto_source(&project, "c1", 0).reason, "This clip's file cannot be read");
}

fn rate() -> Rational {
    Rational::new(30, 1)
}

#[test]
fn a_request_carries_the_clips_window_and_a_clamped_line_length() {
    let project = project(
        vec![track(TrackKind::Video, true, vec![clip("c1", "m1", 90, 300)])],
        vec![media("m1", true)],
    );

    let request = auto_request(&project, rate(), "c1", 4, "karaoke_pop").expect("clip is transcribable");
    assert_eq!(request.start_tick, 90);
    assert_eq!(request.duration_ticks, 300);
    assert_eq!(request.media, "m1");
    assert_eq!(request.template, "karaoke_pop");
    assert_eq!(request.layout.max_chars_per_line, MIN_LINE_LENGTH);
}

#[test]
fn a_request_for_a_vanished_clip_is_refused() {
    assert!(auto_request(&one_clip_project(), rate(), "gone", 42, "clean").is_none());
}

#[test]
fn a_request_names_the_file_pins_english_and_clamps_long_lines() {
    let request = auto_request(&one_clip_project(), rate(), "c1", 500, "clean").unwrap();
    assert_eq!(request.path, "/tmp/m1.mp4");
    assert_eq!(request.name, "m1.mp4");
    assert_eq!(request.rate, rate());
    assert_eq!(request.language.as_deref(), Some("en"));
    assert_eq!(request.layout.max_chars_per_line, MAX_LINE_LENGTH);
    assert_eq!(request.layout.max_lines, 2);
    assert_eq!(auto_request(&one_clip_project(), rate(), "c1", 40, "clean").unwrap().layout.max_chars_per_line, 40);
}

#[test]
fn a_request_needs_readable_sound() {
    let silent = project(
        vec![track(TrackKind::Video, true, vec![clip("c1", "m1", 0, 300)])],
        vec![media("m1", false)],
    );
    assert!(auto_request(&silent, rate(), "c1", 32, "clean").is_none());

    let mut gone = media("m1", true);
    gone.is_missing = true;
    let missing = project(vec![track(TrackKind::Video, true, vec![clip("c1", "m1", 0, 300)])], vec![gone]);
    assert!(auto_request(&missing, rate(), "c1", 32, "clean").is_none());

    let mut unreadable = media("m1", true);
    unreadable.path = String::new();
    let unreadable = project(vec![track(TrackKind::Video, true, vec![clip("c1", "m1", 0, 300)])], vec![unreadable]);
    assert!(auto_request(&unreadable, rate(), "c1", 32, "clean").is_none());

    let generated = project(vec![track(TrackKind::Text, false, vec![clip("t1", "", 0, 300)])], vec![]);
    assert!(auto_request(&generated, rate(), "t1", 32, "clean").is_none());
}
