//! Gestures that add a whole caption group in one step: importing a subtitle
//! file, placing a transcription, and a hand-added line at the playhead.
//!
//! Each lands on a text lane, creating one when none will do; a refused group
//! takes the lane it created with it, so a failed gesture leaves the timeline
//! as it found it.

use vstd::prelude::*;

use crate::caption::group::{CaptionFileFormat, CaptionSource};
use crate::caption::layout::{default_layout_spec, CaptionLayout};
use crate::caption::spec::{cue_specs_view, CaptionCueSpec};
use crate::caption::template::template_index;
use crate::error::{CaptionError, ModelError};
use crate::ids::{CaptionGroupId, ClipId, MediaId, TrackId};
use crate::lanes::{first_free_lane, free_text_lane, manual_cue_duration, manual_duration_spec, template_layout};
use crate::project::{group_error_on, group_ok_on, lane_clear, overlaps, placed_cues, resolved_view, CaptionGroupSpec, Project};
use crate::subtitle::{parse_subtitles, place_subtitles, place_subtitles_spec, spec_detect_format, spec_parse_subtitles, subtitles_fault, ImportOptions};
use crate::text::{blank, chars_of, is_blank};
use crate::time::{Rational, RationalTime, TimeRange};
use crate::timeline::{opt_view, Clip, ClipView, GroupView, Timeline, TrackKind};
use crate::timing::Placement;

verus! {

// --- landing a group --------------------------------------------------------

/// `spec`, moved onto lane `lane`.
pub open spec fn on_lane(spec: CaptionGroupSpec, lane: TrackId) -> CaptionGroupSpec {
    CaptionGroupSpec { track: lane, ..spec }
}

/// Two timelines hold the same lanes, clips, groups, rate and next id.
pub open spec fn same_views(a: Timeline, b: Timeline) -> bool {
    &&& a.frame_rate == b.frame_rate
    &&& a.tracks_view() == b.tracks_view()
    &&& a.clips_view() == b.clips_view()
    &&& a.groups_view() == b.groups_view()
    &&& a.next_id == b.next_id
}

/// A gesture's answer with its cue ids as a sequence.
pub open spec fn ids_view(r: Result<(CaptionGroupId, Vec<ClipId>), ModelError>) -> Result<
    (CaptionGroupId, Seq<ClipId>),
    ModelError,
> {
    match r {
        Ok((g, ids)) => Ok((g, ids@)),
        Err(e) => Err(e),
    }
}

/// `after` holds, beside `clips` and `groups`, the group `spec` describes
/// under id `first` and one cue clip per spec of `cues` under the ids after
/// it.
pub open spec fn group_added(
    clips: Map<u64, ClipView>,
    groups: Map<u64, GroupView>,
    first: int,
    spec: CaptionGroupSpec,
    cues: Seq<CaptionCueSpec>,
    group: CaptionGroupId,
    ids: Seq<ClipId>,
    after: Timeline,
) -> bool {
    &&& group.0 == first
    &&& ids.len() == cues.len()
    &&& forall|i: int| 0 <= i < ids.len() ==> (#[trigger] ids[i]).0 == first + 1 + i
    &&& after.groups_view() == groups.insert(first as u64, resolved_view(spec))
    &&& after.clips_view() == placed_cues(clips, spec.track, group, first + 1, cues, cues.len() as int)
    &&& after.next_id == first + cues.len() + 1
}

/// `t1`'s lanes are `t0`'s and, after them, a new text lane `lane` named
/// "Captions".
pub open spec fn new_lane(t0: Timeline, t1: Timeline, lane: TrackId) -> bool {
    &&& t1.tracks@.len() == t0.tracks@.len() + 1
    &&& forall|i: int| 0 <= i < t0.tracks@.len() ==> #[trigger] t1.tracks@[i] == t0.tracks@[i]
    &&& t1.tracks@.last().id == lane
    &&& t1.tracks@.last().kind == TrackKind::Text
    &&& t1.tracks@.last().name@ == "Captions"@
}

/// What adding `spec`'s group with `cues` to `t0` did, giving `r` and
/// leaving `t1`: on the existing lane `lane` when `fresh` is false, else on a
/// new text lane that takes the next id. A refusal leaves `t0` as it was.
pub open spec fn added_on(
    t0: Timeline,
    fresh: bool,
    lane: TrackId,
    spec: CaptionGroupSpec,
    cues: Seq<CaptionCueSpec>,
    r: Result<(CaptionGroupId, Seq<ClipId>), ModelError>,
    t1: Timeline,
) -> bool {
    let s = on_lane(spec, lane);
    let rate = t0.frame_rate;
    if !fresh {
        &&& (r is Ok <==> group_ok_on(t0.tracks_view(), t0.clips_view(), rate, t0.next_id as int, s, cues))
        &&& match r {
            Ok((g, ids)) => t1.tracks@ == t0.tracks@ && group_added(
                t0.clips_view(),
                t0.groups_view(),
                t0.next_id as int,
                s,
                cues,
                g,
                ids,
                t1,
            ),
            Err(e) => same_views(t0, t1) && group_error_on(t0.tracks_view(), t0.clips_view(), rate, s, cues, e),
        }
    } else {
        let tracks = t0.tracks_view().insert(lane.0, TrackKind::Text);
        &&& lane.0 == t0.next_id
        &&& (r is Ok <==> t0.next_id < u64::MAX && group_ok_on(tracks, t0.clips_view(), rate, t0.next_id + 1, s, cues))
        &&& match r {
            Ok((g, ids)) => t1.tracks_view() == tracks && new_lane(t0, t1, lane) && group_added(
                t0.clips_view(),
                t0.groups_view(),
                t0.next_id + 1,
                s,
                cues,
                g,
                ids,
                t1,
            ),
            Err(e) => same_views(t0, t1) && (if t0.next_id == u64::MAX {
                e is InvalidParam
            } else {
                group_error_on(tracks, t0.clips_view(), rate, s, cues, e)
            }),
        }
    }
}

/// A batch landed on the first text lane with room for all of it, or on a
/// new text lane when no lane has room.
pub open spec fn landed(
    t0: Timeline,
    spec: CaptionGroupSpec,
    cues: Seq<CaptionCueSpec>,
    r: Result<(CaptionGroupId, Seq<ClipId>), ModelError>,
    t1: Timeline,
) -> bool {
    match first_free_lane(t0, cues) {
        Some(lane) => added_on(t0, false, lane, spec, cues, r, t1),
        None => added_on(t0, true, TrackId(t0.next_id), spec, cues, r, t1),
    }
}

/// Add `spec`'s group with `cues` on `lane`, or, without one, on a new text
/// lane. A refused group takes its new lane away again.
fn add_on_lane(project: &mut Project, lane: Option<TrackId>, spec: CaptionGroupSpec, cues: &[CaptionCueSpec]) -> (r:
    Result<(CaptionGroupId, Vec<ClipId>), ModelError>)
    requires
        old(project).wf(),
    ensures
        final(project).wf(),
        final(project).timeline.frame_rate == old(project).timeline.frame_rate,
        added_on(
            old(project).timeline,
            lane is None,
            match lane {
                Some(l) => l,
                None => TrackId(old(project).timeline.next_id),
            },
            spec,
            cues@,
            ids_view(r),
            final(project).timeline,
        ),
{
    let ghost s0 = spec;
    let mut spec = spec;
    match lane {
        Some(l) => {
            spec.track = l;
            assert(spec == on_lane(s0, l));
            project.add_caption_group(&spec, cues)
        },
        None => {
            let snapshot = project.timeline.copy();
            let l = match project.add_track(TrackKind::Text, "Captions") {
                Ok(id) => id,
                Err(e) => {
                    project.timeline = snapshot;
                    return Err(e);
                },
            };
            spec.track = l;
            assert(spec == on_lane(s0, l));
            let r = project.add_caption_group(&spec, cues);
            match r {
                Ok(x) => Ok(x),
                Err(e) => {
                    project.timeline = snapshot;
                    Err(e)
                },
            }
        },
    }
}


// --- importing a subtitle file ----------------------------------------------

/// Why a subtitle file did not become a caption group.
#[derive(Debug)]
pub enum CaptionImportError {
    /// The file is neither readable SubRip nor readable WebVTT.
    Parse(CaptionError),
    /// The file reads, but holds no cues.
    Empty,
    /// The file holds more cues than one placement takes.
    TooManyCues(usize),
    /// The cues could not be placed under the template's rules.
    Place(CaptionError),
    /// The timeline refused the group.
    Refused(ModelError),
}

/// The most cues one import places.
pub open spec fn import_limit() -> int {
    0x1000_0000_0000_0000
}

/// The segmentation rules of the template named `template`, or the defaults.
pub open spec fn layout_of(template: Seq<char>) -> CaptionLayout {
    match template_index(template) {
        Some(i) => crate::caption::template::template_layout(i),
        None => default_layout_spec(),
    }
}

/// How an import at `tick` under `template` places its cues: the template's
/// rules, the file's line breaks kept, word timings estimated, caption time
/// zero at `tick` (at least zero).
pub open spec fn import_options(rate: Rational, tick: i64, template: Seq<char>) -> ImportOptions {
    ImportOptions {
        layout: layout_of(template),
        placement: Placement { rate, offset_ticks: if tick < 0 { 0 } else { tick } },
        rewrap: false,
        estimate_words: true,
    }
}

/// `gs` is the group an import of a `format` file describes: the given
/// label, the template's layout and, when one is named, the template.
pub open spec fn import_group(gs: CaptionGroupSpec, format: CaptionFileFormat, label: Seq<char>, template: Seq<char>) -> bool {
    &&& gs.label@ == label
    &&& gs.source == CaptionSource::Imported { format }
    &&& (if template.len() == 0 {
        gs.template is None
    } else {
        gs.template matches Some(t) && t@ == template
    })
    &&& gs.layout == Some(layout_of(template))
    &&& gs.highlight is None
}

/// No cue names a speaker.
pub open spec fn no_speakers(cs: Seq<CaptionCueSpec>) -> bool {
    forall|i: int| 0 <= i < cs.len() ==> (#[trigger] cs[i]).speaker is None
}

/// The imported group and its placed cues, `views`, landed as [`landed`]
/// says.
pub open spec fn import_landed(
    t0: Timeline,
    format: CaptionFileFormat,
    label: Seq<char>,
    template: Seq<char>,
    views: Seq<(Seq<char>, crate::time::TimeRange, Seq<(u32, u32, u32, u32)>)>,
    r: Result<(CaptionGroupId, Seq<ClipId>), ModelError>,
    t1: Timeline,
) -> bool {
    exists|gs: CaptionGroupSpec, cs: Seq<CaptionCueSpec>|
        #[trigger] landed(t0, gs, cs, r, t1) && import_group(gs, format, label, template) && cue_specs_view(cs)
            == views && no_speakers(cs)
}

/// An import's answer as the timeline's: its ids, or the refusal.
pub open spec fn refusal_view(r: Result<(CaptionGroupId, Vec<ClipId>), CaptionImportError>) -> Result<
    (CaptionGroupId, Seq<ClipId>),
    ModelError,
> {
    match r {
        Ok((g, ids)) => Ok((g, ids@)),
        Err(CaptionImportError::Refused(e)) => Err(e),
        Err(_) => Err(ModelError::InvalidRange),
    }
}

/// What importing `input` at `tick` under `template` as `label` did to `t0`,
/// giving `r` and leaving `t1`: the file is read in the format its header
/// names, its cues placed, and the group landed; every refusal before the
/// group is added leaves the timeline alone.
pub open spec fn import_outcome(
    t0: Timeline,
    input: Seq<char>,
    label: Seq<char>,
    tick: i64,
    template: Seq<char>,
    r: Result<(CaptionGroupId, Vec<ClipId>), CaptionImportError>,
    t1: Timeline,
) -> bool {
    match spec_parse_subtitles(input) {
        Err(line) => same_views(t0, t1) && (r matches Err(CaptionImportError::Parse(e)) && e.parse_line() == Some(
            line,
        ) && e.parse_message() == subtitles_fault(input)),
        Ok(cues) => if cues.len() == 0 {
            same_views(t0, t1) && (r matches Err(CaptionImportError::Empty))
        } else if cues.len() > import_limit() {
            same_views(t0, t1) && (r matches Err(CaptionImportError::TooManyCues(n)) && n == cues.len())
        } else {
            match place_subtitles_spec(cues, import_options(t0.frame_rate, tick, template)) {
                Err(_) => same_views(t0, t1) && (r matches Err(CaptionImportError::Place(e)) && e is Rules),
                Ok(views) => (r is Ok || r matches Err(CaptionImportError::Refused(_))) && import_landed(
                    t0,
                    spec_detect_format(input),
                    label,
                    template,
                    views,
                    refusal_view(r),
                    t1,
                ),
            }
        },
    }
}

/// Read `input` as a SubRip or WebVTT file (its header decides) and place its
/// cues as one caption group whose caption time zero lands at `tick` (at
/// least zero), labelled `label`, in the look of `template` when one is named.
///
/// The file's own line breaks are kept; word timings are estimated so the
/// group can still drive a word highlight. The group goes on the first text
/// lane with room for every cue, or on a new text lane; a refused group
/// leaves no lane behind.
pub fn import_subtitles(project: &mut Project, input: &str, label: &str, tick: i64, template: &str) -> (r: Result<
    (CaptionGroupId, Vec<ClipId>),
    CaptionImportError,
>)
    requires
        old(project).wf(),
    ensures
        final(project).wf(),
        final(project).timeline.frame_rate == old(project).timeline.frame_rate,
        import_outcome(old(project).timeline, input@, label@, tick, template@, r, final(project).timeline),
{
    let ghost t0 = project.timeline;
    let (format, cues) = match parse_subtitles(input) {
        Ok(parsed) => parsed,
        Err(e) => {
            return Err(CaptionImportError::Parse(e));
        },
    };
    proof {
        assert(crate::subtitle::cues_view(cues@).len() == cues@.len());
    }
    if cues.len() == 0 {
        return Err(CaptionImportError::Empty);
    }
    if cues.len() as u64 > 0x1000_0000_0000_0000u64 {
        return Err(CaptionImportError::TooManyCues(cues.len()));
    }
    let rate = project.timeline.frame_rate;
    let layout = template_layout(template);
    let desired: i64 = if tick < 0 {
        0
    } else {
        tick
    };
    let mut options = ImportOptions::new(Placement::new(rate, desired)).with_layout(layout);
    options.estimate_words = true;
    assert(options == import_options(rate, tick, template@));
    let specs = match place_subtitles(&cues, &options) {
        Ok(specs) => specs,
        Err(e) => {
            return Err(CaptionImportError::Place(e));
        },
    };
    let lane = free_text_lane(&project.timeline, &specs);
    let mut spec = CaptionGroupSpec::manual(TrackId(0), label);
    spec.source = CaptionSource::Imported { format };
    spec.layout = Some(layout);
    if chars_of(template).len() > 0 {
        spec = spec.with_template(template);
    }
    let ghost gs = spec;
    assert(import_group(gs, format, label@, template@));
    let added = add_on_lane(project, lane, spec, &specs);
    proof {
        assert(landed(t0, gs, specs@, ids_view(added), project.timeline));
    }
    match added {
        Ok(x) => {
            assert(refusal_view(Ok(x)) == ids_view(added));
            Ok(x)
        },
        Err(e) => {
            assert(refusal_view(Err(CaptionImportError::Refused(e))) == ids_view(added));
            Err(CaptionImportError::Refused(e))
        },
    }
}


// --- placing a transcription ------------------------------------------------

/// `pool` holds media `media`.
pub open spec fn in_pool(pool: Seq<MediaId>, media: u64) -> bool {
    exists|i: int| 0 <= i < pool.len() && (#[trigger] pool[i]).0 == media
}

/// `gs` is the group a transcription of `media` describes: its label, the
/// recognizer's language and model, the layout it was segmented with and,
/// when one is named, the template.
pub open spec fn transcribed_group(
    gs: CaptionGroupSpec,
    media: u64,
    label: Seq<char>,
    language: Option<Seq<char>>,
    model: Seq<char>,
    layout: CaptionLayout,
    template: Seq<char>,
) -> bool {
    &&& gs.label@ == label
    &&& (gs.source matches CaptionSource::Auto { media: m, language: l, model: md } && m == MediaId(media)
        && opt_view(l) == language && md@ == model)
    &&& (if template.len() == 0 {
        gs.template is None
    } else {
        gs.template matches Some(t) && t@ == template
    })
    &&& gs.layout == Some(layout)
    &&& gs.highlight is None
}

/// `r` is the count of what `out` placed, or its refusal.
pub open spec fn counted(r: Result<usize, ModelError>, out: Result<(CaptionGroupId, Seq<ClipId>), ModelError>) -> bool {
    match r {
        Ok(n) => out is Ok && n == out->Ok_0.1.len(),
        Err(e) => out == Err::<(CaptionGroupId, Seq<ClipId>), ModelError>(e),
    }
}

/// The transcription's group landed as [`landed`] says, answering `r`.
pub open spec fn transcribed_landed(
    t0: Timeline,
    media: u64,
    label: Seq<char>,
    language: Option<Seq<char>>,
    model: Seq<char>,
    layout: CaptionLayout,
    template: Seq<char>,
    cues: Seq<CaptionCueSpec>,
    r: Result<usize, ModelError>,
    t1: Timeline,
) -> bool {
    exists|gs: CaptionGroupSpec, out: Result<(CaptionGroupId, Seq<ClipId>), ModelError>|
        #[trigger] landed(t0, gs, cues, out, t1) && transcribed_group(gs, media, label, language, model, layout, template)
            && counted(r, out)
}

/// Whether `pool` holds media `media`.
fn pool_has(pool: &[MediaId], media: u64) -> (b: bool)
    ensures
        b == in_pool(pool@, media),
{
    let mut i: usize = 0;
    while i < pool.len()
        invariant
            i <= pool@.len(),
            forall|j: int| 0 <= j < i ==> (#[trigger] pool@[j]).0 != media,
        decreases pool@.len() - i,
    {
        if pool[i].0 == media {
            return true;
        }
        i += 1;
    }
    false
}

/// Place transcribed cues as one auto-sourced caption group, recording which
/// asset and recognizer model produced them so a later pass can be compared
/// against this one. The cues were segmented on the timeline's clock and are
/// placed as they are, on the first text lane with room for all of them or
/// on a new text lane.
///
/// Refused, with the timeline untouched, when `media` is no longer in the
/// project's `pool` or when the group is refused; otherwise answers how many
/// cues were placed.
pub fn add_transcribed(
    project: &mut Project,
    pool: &[MediaId],
    media: u64,
    cues: &[CaptionCueSpec],
    label: String,
    language: Option<String>,
    model: String,
    layout: CaptionLayout,
    template: &str,
) -> (r: Result<usize, ModelError>)
    requires
        old(project).wf(),
    ensures
        final(project).wf(),
        final(project).timeline.frame_rate == old(project).timeline.frame_rate,
        !in_pool(pool@, media) ==> r == Err::<usize, ModelError>(ModelError::UnknownMedia(MediaId(media)))
            && same_views(old(project).timeline, final(project).timeline),
        in_pool(pool@, media) ==> transcribed_landed(
            old(project).timeline,
            media,
            label@,
            opt_view(language),
            model@,
            layout,
            template@,
            cues@,
            r,
            final(project).timeline,
        ),
        r matches Ok(n) ==> n == cues@.len(),
{
    let ghost t0 = project.timeline;
    if !pool_has(pool, media) {
        return Err(ModelError::UnknownMedia(MediaId(media)));
    }
    let lane = free_text_lane(&project.timeline, cues);
    let mut spec = CaptionGroupSpec {
        track: TrackId(0),
        label,
        source: CaptionSource::Auto { media: MediaId(media), language, model },
        template: None,
        layout: Some(layout),
        highlight: None,
    };
    if chars_of(template).len() > 0 {
        spec = spec.with_template(template);
    }
    let ghost gs = spec;
    assert(transcribed_group(gs, media, label@, opt_view(language), model@, layout, template@));
    let added = add_on_lane(project, lane, spec, cues);
    proof {
        assert(landed(t0, gs, cues@, ids_view(added), project.timeline));
    }
    match added {
        Ok((_, ids)) => {
            assert(counted(Ok(ids.len()), ids_view(added)));
            Ok(ids.len())
        },
        Err(e) => {
            assert(counted(Err(e), ids_view(added)));
            Err(e)
        },
    }
}


// --- a hand-added line ------------------------------------------------------

/// A line of `d` ticks from `s`, at `rate`.
pub open spec fn line_range(s: i64, d: i64, rate: Rational) -> TimeRange {
    TimeRange { start: RationalTime { value: s, rate }, duration: RationalTime { value: d, rate } }
}

/// `s` is the first start at or after `from` where a line of `d` ticks
/// clears every clip on `track`.
pub open spec fn first_fit(m: Map<u64, ClipView>, track: TrackId, from: i64, d: i64, rate: Rational, s: i64) -> bool {
    &&& from <= s
    &&& lane_clear(m, track, line_range(s, d, rate))
    &&& forall|x: i64| from <= x < s ==> !lane_clear(m, track, #[trigger] line_range(x, d, rate))
}

/// How many clips on `track` end after tick `s`.
pub open spec fn ending_after(cs: Seq<Clip>, track: TrackId, s: int) -> nat
    decreases cs.len(),
{
    if cs.len() == 0 {
        0
    } else {
        ending_after(cs.drop_last(), track, s) + if cs.last().track == track && cs.last().timeline.spec_end() > s {
            1nat
        } else {
            0nat
        }
    }
}

proof fn lemma_ending_after_mono(cs: Seq<Clip>, track: TrackId, s: int, s2: int)
    requires
        s <= s2,
    ensures
        ending_after(cs, track, s2) <= ending_after(cs, track, s),
    decreases cs.len(),
{
    if cs.len() > 0 {
        lemma_ending_after_mono(cs.drop_last(), track, s, s2);
    }
}

/// Moving past the end of a clip that ended after `s` leaves fewer clips
/// ahead.
proof fn lemma_ending_after_drops(cs: Seq<Clip>, track: TrackId, s: int, s2: int, j: int)
    requires
        0 <= j < cs.len(),
        cs[j].track == track,
        s < cs[j].timeline.spec_end() <= s2,
    ensures
        ending_after(cs, track, s2) < ending_after(cs, track, s),
    decreases cs.len(),
{
    lemma_ending_after_mono(cs.drop_last(), track, s, s2);
    if j < cs.len() - 1 {
        assert(cs.drop_last()[j] == cs[j]);
        lemma_ending_after_drops(cs.drop_last(), track, s, s2, j);
    }
}

/// The index of a clip on `track` that shares a tick with `range`, if any.
fn overlapping_clip(timeline: &Timeline, track: TrackId, range: TimeRange) -> (r: Option<usize>)
    requires
        timeline.wf(),
    ensures
        match r {
            Some(i) => i < timeline.clips@.len() && timeline.clips@[i as int].track == track && overlaps(
                timeline.clips@[i as int].timeline,
                range,
            ),
            None => lane_clear(timeline.clips_view(), track, range),
        },
{
    let end = range.end_tick();
    let mut i: usize = 0;
    while i < timeline.clips.len()
        invariant
            timeline.wf(),
            end == range.spec_end(),
            i <= timeline.clips@.len(),
            forall|j: int|
                0 <= j < i && (#[trigger] timeline.clips@[j]).track == track ==> !overlaps(
                    timeline.clips@[j].timeline,
                    range,
                ),
        decreases timeline.clips@.len() - i,
    {
        let c = &timeline.clips[i];
        if c.track == track {
            let c_end = c.timeline.end_tick();
            if c.timeline.start.value < end && range.start.value < c_end {
                return Some(i);
            }
        }
        i += 1;
    }
    proof {
        let m = timeline.clips_view();
        assert forall|k: u64| m.dom().contains(k) && (#[trigger] m[k]).track == track implies !overlaps(
            m[k].timeline,
            range,
        ) by {
            let j = choose|j: int| 0 <= j < timeline.clips@.len() && #[trigger] timeline.clips@[j].id.0 == k;
            timeline.lemma_clip_at(j);
        }
    }
    None
}

/// The first start at or after `from` where a line of `d` ticks fits on
/// `track`: past every clip it would collide with, in turn.
fn first_fit_start(timeline: &Timeline, track: TrackId, from: i64, d: i64, rate: Rational) -> (s: i64)
    requires
        timeline.wf(),
    ensures
        first_fit(timeline.clips_view(), track, from, d, rate, s),
{
    let ghost m = timeline.clips_view();
    let mut s = from;
    loop
        invariant
            timeline.wf(),
            m == timeline.clips_view(),
            from <= s,
            forall|x: i64| from <= x < s ==> !lane_clear(m, track, #[trigger] line_range(x, d, rate)),
        decreases ending_after(timeline.clips@, track, s as int),
    {
        let range = TimeRange::at_rate(s, d, rate);
        match overlapping_clip(timeline, track, range) {
            None => {
                return s;
            },
            Some(i) => {
                let next = timeline.clips[i].timeline.end_tick();
                proof {
                    let c = timeline.clips@[i as int];
                    timeline.lemma_clip_at(i as int);
                    assert forall|x: i64| from <= x < next implies !lane_clear(
                        m,
                        track,
                        #[trigger] line_range(x, d, rate),
                    ) by {
                        if x >= s {
                            assert(line_range(x, d, rate).spec_end() >= range.spec_end());
                            assert(m[c.id.0].track == track);
                            assert(overlaps(m[c.id.0].timeline, line_range(x, d, rate)));
                        }
                    }
                    lemma_ending_after_drops(timeline.clips@, track, s as int, next as int, i as int);
                }
                s = next;
            },
        }
    }
}

/// The lane a hand-added line goes on: `track` when it names a text lane,
/// else `None` (a new text lane).
pub open spec fn manual_lane(t: Timeline, track: Option<TrackId>) -> Option<TrackId> {
    match track {
        Some(l) => if t.tracks_view().dom().contains(l.0) && t.tracks_view()[l.0] == TrackKind::Text {
            Some(l)
        } else {
            None
        },
        None => None,
    }
}

/// `gs` is the group a hand-added line starts: labelled "Captions", typed
/// in the editor, in the look of `template` when one is named.
pub open spec fn manual_group(gs: CaptionGroupSpec, template: Seq<char>) -> bool {
    &&& gs.label@ == "Captions"@
    &&& gs.source == CaptionSource::Manual
    &&& (if template.len() == 0 {
        gs.template is None
    } else {
        gs.template matches Some(t) && t@ == template
    })
    &&& gs.layout is None
    &&& gs.highlight is None
}

/// `c` is a hand-added line showing `text` (or "Caption" when `text` is
/// blank) for `d` ticks at `rate`, with no word timings and no speaker.
pub open spec fn manual_cue(c: CaptionCueSpec, text: Seq<char>, d: i64, rate: Rational) -> bool {
    &&& c.text@ == (if is_blank(text) {
        "Caption"@
    } else {
        text
    })
    &&& c.timeline == line_range(c.timeline.start.value, d, rate)
    &&& c.words@.len() == 0
    &&& c.speaker is None
}

/// A one-line answer as the timeline's.
pub open spec fn line_view(r: Result<(CaptionGroupId, ClipId), ModelError>) -> Result<
    (CaptionGroupId, Seq<ClipId>),
    ModelError,
> {
    match r {
        Ok((g, c)) => Ok((g, seq![c])),
        Err(e) => Err(e),
    }
}

/// The line's group landed on the lane [`manual_lane`] picks, or on a new
/// text lane.
pub open spec fn line_added(
    t0: Timeline,
    track: Option<TrackId>,
    gs: CaptionGroupSpec,
    c: CaptionCueSpec,
    r: Result<(CaptionGroupId, ClipId), ModelError>,
    t1: Timeline,
) -> bool {
    match manual_lane(t0, track) {
        Some(l) => added_on(t0, false, l, gs, seq![c], line_view(r), t1),
        None => added_on(t0, true, TrackId(t0.next_id), gs, seq![c], line_view(r), t1),
    }
}

/// What adding a hand-typed line did: it lasts the hand-added hold, starts
/// at the first free start at or after `tick` (at least zero) on the named
/// text lane, or at that tick on a new text lane.
pub open spec fn manual_landed(
    t0: Timeline,
    track: Option<TrackId>,
    tick: i64,
    text: Seq<char>,
    template: Seq<char>,
    r: Result<(CaptionGroupId, ClipId), ModelError>,
    t1: Timeline,
) -> bool {
    let rate = t0.frame_rate;
    let d = manual_duration_spec(rate) as i64;
    let desired: i64 = if tick < 0 {
        0
    } else {
        tick
    };
    exists|gs: CaptionGroupSpec, c: CaptionCueSpec|
        #[trigger] line_added(t0, track, gs, c, r, t1) && manual_group(gs, template) && manual_cue(c, text, d, rate)
            && match manual_lane(t0, track) {
            Some(l) => first_fit(t0.clips_view(), l, desired, d, rate, c.timeline.start.value),
            None => c.timeline.start.value == desired,
        }
}

/// Add one hand-typed caption line at the playhead `tick`, as a new group
/// in the look of `template`.
///
/// On `track`, when it names a text lane, the line slides later past the
/// clips it would collide with; otherwise it goes on a new text lane at
/// `tick`. A blank line reads "Caption" so there is something to click. A
/// refused group leaves no lane behind.
pub fn add_manual_group(project: &mut Project, track: Option<TrackId>, tick: i64, text: String, template: &str) -> (r:
    Result<(CaptionGroupId, ClipId), ModelError>)
    requires
        old(project).wf(),
    ensures
        final(project).wf(),
        final(project).timeline.frame_rate == old(project).timeline.frame_rate,
        manual_landed(old(project).timeline, track, tick, text@, template@, r, final(project).timeline),
{
    let ghost t0 = project.timeline;
    let rate = project.timeline.frame_rate;
    let duration = manual_cue_duration(rate);
    let desired: i64 = if tick < 0 {
        0
    } else {
        tick
    };
    let lane = match track {
        Some(l) => match project.timeline.track_kind(l) {
            Some(kind) => if kind == TrackKind::Text {
                Some(l)
            } else {
                None
            },
            None => None,
        },
        None => None,
    };
    assert(lane == manual_lane(t0, track));
    let start = match lane {
        Some(l) => first_fit_start(&project.timeline, l, desired, duration, rate),
        None => desired,
    };
    let mut spec = CaptionGroupSpec::manual(TrackId(0), "Captions");
    if chars_of(template).len() > 0 {
        spec = spec.with_template(template);
    }
    let chars = chars_of(text.as_str());
    let shown: &str = if blank(&chars) {
        "Caption"
    } else {
        text.as_str()
    };
    let cue = CaptionCueSpec::new(shown, TimeRange::at_rate(start, duration, rate));
    let ghost gs = spec;
    let ghost c = cue;
    assert(manual_group(gs, template@));
    assert(manual_cue(c, text@, duration, rate));
    let mut cues: Vec<CaptionCueSpec> = Vec::new();
    cues.push(cue);
    assert(cues@ =~= seq![c]);
    let added = add_on_lane(project, lane, spec, cues.as_slice());
    match added {
        Ok((g, ids)) => {
            let id = ids[0];
            assert(ids@ =~= seq![id]);
            assert(line_added(t0, track, gs, c, Ok((g, id)), project.timeline));
            Ok((g, id))
        },
        Err(e) => {
            assert(line_added(t0, track, gs, c, Err(e), project.timeline));
            Err(e)
        },
    }
}

} // verus!
