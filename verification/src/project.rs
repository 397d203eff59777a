//! Caption edits on a project: the model-side chokepoint every platform
//! shares.
//!
//! Cues are ordinary text clips, so what belongs here is everything that
//! treats a group as one thing: creating a batch of cues atomically, re-timing
//! a line's word table when its text changes, splitting and merging cues with
//! their timings, and keeping cue numbers dense.

use vstd::prelude::*;

use crate::caption::cue::{views_valid, words_view, CaptionCue, CaptionWord};
use crate::caption::group::CaptionSource;
use crate::caption::highlight::CaptionHighlightMode;
use crate::caption::layout::{default_layout_spec, layout_valid, CaptionLayout};
use crate::caption::spec::{cue_spec_error, CaptionCueSpec, MAX_CAPTION_CUES};
use crate::caption::template::{caption_template_spec, template_index, template_layout, template_rules};
use crate::error::ModelError;
use crate::ids::{CaptionGroupId, ClipId, TrackId};
use crate::text::{blank, byte_len, chars_of, is_blank, string_of, utf8_len};
use crate::reflow::{lemma_tokens, tokens, tokens_ok};
use crate::edit::{merge_parts, merged_text, merged_words, part_view, MergePart, ends_ascending, rebase_after, retime_spec, retime_words, shift_ranges, split_text, split_text_spec, split_words};
use crate::timing::{spec_ms, Placement};
use crate::time::{Rational, RationalTime, TimeRange};
use crate::timeline::{
    lemma_clip_map_at, lemma_group_map_at, clip_ids, clip_view, copy_opt, copy_source, cue_before, cue_order, group_view, is_cue_in, opt_view, raw_ids,
    reindexed, group_in_use, source_view, insert_key, key_lt, keys_sorted, CaptionGroup, Clip, ClipView, CueView, GroupView, Timeline, TrackKind,
};

verus! {

/// Two ranges share a tick.
pub open spec fn overlaps(a: TimeRange, b: TimeRange) -> bool {
    a.start.value < b.spec_end() && b.start.value < a.spec_end()
}

/// No clip on `track` shares a tick with `range`.
pub open spec fn lane_clear(m: Map<u64, ClipView>, track: TrackId, range: TimeRange) -> bool {
    forall|k: u64| m.dom().contains(k) && (#[trigger] m[k]).track == track ==> !overlaps(m[k].timeline, range)
}

/// Whether some clip on `track` shares a tick with `range`.
pub(crate) fn lane_overlaps(timeline: &Timeline, track: TrackId, range: TimeRange) -> (r: bool)
    requires
        timeline.wf(),
    ensures
        r == !lane_clear(timeline.clips_view(), track, range),
{
    let end = range.end_tick();
    let mut i: usize = 0;
    while i < timeline.clips.len()
        invariant
            timeline.wf(),
            end == range.spec_end(),
            i <= timeline.clips@.len(),
            forall|j: int|
                0 <= j < i && (#[trigger] timeline.clips@[j]).track == track ==> !overlaps(
                    timeline.clips@[j].timeline,
                    range,
                ),
        decreases timeline.clips@.len() - i,
    {
        let c = &timeline.clips[i];
        if c.track == track {
            let c_end = c.timeline.end_tick();
            if c.timeline.start.value < end && range.start.value < c_end {
                proof {
                    timeline.lemma_clip_at(i as int);
                }
                return true;
            }
        }
        i += 1;
    }
    proof {
        let m = timeline.clips_view();
        assert forall|k: u64| m.dom().contains(k) && (#[trigger] m[k]).track == track implies !overlaps(
            m[k].timeline,
            range,
        ) by {
            let j = choose|j: int| 0 <= j < timeline.clips@.len() && #[trigger] timeline.clips@[j].id.0 == k;
            timeline.lemma_clip_at(j);
        }
    }
    false
}

/// Everything needed to create a [`CaptionGroup`], minus the id the timeline
/// allocates. `layout` and `highlight` fall back to the named template, then
/// to the defaults, when omitted.
#[derive(Debug)]
pub struct CaptionGroupSpec {
    /// The text lane the cues land on.
    pub track: TrackId,
    /// Display name for the caption list.
    pub label: String,
    pub source: CaptionSource,
    /// Caption template id.
    pub template: Option<String>,
    pub layout: Option<CaptionLayout>,
    pub highlight: Option<CaptionHighlightMode>,
}

/// The rules a spec resolves to: its own, else its template's, else the
/// defaults.
pub open spec fn resolved_layout(spec: CaptionGroupSpec) -> CaptionLayout {
    match spec.layout {
        Some(l) => l,
        None => match spec.template {
            Some(t) => match template_index(t@) {
                Some(i) => template_layout(i),
                None => default_layout_spec(),
            },
            None => default_layout_spec(),
        },
    }
}

/// The highlight a spec resolves to: its own, else its template's.
pub open spec fn resolved_highlight(spec: CaptionGroupSpec) -> Option<CaptionHighlightMode> {
    match spec.highlight {
        Some(h) => Some(h),
        None => match spec.template {
            Some(t) => match template_index(t@) {
                Some(i) => template_rules(i).2,
                None => None,
            },
            None => None,
        },
    }
}

/// Whether a group record is usable: a label of at most 256 bytes, usable
/// rules, and a template id the catalog knows.
pub open spec fn group_valid(v: GroupView) -> bool {
    &&& utf8_len(v.label) <= 256
    &&& layout_valid(v.layout)
    &&& (v.template matches Some(t) ==> template_index(t) is Some)
}

/// The group a spec resolves to under id `id`.
pub open spec fn resolved_view(spec: CaptionGroupSpec) -> GroupView {
    GroupView {
        label: spec.label@,
        track: spec.track,
        layout: resolved_layout(spec),
        source: source_view(spec.source),
        template: opt_view(spec.template),
        highlight: resolved_highlight(spec),
    }
}

impl CaptionGroupSpec {
    /// A spec for hand-typed captions on `track`.
    pub fn manual(track: TrackId, label: &str) -> (s: CaptionGroupSpec)
        ensures
            s.track == track,
            s.label@ == label@,
            s.source == CaptionSource::Manual,
            s.template is None,
            s.layout is None,
            s.highlight is None,
    {
        CaptionGroupSpec {
            track,
            label: string_of(chars_of(label).as_slice()),
            source: CaptionSource::Manual,
            template: None,
            layout: None,
            highlight: None,
        }
    }

    /// The same spec, in the look of template `template`.
    pub fn with_template(self, template: &str) -> (s: CaptionGroupSpec)
        ensures
            s.track == self.track,
            s.label == self.label,
            s.source == self.source,
            s.template matches Some(t) && t@ == template@,
            s.layout == self.layout,
            s.highlight == self.highlight,
    {
        CaptionGroupSpec { template: Some(string_of(chars_of(template).as_slice())), ..self }
    }

    /// Resolve into a group record under `id`, filling unset fields from the
    /// template. Refused (`InvalidParam`) for an unknown template and for a
    /// record that would not be valid.
    pub fn resolve(&self, id: CaptionGroupId) -> (r: Result<CaptionGroup, ModelError>)
        ensures
            r is Ok <==> (self.template matches Some(t) ==> template_index(t@) is Some) && group_valid(
                resolved_view(*self),
            ),
            match r {
                Ok(g) => g.id == id && group_view(g) == resolved_view(*self),
                Err(e) => e is InvalidParam,
            },
    {
        let mut layout = CaptionLayout::default_layout();
        let mut highlight: Option<CaptionHighlightMode> = None;
        match &self.template {
            Some(t) => match caption_template_spec(t.as_str()) {
                Some(found) => {
                    layout = found.layout();
                    highlight = found.highlight;
                },
                None => {
                    return Err(ModelError::invalid(chars_of("unknown caption template")));
                },
            },
            None => {},
        }
        match self.layout {
            Some(l) => {
                layout = l;
            },
            None => {},
        }
        match self.highlight {
            Some(h) => {
                highlight = Some(h);
            },
            None => {},
        }
        let group = CaptionGroup {
            id,
            label: self.label.clone(),
            track: self.track,
            layout,
            source: copy_source(&self.source),
            template: copy_opt(&self.template),
            highlight,
        };
        assert(group_view(group) == resolved_view(*self));
        match group.validate() {
            Ok(()) => Ok(group),
            Err(e) => Err(e),
        }
    }
}

impl CaptionGroup {
    /// Check the record: `Ok` exactly when [`group_valid`] holds, otherwise
    /// `InvalidParam`.
    pub fn validate(&self) -> (r: Result<(), ModelError>)
        ensures
            r is Ok <==> group_valid(group_view(*self)),
            r matches Err(e) ==> e is InvalidParam,
    {
        if byte_len(self.label.as_str()) > 256 {
            return Err(ModelError::invalid(chars_of("caption group label is too long (max 256 bytes)")));
        }
        match self.layout.validate() {
            Ok(()) => {},
            Err(_) => {
                return Err(ModelError::invalid(chars_of("invalid caption layout")));
            },
        }
        match &self.template {
            Some(t) => {
                if caption_template_spec(t.as_str()).is_none() {
                    return Err(ModelError::invalid(chars_of("unknown caption template")));
                }
            },
            None => {},
        }
        Ok(())
    }
}

/// Where cue `i` of a batch may not start before: the end of cue `i - 1`.
pub open spec fn prev_end(cues: Seq<CaptionCueSpec>, i: int) -> int {
    if i == 0 {
        i64::MIN as int
    } else {
        cues[i - 1].timeline.spec_end()
    }
}

/// What is wrong with placing cue `i` of a batch on `track`: `0` nothing,
/// `1` an empty or negative range, `2` blank text or a bad word table, `3` a
/// rate other than the timeline's, `4` starting before the previous cue ends,
/// `5` colliding with a clip already on the lane.
pub open spec fn cue_fault(m: Map<u64, ClipView>, track: TrackId, rate: Rational, cues: Seq<CaptionCueSpec>, i: int) -> int {
    let c = cues[i];
    match cue_spec_error(c.text@, c.timeline, words_view(c.words@)) {
        Some(true) => 1,
        Some(false) => 2,
        None => if c.timeline.start.rate != rate || c.timeline.duration.rate != rate {
            3
        } else if c.timeline.start.value < prev_end(cues, i) {
            4
        } else if !lane_clear(m, track, c.timeline) {
            5
        } else {
            0
        },
    }
}

/// The error a placement fault of kind `kind` is reported as.
pub open spec fn fault_error(e: ModelError, kind: int, track: TrackId) -> bool {
    if kind == 1 {
        e is InvalidRange
    } else if kind == 5 {
        e == ModelError::Overlap(track)
    } else {
        e is InvalidParam
    }
}

/// Every cue of the batch can be placed.
pub open spec fn placements_ok(m: Map<u64, ClipView>, track: TrackId, rate: Rational, cues: Seq<CaptionCueSpec>) -> bool {
    forall|i: int| 0 <= i < cues.len() ==> #[trigger] cue_fault(m, track, rate, cues, i) == 0
}

/// `e` reports the first cue of the batch that cannot be placed.
pub open spec fn placement_error(
    m: Map<u64, ClipView>,
    track: TrackId,
    rate: Rational,
    cues: Seq<CaptionCueSpec>,
    e: ModelError,
) -> bool {
    exists|i: int|
        0 <= i < cues.len() && #[trigger] cue_fault(m, track, rate, cues, i) != 0 && (forall|j: int|
            0 <= j < i ==> #[trigger] cue_fault(m, track, rate, cues, j) == 0) && fault_error(
            e,
            cue_fault(m, track, rate, cues, i),
            track,
        )
}

/// The clips of a new group: cue `i` of the batch as clip `first + i` on
/// `track`, numbered `i` in group `group`.
pub open spec fn placed_cues(
    m: Map<u64, ClipView>,
    track: TrackId,
    group: CaptionGroupId,
    first: int,
    cues: Seq<CaptionCueSpec>,
    n: int,
) -> Map<u64, ClipView>
    decreases n,
{
    if n <= 0 {
        m
    } else {
        let c = cues[n - 1];
        placed_cues(m, track, group, first, cues, n - 1).insert(
            (first + n - 1) as u64,
            ClipView {
                track,
                timeline: c.timeline,
                text: Some(c.text@),
                caption: Some(
                    CueView {
                        group,
                        index: (n - 1) as u32,
                        words: words_view(c.words@),
                        speaker: opt_view(c.speaker),
                        text_edited: false,
                        style_override: false,
                    },
                ),
            },
        )
    }
}

/// Whether a group from `spec` with cues `cues` can be added to a timeline
/// with these lanes, clips, rate and next id.
pub open spec fn group_ok_on(
    tracks: Map<u64, TrackKind>,
    clips: Map<u64, ClipView>,
    rate: Rational,
    next_id: int,
    spec: CaptionGroupSpec,
    cues: Seq<CaptionCueSpec>,
) -> bool {
    &&& 0 < cues.len() <= MAX_CAPTION_CUES
    &&& tracks.dom().contains(spec.track.0)
    &&& tracks[spec.track.0] == TrackKind::Text
    &&& placements_ok(clips, spec.track, rate, cues)
    &&& (spec.template matches Some(t) ==> template_index(t@) is Some)
    &&& group_valid(resolved_view(spec))
    &&& next_id + cues.len() + 1 <= u64::MAX
}

/// The error adding such a group reports: the first check that fails.
pub open spec fn group_error_on(
    tracks: Map<u64, TrackKind>,
    clips: Map<u64, ClipView>,
    rate: Rational,
    spec: CaptionGroupSpec,
    cues: Seq<CaptionCueSpec>,
    e: ModelError,
) -> bool {
    if cues.len() == 0 || cues.len() > MAX_CAPTION_CUES {
        e is InvalidParam
    } else if !tracks.dom().contains(spec.track.0) {
        e == ModelError::UnknownTrack(spec.track)
    } else if tracks[spec.track.0] != TrackKind::Text {
        e == ModelError::IncompatibleTrackKind { track: spec.track, kind: tracks[spec.track.0] }
    } else if !placements_ok(clips, spec.track, rate, cues) {
        placement_error(clips, spec.track, rate, cues, e)
    } else {
        e is InvalidParam
    }
}

/// A project: its timeline and the caption edits on it.
#[derive(Debug)]
pub struct Project {
    pub name: String,
    pub timeline: Timeline,
}

impl Project {
    pub open spec fn wf(&self) -> bool {
        self.timeline.wf()
    }

    /// The views of two projects' timelines agree.
    pub open spec fn same_timeline(&self, other: &Project) -> bool {
        &&& self.timeline.frame_rate == other.timeline.frame_rate
        &&& self.timeline.tracks_view() == other.timeline.tracks_view()
        &&& self.timeline.clips_view() == other.timeline.clips_view()
        &&& self.timeline.groups_view() == other.timeline.groups_view()
        &&& self.timeline.next_id == other.timeline.next_id
    }

    /// An empty project at `frame_rate`.
    pub fn new(name: &str, frame_rate: Rational) -> (p: Project)
        ensures
            p.wf(),
            p.name@ == name@,
            p.timeline.frame_rate == frame_rate,
            p.timeline.clips_view() == Map::<u64, ClipView>::empty(),
            p.timeline.groups_view() == Map::<u64, GroupView>::empty(),
            p.timeline.tracks_view() == Map::<u64, TrackKind>::empty(),
    {
        Project { name: string_of(chars_of(name).as_slice()), timeline: Timeline::new(frame_rate) }
    }

    /// The project's timeline.
    pub fn timeline(&self) -> (t: &Timeline)
        ensures
            *t == self.timeline,
    {
        &self.timeline
    }

    /// The clip with id `id`, if any.
    pub fn clip(&self, id: ClipId) -> (r: Option<&Clip>)
        requires
            self.wf(),
        ensures
            match r {
                Some(c) => {
                    &&& self.timeline.clips_view().dom().contains(id.0)
                    &&& c.id == id
                    &&& clip_view(*c) == self.timeline.clips_view()[id.0]
                },
                None => !self.timeline.clips_view().dom().contains(id.0),
            },
    {
        self.timeline.clip(id)
    }

    /// Add an empty lane of `kind`.
    pub fn add_track(&mut self, kind: TrackKind, name: &str) -> (r: Result<TrackId, ModelError>)
        requires
            old(self).wf(),
        ensures
            final(self).wf(),
            final(self).timeline.clips_view() == old(self).timeline.clips_view(),
            final(self).timeline.groups_view() == old(self).timeline.groups_view(),
            final(self).timeline.frame_rate == old(self).timeline.frame_rate,
            match r {
                Ok(id) => {
                    &&& !old(self).timeline.tracks_view().dom().contains(id.0)
                    &&& final(self).timeline.tracks_view() == old(self).timeline.tracks_view().insert(id.0, kind)
                    &&& final(self).timeline.tracks@.len() == old(self).timeline.tracks@.len() + 1
                    &&& forall|i: int|
                        0 <= i < old(self).timeline.tracks@.len() ==> #[trigger] final(self).timeline.tracks@[i]
                            == old(self).timeline.tracks@[i]
                    &&& final(self).timeline.tracks@.last().id == id && final(self).timeline.tracks@.last().kind == kind
                        && final(self).timeline.tracks@.last().name@ == name@
                    &&& id.0 == old(self).timeline.next_id
                    &&& final(self).timeline.next_id == id.0 + 1
                },
                Err(e) => e is InvalidParam && old(self).timeline.next_id == u64::MAX && final(self).timeline.tracks_view()
                    == old(self).timeline.tracks_view() && final(self).timeline.next_id == old(self).timeline.next_id,
            },
    {
        self.timeline.add_track(kind, name)
    }

    /// `Ok` iff `track` exists and is a text lane.
    pub fn require_text_track(&self, track: TrackId) -> (r: Result<(), ModelError>)
        requires
            self.wf(),
        ensures
            !self.timeline.tracks_view().dom().contains(track.0) ==> r == Err::<(), ModelError>(
                ModelError::UnknownTrack(track),
            ),
            self.timeline.tracks_view().dom().contains(track.0) && self.timeline.tracks_view()[track.0]
                != TrackKind::Text ==> r == Err::<(), ModelError>(
                ModelError::IncompatibleTrackKind { track, kind: self.timeline.tracks_view()[track.0] },
            ),
            r is Ok <==> self.timeline.tracks_view().dom().contains(track.0) && self.timeline.tracks_view()[track.0]
                == TrackKind::Text,
    {
        match self.timeline.track_kind(track) {
            None => Err(ModelError::UnknownTrack(track)),
            Some(kind) => {
                if kind != TrackKind::Text {
                    Err(ModelError::IncompatibleTrackKind { track, kind })
                } else {
                    Ok(())
                }
            },
        }
    }

    /// Check a whole batch of cue placements before any of it is inserted:
    /// each spec is self-consistent and at the timeline's rate, the batch is
    /// ascending and non-overlapping, and nothing collides with the lane's
    /// clips. The error reports the first cue that fails.
    fn validate_cue_placements(&self, track: TrackId, cues: &[CaptionCueSpec]) -> (r: Result<(), ModelError>)
        requires
            self.wf(),
        ensures
            r is Ok <==> placements_ok(self.timeline.clips_view(), track, self.timeline.frame_rate, cues@),
            r matches Err(e) ==> placement_error(
                self.timeline.clips_view(),
                track,
                self.timeline.frame_rate,
                cues@,
                e,
            ),
    {
        let ghost m = self.timeline.clips_view();
        let rate = self.timeline.frame_rate;
        let mut previous_end: i64 = i64::MIN;
        let mut i: usize = 0;
        while i < cues.len()
            invariant
                self.wf(),
                m == self.timeline.clips_view(),
                rate == self.timeline.frame_rate,
                i <= cues@.len(),
                previous_end == prev_end(cues@, i as int),
                forall|j: int| 0 <= j < i ==> #[trigger] cue_fault(m, track, rate, cues@, j) == 0,
            decreases cues@.len() - i,
        {
            let cue = &cues[i];
            let ghost kind = cue_fault(m, track, rate, cues@, i as int);
            match cue.validate() {
                Ok(()) => {},
                Err(e) => {
                    assert(fault_error(e, kind, track));
                    assert(kind != 0);
                    return Err(e);
                },
            }
            if cue.timeline.start.rate != rate || cue.timeline.duration.rate != rate {
                assert(kind == 3);
                return Err(ModelError::invalid(chars_of("caption cues must be at the timeline rate")));
            }
            if cue.timeline.start.value < previous_end {
                assert(kind == 4);
                return Err(ModelError::invalid(chars_of("caption cues must be ascending and non-overlapping")));
            }
            previous_end = cue.timeline.end_tick();
            if lane_overlaps(&self.timeline, track, cue.timeline) {
                assert(kind == 5);
                return Err(ModelError::Overlap(track));
            }
            assert(kind == 0);
            i += 1;
        }
        Ok(())
    }

    /// Whether `add_caption_group(spec, cues)` succeeds on this project.
    pub open spec fn add_group_ok(&self, spec: CaptionGroupSpec, cues: Seq<CaptionCueSpec>) -> bool {
        group_ok_on(
            self.timeline.tracks_view(),
            self.timeline.clips_view(),
            self.timeline.frame_rate,
            self.timeline.next_id as int,
            spec,
            cues,
        )
    }

    /// The error `add_caption_group(spec, cues)` reports: the first check
    /// that fails.
    pub open spec fn add_group_error(&self, spec: CaptionGroupSpec, cues: Seq<CaptionCueSpec>, e: ModelError) -> bool {
        group_error_on(self.timeline.tracks_view(), self.timeline.clips_view(), self.timeline.frame_rate, spec, cues, e)
    }

    /// Create a caption group and place one cue clip per spec, atomically.
    ///
    /// Everything is checked before anything is inserted, including that the
    /// cues are ascending, non-overlapping and clear of the lane's clips, so a
    /// refused batch leaves the timeline and the id allocator untouched. The
    /// group takes the next id and its cues the ids after it, in batch order,
    /// numbered 0, 1, 2, …
    pub fn add_caption_group(&mut self, spec: &CaptionGroupSpec, cues: &[CaptionCueSpec]) -> (r: Result<
        (CaptionGroupId, Vec<ClipId>),
        ModelError,
    >)
        requires
            old(self).wf(),
        ensures
            final(self).wf(),
            final(self).timeline.frame_rate == old(self).timeline.frame_rate,
            final(self).timeline.tracks_view() == old(self).timeline.tracks_view(),
            final(self).timeline.tracks@ == old(self).timeline.tracks@,
            r is Ok <==> old(self).add_group_ok(*spec, cues@),
            match r {
                Ok((group, ids)) => {
                    let first = old(self).timeline.next_id;
                    &&& group.0 == first
                    &&& !old(self).timeline.groups_view().dom().contains(group.0)
                    &&& ids@.len() == cues@.len()
                    &&& forall|i: int| 0 <= i < ids@.len() ==> (#[trigger] ids@[i]).0 == first + 1 + i
                    &&& forall|k: u64| #[trigger] old(self).timeline.clips_view().dom().contains(k) ==> k < first
                    &&& final(self).timeline.groups_view() == old(self).timeline.groups_view().insert(
                        group.0,
                        resolved_view(*spec),
                    )
                    &&& final(self).timeline.clips_view() == placed_cues(
                        old(self).timeline.clips_view(),
                        spec.track,
                        group,
                        first + 1,
                        cues@,
                        cues@.len() as int,
                    )
                    &&& final(self).timeline.next_id == first + cues@.len() + 1
                },
                Err(e) => final(self).same_timeline(old(self)) && old(self).add_group_error(*spec, cues@, e),
            },
    {
        if cues.len() == 0 {
            return Err(ModelError::invalid(chars_of("a caption group needs at least one cue")));
        }
        if cues.len() > MAX_CAPTION_CUES {
            return Err(ModelError::invalid(chars_of("a caption group holds at most 5000 cues")));
        }
        match self.require_text_track(spec.track) {
            Ok(()) => {},
            Err(e) => {
                return Err(e);
            },
        }
        match self.validate_cue_placements(spec.track, cues) {
            Ok(()) => {},
            Err(e) => {
                return Err(e);
            },
        }
        let first = self.timeline.next_id;
        let group = match spec.resolve(CaptionGroupId(first)) {
            Ok(g) => g,
            Err(e) => {
                return Err(e);
            },
        };
        if first as u128 + cues.len() as u128 + 1 > 0xFFFF_FFFF_FFFF_FFFF {
            return Err(ModelError::invalid(chars_of("no ids left for the caption group")));
        }
        proof {
            self.timeline.lemma_ids_below();
        }
        let ghost m0 = self.timeline.clips_view();
        let ghost g0 = self.timeline.groups_view();
        let taken = self.timeline.take_id();
        assert(taken == Ok::<u64, ModelError>(first));
        let group_id = group.id;
        let added = self.timeline.add_caption_group(group);
        assert(added is Ok);
        let mut ids: Vec<ClipId> = Vec::new();
        let mut a: usize = 0;
        while a < cues.len()
            invariant
                self.wf(),
                self.timeline.frame_rate == old(self).timeline.frame_rate,
                self.timeline.tracks_view() == old(self).timeline.tracks_view(),
                self.timeline.tracks_view().dom().contains(spec.track.0),
                self.timeline.tracks@ == old(self).timeline.tracks@,
                self.timeline.groups_view() == g0.insert(first, resolved_view(*spec)),
                m0 == old(self).timeline.clips_view(),
                g0 == old(self).timeline.groups_view(),
                group_id.0 == first,
                first + cues@.len() + 1 <= u64::MAX,
                cues@.len() <= MAX_CAPTION_CUES,
                a <= cues@.len(),
                self.timeline.next_id == first + 1 + a,
                ids@.len() == a,
                forall|b: int| 0 <= b < a ==> (#[trigger] ids@[b]).0 == first + 1 + b,
                self.timeline.clips_view() == placed_cues(m0, spec.track, group_id, first + 1, cues@, a as int),
            decreases cues@.len() - a,
        {
            let cue = &cues[a];
            let meta = cue.cue(group_id, a as u32);
            let text = cue.text.clone();
            let placed = self.timeline.place_clip(spec.track, cue.timeline, Some(text), Some(meta));
            match placed {
                Ok(id) => {
                    ids.push(id);
                },
                Err(_) => {
                    assert(false);
                },
            }
            a += 1;
        }
        Ok((group_id, ids))
    }

    /// Remove a caption group and every cue clip it owns, returning both
    /// (the cues in timeline order) so the removal can be undone.
    pub fn remove_caption_group(&mut self, group: CaptionGroupId) -> (r: Result<(CaptionGroup, Vec<Clip>), ModelError>)
        requires
            old(self).wf(),
        ensures
            final(self).wf(),
            final(self).timeline.frame_rate == old(self).timeline.frame_rate,
            final(self).timeline.tracks_view() == old(self).timeline.tracks_view(),
            final(self).timeline.next_id == old(self).timeline.next_id,
            r is Err <==> !old(self).timeline.groups_view().dom().contains(group.0),
            match r {
                Ok((g, cues)) => {
                    let m = old(self).timeline.clips_view();
                    &&& g.id == group
                    &&& group_view(g) == old(self).timeline.groups_view()[group.0]
                    &&& final(self).timeline.groups_view() == old(self).timeline.groups_view().remove(group.0)
                    &&& final(self).timeline.clips_view() == without_cues(m, group)
                    &&& cue_order(m, group, clip_ids(cues@))
                    &&& forall|i: int| 0 <= i < cues@.len() ==> clip_view(#[trigger] cues@[i]) == m[cues@[i].id.0]
                },
                Err(e) => e == ModelError::UnknownCaptionGroup(group) && final(self).same_timeline(old(self)),
            },
    {
        let cue_ids = self.timeline.caption_cue_ids(group);
        let removed = match self.timeline.remove_caption_group(group) {
            Some(g) => g,
            None => {
                return Err(ModelError::UnknownCaptionGroup(group));
            },
        };
        let ghost m0 = self.timeline.clips_view();
        let ghost order = raw_ids(cue_ids@);
        proof {
            assert forall|b: int, c: int| 0 <= b < order.len() && 0 <= c < order.len() && b != c implies order[b]
                != order[c] by {
                if b < c {
                    assert(cue_before(m0, order[b], order[c]));
                } else {
                    assert(cue_before(m0, order[c], order[b]));
                }
            }
            assert(drop_keys(m0, order.take(0)) =~= m0);
        }
        let mut cues: Vec<Clip> = Vec::new();
        let mut a: usize = 0;
        while a < cue_ids.len()
            invariant
                self.wf(),
                self.timeline.frame_rate == old(self).timeline.frame_rate,
                self.timeline.tracks_view() == old(self).timeline.tracks_view(),
                self.timeline.next_id == old(self).timeline.next_id,
                self.timeline.groups_view() == old(self).timeline.groups_view().remove(group.0),
                m0 == old(self).timeline.clips_view(),
                order == raw_ids(cue_ids@),
                cue_order(m0, group, order),
                forall|b: int, c: int| 0 <= b < order.len() && 0 <= c < order.len() && b != c ==> order[b] != order[c],
                a <= cue_ids@.len(),
                cues@.len() == a,
                forall|b: int| 0 <= b < a ==> (#[trigger] cues@[b]).id.0 == order[b],
                forall|b: int| 0 <= b < a ==> clip_view(#[trigger] cues@[b]) == m0[order[b]],
                self.timeline.clips_view() == drop_keys(m0, order.take(a as int)),
            decreases cue_ids@.len() - a,
        {
            let id = cue_ids[a];
            proof {
                assert(order[a as int] == id.0);
                assert(!order.take(a as int).contains(id.0)) by {
                    if order.take(a as int).contains(id.0) {
                        let b = choose|b: int| 0 <= b < a && order.take(a as int)[b] == id.0;
                        assert(order[b] == order[a as int]);
                    }
                }
            }
            let ghost before = self.timeline.clips_view();
            match self.timeline.remove_clip(id) {
                Some(c) => {
                    cues.push(c);
                    proof {
                        let t1 = order.take(a + 1);
                        let t0 = order.take(a as int);
                        assert forall|k: u64| #[trigger] drop_keys(m0, t1).dom().contains(k)
                            == before.remove(id.0).dom().contains(k) by {
                            assert(t1[a as int] == id.0);
                            if t1.contains(k) && k != id.0 {
                                let b = choose|b: int| 0 <= b < a + 1 && t1[b] == k;
                                assert(t0[b] == k);
                            }
                            if t0.contains(k) {
                                let b = choose|b: int| 0 <= b < a && t0[b] == k;
                                assert(t1[b] == k);
                            }
                        }
                        assert(self.timeline.clips_view() =~= drop_keys(m0, order.take(a + 1)));
                    }
                },
                None => {
                    assert(false);
                },
            }
            a += 1;
        }
        proof {
            assert(order.take(order.len() as int) =~= order);
            assert(drop_keys(m0, order) =~= without_cues(m0, group));
            assert(clip_ids(cues@) =~= order);
        }
        Ok((removed, cues))
    }

    /// Re-insert a removed group and its cue clips under their own ids (the
    /// inverse of [`Self::remove_caption_group`]).
    ///
    /// A refused group record changes nothing. A refused clip stops the
    /// restore: the group record is taken back out, and the clips before it
    /// stay on the timeline.
    #[verifier::rlimit(60)]
    pub fn restore_caption_group(&mut self, group: CaptionGroup, cues: Vec<Clip>) -> (r: Result<CaptionGroupId, ModelError>)
        requires
            old(self).wf(),
        ensures
            final(self).wf(),
            final(self).timeline.frame_rate == old(self).timeline.frame_rate,
            final(self).timeline.tracks_view() == old(self).timeline.tracks_view(),
            r is Ok <==> group_addable(old(self).timeline, group) && clips_addable(
                old(self).timeline.clips_view(),
                old(self).timeline.tracks_view(),
                cues@,
                cues@.len() as int,
            ),
            match r {
                Ok(id) => {
                    &&& id == group.id
                    &&& final(self).timeline.groups_view() == old(self).timeline.groups_view().insert(
                        group.id.0,
                        group_view(group),
                    )
                    &&& final(self).timeline.clips_view() == with_clips(
                        old(self).timeline.clips_view(),
                        cues@,
                        cues@.len() as int,
                    )
                },
                Err(_) => {
                    &&& final(self).timeline.groups_view() == old(self).timeline.groups_view()
                    &&& !group_addable(old(self).timeline, group) ==> final(self).timeline.clips_view()
                        == old(self).timeline.clips_view()
                    &&& group_addable(old(self).timeline, group) ==> exists|k: int|
                        0 <= k < cues@.len() && clips_addable(
                            old(self).timeline.clips_view(),
                            old(self).timeline.tracks_view(),
                            cues@,
                            k,
                        ) && !clip_addable(
                            with_clips(old(self).timeline.clips_view(), cues@, k),
                            old(self).timeline.tracks_view(),
                            #[trigger] cues@[k],
                        ) && final(self).timeline.clips_view() == with_clips(
                            old(self).timeline.clips_view(),
                            cues@,
                            k,
                        )
                },
            },
    {
        let ghost m0 = self.timeline.clips_view();
        let ghost t0 = self.timeline.tracks_view();
        let ghost all = cues@;
        let id = match self.timeline.add_caption_group(group) {
            Ok(id) => id,
            Err(e) => {
                return Err(e);
            },
        };
        let mut k: usize = 0;
        while k < cues.len()
            invariant
                self.wf(),
                self.timeline.frame_rate == old(self).timeline.frame_rate,
                self.timeline.tracks_view() == t0,
                t0 == old(self).timeline.tracks_view(),
                m0 == old(self).timeline.clips_view(),
                self.timeline.groups_view() == old(self).timeline.groups_view().insert(group.id.0, group_view(group)),
                group_addable(old(self).timeline, group),
                id == group.id,
                all == cues@,
                k <= all.len(),
                clips_addable(m0, t0, all, k as int),
                self.timeline.clips_view() == with_clips(m0, all, k as int),
            decreases all.len() - k,
        {
            let clip = cues[k].copy();
            match self.timeline.add_clip(clip) {
                Ok(_) => {
                    proof {
                        assert forall|i: int| 0 <= i < k + 1 implies clip_addable(
                            with_clips(m0, all, i),
                            t0,
                            #[trigger] all[i],
                        ) by {
                            if i < k {
                                assert(clip_addable(with_clips(m0, all, i), t0, all[i]));
                            }
                        }
                    }
                },
                Err(e) => {
                    self.timeline.remove_caption_group(id);
                    proof {
                        assert(self.timeline.groups_view() =~= old(self).timeline.groups_view());
                        assert(!clip_addable(with_clips(m0, all, k as int), t0, all[k as int]));
                        assert(!clips_addable(m0, t0, all, all.len() as int));
                        assert(self.timeline.clips_view() == with_clips(m0, all, k as int));
                        assert(0 <= k < all.len() && clips_addable(m0, t0, all, k as int) && !clip_addable(
                            with_clips(m0, all, k as int), t0, all[k as int]) && self.timeline.clips_view()
                            == with_clips(m0, all, k as int));
                    }
                    return Err(e);
                },
            }
            k += 1;
        }
        Ok(id)
    }
}

/// `m` without the keys listed in `ks`.
pub open spec fn drop_keys(m: Map<u64, ClipView>, ks: Seq<u64>) -> Map<u64, ClipView> {
    Map::new(|k: u64| m.dom().contains(k) && !ks.contains(k), |k: u64| m[k])
}

/// `m` without the cues of group `g`.
pub open spec fn without_cues(m: Map<u64, ClipView>, g: CaptionGroupId) -> Map<u64, ClipView> {
    Map::new(|k: u64| m.dom().contains(k) && !is_cue_in(m[k], g), |k: u64| m[k])
}

/// `m` with the first `n` of `cs` filed under their own ids.
pub open spec fn with_clips(m: Map<u64, ClipView>, cs: Seq<Clip>, n: int) -> Map<u64, ClipView>
    decreases n,
{
    if n <= 0 {
        m
    } else {
        with_clips(m, cs, n - 1).insert(cs[n - 1].id.0, clip_view(cs[n - 1]))
    }
}

/// Whether `c` can be filed into `m`: its lane exists and its id is free.
pub open spec fn clip_addable(m: Map<u64, ClipView>, tracks: Map<u64, TrackKind>, c: Clip) -> bool {
    tracks.dom().contains(c.track.0) && !m.dom().contains(c.id.0) && c.id.0 < u64::MAX
}

/// Whether the first `n` of `cs` can be filed into `m` one after another.
pub open spec fn clips_addable(m: Map<u64, ClipView>, tracks: Map<u64, TrackKind>, cs: Seq<Clip>, n: int) -> bool {
    forall|i: int| 0 <= i < n ==> clip_addable(with_clips(m, cs, i), tracks, #[trigger] cs[i])
}

/// Whether group record `g` can be filed into `t`: its lane exists and its id
/// is free.
pub open spec fn group_addable(t: Timeline, g: CaptionGroup) -> bool {
    t.tracks_view().dom().contains(g.track.0) && !t.groups_view().dom().contains(g.id.0) && g.id.0 < u64::MAX
}

/// A group record with another label.
pub open spec fn relabeled(v: GroupView, label: Seq<char>) -> GroupView {
    GroupView { label, ..v }
}

/// A cue clip whose individual styling flag is cleared.
pub open spec fn override_cleared(v: ClipView) -> ClipView {
    ClipView {
        caption: match v.caption {
            Some(c) => Some(CueView { style_override: false, ..c }),
            None => None,
        },
        ..v
    }
}

/// `m` with the styling flag of every cue of `g` cleared.
pub open spec fn overrides_cleared(m: Map<u64, ClipView>, g: CaptionGroupId) -> Map<u64, ClipView> {
    Map::new(
        |k: u64| m.dom().contains(k),
        |k: u64|
            if is_cue_in(m[k], g) {
                override_cleared(m[k])
            } else {
                m[k]
            },
    )
}

impl Project {
    /// Rename a caption group. A label the group record would not accept
    /// (over 256 bytes) is refused and the old one kept.
    pub fn set_caption_group_label(&mut self, group: CaptionGroupId, label: String) -> (r: Result<(), ModelError>)
        requires
            old(self).wf(),
        ensures
            final(self).wf(),
            !old(self).timeline.groups_view().dom().contains(group.0) ==> r == Err::<(), ModelError>(
                ModelError::UnknownCaptionGroup(group),
            ),
            r is Ok <==> old(self).timeline.groups_view().dom().contains(group.0) && group_valid(
                relabeled(old(self).timeline.groups_view()[group.0], label@),
            ),
            old(self).timeline.groups_view().dom().contains(group.0) && r is Err ==> r->Err_0 is InvalidParam,
            r is Ok ==> final(self).timeline.same_except_groups(&old(self).timeline)
                && final(self).timeline.groups_view() == old(self).timeline.groups_view().insert(
                group.0,
                relabeled(old(self).timeline.groups_view()[group.0], label@),
            ),
            r is Err ==> final(self).same_timeline(old(self)),
    {
        let i = match self.timeline.group_index(group) {
            Some(i) => i,
            None => {
                return Err(ModelError::UnknownCaptionGroup(group));
            },
        };
        proof {
            lemma_group_map_at(self.timeline.groups@, i as int);
            self.timeline.lemma_group_placed(i as int);
        }
        let mut updated = self.timeline.groups[i].copy();
        updated.label = label;
        match updated.validate() {
            Ok(()) => {},
            Err(e) => {
                return Err(e);
            },
        }
        self.timeline.put_group(i, updated);
        Ok(())
    }

    /// Set (or clear) how a group highlights words during playback.
    pub fn set_caption_highlight(&mut self, group: CaptionGroupId, highlight: Option<CaptionHighlightMode>) -> (r: Result<
        (),
        ModelError,
    >)
        requires
            old(self).wf(),
        ensures
            final(self).wf(),
            r is Ok <==> old(self).timeline.groups_view().dom().contains(group.0),
            r is Err ==> r == Err::<(), ModelError>(ModelError::UnknownCaptionGroup(group)),
            r is Err ==> final(self).same_timeline(old(self)),
            r is Ok ==> final(self).timeline.same_except_groups(&old(self).timeline)
                && final(self).timeline.groups_view() == old(self).timeline.groups_view().insert(
                group.0,
                GroupView { highlight, ..old(self).timeline.groups_view()[group.0] },
            ),
    {
        let i = match self.timeline.group_index(group) {
            Some(i) => i,
            None => {
                return Err(ModelError::UnknownCaptionGroup(group));
            },
        };
        proof {
            lemma_group_map_at(self.timeline.groups@, i as int);
            self.timeline.lemma_group_placed(i as int);
        }
        let mut updated = self.timeline.groups[i].copy();
        updated.highlight = highlight;
        self.timeline.put_group(i, updated);
        Ok(())
    }

    /// Replace a group's segmentation rules. Unusable rules are refused
    /// (`InvalidParam`) before the group is looked up.
    pub fn set_caption_group_layout(&mut self, group: CaptionGroupId, layout: CaptionLayout) -> (r: Result<(), ModelError>)
        requires
            old(self).wf(),
        ensures
            final(self).wf(),
            r is Ok <==> layout_valid(layout) && old(self).timeline.groups_view().dom().contains(group.0),
            !layout_valid(layout) ==> (r matches Err(e) && e is InvalidParam),
            layout_valid(layout) && !old(self).timeline.groups_view().dom().contains(group.0) ==> r == Err::<
                (),
                ModelError,
            >(ModelError::UnknownCaptionGroup(group)),
            r is Err ==> final(self).same_timeline(old(self)),
            r is Ok ==> final(self).timeline.same_except_groups(&old(self).timeline)
                && final(self).timeline.groups_view() == old(self).timeline.groups_view().insert(
                group.0,
                GroupView { layout, ..old(self).timeline.groups_view()[group.0] },
            ),
    {
        match layout.validate() {
            Ok(()) => {},
            Err(_) => {
                return Err(ModelError::invalid(chars_of("invalid caption layout")));
            },
        }
        let i = match self.timeline.group_index(group) {
            Some(i) => i,
            None => {
                return Err(ModelError::UnknownCaptionGroup(group));
            },
        };
        proof {
            lemma_group_map_at(self.timeline.groups@, i as int);
            self.timeline.lemma_group_placed(i as int);
        }
        let mut updated = self.timeline.groups[i].copy();
        updated.layout = layout;
        self.timeline.put_group(i, updated);
        Ok(())
    }

    /// Clear the individual styling flag of every cue of `group`, so the next
    /// group restyle reaches them all.
    fn clear_style_overrides(&mut self, group: CaptionGroupId)
        requires
            old(self).wf(),
        ensures
            final(self).wf(),
            final(self).timeline.same_except_clips(&old(self).timeline),
            final(self).timeline.clips_view() == overrides_cleared(old(self).timeline.clips_view(), group),
    {
        let ghost c0 = self.timeline.clips@;
        let ghost m0 = self.timeline.clips_view();
        let mut i: usize = 0;
        while i < self.timeline.clips.len()
            invariant
                self.wf(),
                self.timeline.same_except_clips(&old(self).timeline),
                m0 == old(self).timeline.clips_view(),
                c0 == old(self).timeline.clips@,
                self.timeline.clips@.len() == c0.len(),
                i <= c0.len(),
                forall|j: int| 0 <= j < c0.len() ==> (#[trigger] self.timeline.clips@[j]).id == c0[j].id,
                forall|j: int|
                    0 <= j < c0.len() ==> clip_view(#[trigger] self.timeline.clips@[j]) == if j < i
                        && is_cue_in(clip_view(c0[j]), group) {
                        override_cleared(clip_view(c0[j]))
                    } else {
                        clip_view(c0[j])
                    },
            decreases c0.len() - i,
        {
            let is_cue = match &self.timeline.clips[i].caption {
                Some(cue) => cue.group == group,
                None => false,
            };
            assert(clip_view(self.timeline.clips@[i as int]) == clip_view(c0[i as int]));
            assert(is_cue == is_cue_in(clip_view(c0[i as int]), group));
            if is_cue {
                let mut clip = self.timeline.clips[i].copy();
                let caption = match &clip.caption {
                    Some(cue) => {
                        let mut c = crate::timeline::copy_cue(cue);
                        c.style_override = false;
                        Some(c)
                    },
                    None => None,
                };
                clip.caption = caption;
                proof {
                    self.timeline.lemma_clip_placed(i as int);
                }
                self.timeline.put_clip(i, clip);
            }
            i += 1;
        }
        proof {
            let m = self.timeline.clips_view();
            let t = overrides_cleared(m0, group);
            assert forall|k: u64| #[trigger] m.dom().contains(k) <==> t.dom().contains(k) by {
                if m.dom().contains(k) {
                    let j = choose|j: int| 0 <= j < c0.len() && #[trigger] self.timeline.clips@[j].id.0 == k;
                    assert(c0[j].id.0 == k);
                    lemma_clip_map_at(c0, j);
                }
                if m0.dom().contains(k) {
                    let j = choose|j: int| 0 <= j < c0.len() && #[trigger] c0[j].id.0 == k;
                    assert(self.timeline.clips@[j].id.0 == k);
                    self.timeline.lemma_clip_at(j);
                }
            }
            assert forall|k: u64| #[trigger] m.dom().contains(k) implies m[k] == t[k] by {
                let j = choose|j: int| 0 <= j < c0.len() && #[trigger] self.timeline.clips@[j].id.0 == k;
                self.timeline.lemma_clip_at(j);
                lemma_clip_map_at(c0, j);
            }
            assert(m =~= t);
        }
    }

    /// Apply a caption template: its rules and highlight, written to the
    /// group, which then names the template; every cue of the group drops
    /// its individual styling flag. An unknown template is refused
    /// (`InvalidParam`) before the group is looked up.
    pub fn set_caption_group_template(&mut self, group: CaptionGroupId, template: &str) -> (r: Result<(), ModelError>)
        requires
            old(self).wf(),
        ensures
            final(self).wf(),
            r is Ok <==> template_index(template@) is Some && old(self).timeline.groups_view().dom().contains(
                group.0,
            ),
            template_index(template@) is None ==> (r matches Err(e) && e is InvalidParam),
            template_index(template@) is Some && !old(self).timeline.groups_view().dom().contains(group.0)
                ==> r == Err::<(), ModelError>(ModelError::UnknownCaptionGroup(group)),
            r is Err ==> final(self).same_timeline(old(self)),
            r is Ok ==> {
                let i = template_index(template@)->Some_0;
                &&& final(self).timeline.frame_rate == old(self).timeline.frame_rate
                &&& final(self).timeline.tracks_view() == old(self).timeline.tracks_view()
                &&& final(self).timeline.next_id == old(self).timeline.next_id
                &&& final(self).timeline.groups_view() == old(self).timeline.groups_view().insert(
                    group.0,
                    GroupView {
                        layout: template_layout(i),
                        highlight: template_rules(i).2,
                        template: Some(template@),
                        ..old(self).timeline.groups_view()[group.0]
                    },
                )
                &&& final(self).timeline.clips_view() == overrides_cleared(old(self).timeline.clips_view(), group)
            },
    {
        let spec = match caption_template_spec(template) {
            Some(spec) => spec,
            None => {
                return Err(ModelError::invalid(chars_of("unknown caption template")));
            },
        };
        let i = match self.timeline.group_index(group) {
            Some(i) => i,
            None => {
                return Err(ModelError::UnknownCaptionGroup(group));
            },
        };
        proof {
            lemma_group_map_at(self.timeline.groups@, i as int);
            self.timeline.lemma_group_placed(i as int);
        }
        let mut updated = self.timeline.groups[i].copy();
        updated.layout = spec.layout();
        updated.highlight = spec.highlight;
        updated.template = Some(spec.id);
        self.timeline.put_group(i, updated);
        self.clear_style_overrides(group);
        Ok(())
    }
}

/// Token `k` of a text starts at character `k` or later.
proof fn lemma_token_start(s: Seq<char>, k: int)
    requires
        tokens_ok(s, tokens(s), 0),
        0 <= k < tokens(s).len(),
    ensures
        tokens(s)[k].0 >= k,
    decreases k,
{
    if k > 0 {
        lemma_token_start(s, k - 1);
        assert(tokens(s)[k].0 > tokens(s)[k - 1].1);
        assert(tokens(s)[k - 1].0 < tokens(s)[k - 1].1);
    }
}

/// A text has no more words than characters.
pub proof fn lemma_token_count(s: Seq<char>)
    ensures
        tokens(s).len() <= s.len(),
{
    lemma_tokens(s);
    let n = tokens(s).len();
    if n > 0 {
        lemma_token_start(s, n - 1);
        assert(tokens(s)[n - 1].1 <= s.len());
    }
}

/// The word table an edited cue ends up with: the given one, or the old
/// timings re-timed onto the new text.
pub open spec fn new_words(old_words: Seq<(u32, u32, u32, u32)>, text: Seq<char>, words: Option<Seq<(u32, u32, u32, u32)>>) -> Seq<
    (u32, u32, u32, u32),
> {
    match words {
        Some(w) => w,
        None => retime_spec(old_words, text),
    }
}

/// The plain values of an optional word table.
pub open spec fn opt_words(words: Option<Vec<CaptionWord>>) -> Option<Seq<(u32, u32, u32, u32)>> {
    match words {
        Some(w) => Some(words_view(w@)),
        None => None,
    }
}

/// What stops a cue edit, in the order it is checked: `0` nothing, `1` blank
/// text, `2` no such clip, `3` the clip is no cue, `4` text too long to
/// re-time (more than `u32::MAX` characters), `5` a word table that does not
/// fit the text, `6` the clip shows no text.
pub open spec fn cue_edit_fault(
    m: Map<u64, ClipView>,
    id: ClipId,
    text: Seq<char>,
    words: Option<Seq<(u32, u32, u32, u32)>>,
) -> int {
    if is_blank(text) {
        1
    } else if !m.dom().contains(id.0) {
        2
    } else if m[id.0].caption is None {
        3
    } else if words is None && text.len() > u32::MAX {
        4
    } else if !views_valid(new_words(m[id.0].caption->Some_0.words, text, words), text) {
        5
    } else if m[id.0].text is None {
        6
    } else {
        0
    }
}

/// The error a cue-edit fault of kind `kind` is reported as.
pub open spec fn cue_edit_error(e: ModelError, kind: int, id: ClipId) -> bool {
    if kind == 2 {
        e == ModelError::UnknownClip(id)
    } else if kind == 3 || kind == 6 {
        e == ModelError::NotACaptionCue(id)
    } else {
        e is InvalidParam
    }
}

/// A cue clip after a text edit: the new text and word table, the given
/// speaker, and the edit flag set.
pub open spec fn edited_clip(
    v: ClipView,
    text: Seq<char>,
    words: Seq<(u32, u32, u32, u32)>,
    speaker: Option<Seq<char>>,
) -> ClipView {
    ClipView {
        text: Some(text),
        caption: Some(CueView { words, speaker, text_edited: true, ..v.caption->Some_0 }),
        ..v
    }
}

impl Project {
    /// Edit one cue's text, and optionally its word timings and speaker.
    ///
    /// `words: None` re-derives timings from the old ones (see
    /// [`retime_words`]), so correcting a typo keeps karaoke in sync; `Some`
    /// sets them explicitly. Either way the table is checked against the new
    /// text, and the cue is flagged as edited so re-running recognition will
    /// not silently overwrite the correction.
    pub fn set_caption_cue(
        &mut self,
        clip_id: ClipId,
        text: String,
        words: Option<Vec<CaptionWord>>,
        speaker: Option<String>,
    ) -> (r: Result<(), ModelError>)
        requires
            old(self).wf(),
        ensures
            final(self).wf(),
            ({
                let m = old(self).timeline.clips_view();
                let kind = cue_edit_fault(m, clip_id, text@, opt_words(words));
                &&& r is Ok <==> kind == 0
                &&& r matches Err(e) ==> cue_edit_error(e, kind, clip_id) && final(self).same_timeline(old(self))
                &&& r is Ok ==> final(self).timeline.same_except_clips(&old(self).timeline)
                    && final(self).timeline.clips_view() == m.insert(
                    clip_id.0,
                    edited_clip(
                        m[clip_id.0],
                        text@,
                        new_words(m[clip_id.0].caption->Some_0.words, text@, opt_words(words)),
                        opt_view(speaker),
                    ),
                )
            }),
    {
        let chars = chars_of(text.as_str());
        if blank(&chars) {
            return Err(ModelError::invalid(chars_of("a caption cue needs text")));
        }
        let idx = match self.timeline.clip_index(clip_id) {
            Some(i) => i,
            None => {
                return Err(ModelError::UnknownClip(clip_id));
            },
        };
        proof {
            self.timeline.lemma_clip_at(idx as int);
            self.timeline.lemma_clip_placed(idx as int);
        }
        let cue = match &self.timeline.clips[idx].caption {
            Some(c) => crate::timeline::copy_cue(c),
            None => {
                return Err(ModelError::NotACaptionCue(clip_id));
            },
        };
        let table = match words {
            Some(w) => w,
            None => {
                if chars.len() > 0xFFFF_FFFF {
                    return Err(ModelError::invalid(chars_of("caption text is too long to re-time")));
                }
                proof {
                    lemma_token_count(text@);
                }
                retime_words(cue.words.as_slice(), text.as_str())
            },
        };
        let mut updated = cue;
        updated.words = table;
        updated.speaker = speaker;
        updated.text_edited = true;
        match updated.validate(text.as_str()) {
            Ok(()) => {},
            Err(e) => {
                return Err(e);
            },
        }
        let mut clip = self.timeline.clips[idx].copy();
        if clip.text.is_none() {
            return Err(ModelError::NotACaptionCue(clip_id));
        }
        clip.text = Some(text);
        clip.caption = Some(updated);
        self.timeline.put_clip(idx, clip);
        Ok(())
    }
}

/// The first part of clip range `tr` split at tick `at`.
pub open spec fn left_range(tr: TimeRange, at: int) -> TimeRange {
    TimeRange { start: tr.start, duration: RationalTime { value: (at - tr.start.value) as i64, rate: tr.duration.rate } }
}

/// The second part of clip range `tr` split at tick `at`.
pub open spec fn right_range(tr: TimeRange, at: int) -> TimeRange {
    TimeRange {
        start: RationalTime { value: at as i64, rate: tr.start.rate },
        duration: RationalTime { value: (tr.spec_end() - at) as i64, rate: tr.duration.rate },
    }
}

/// What stops splitting clip `id` at `at`, in the order it is checked: `0`
/// nothing, `1` no such clip, `2` the clip is no cue, `3` it shows no text,
/// `4` `at` is at another rate, `5` `at` is not strictly inside the clip (or
/// a half would be too long to represent), `6` no id is left for the second
/// half.
pub open spec fn split_fault(t: Timeline, id: ClipId, at: RationalTime) -> int {
    let m = t.clips_view();
    let v = m[id.0];
    if !m.dom().contains(id.0) {
        1
    } else if v.caption is None {
        2
    } else if v.text is None {
        3
    } else if at.rate != v.timeline.start.rate {
        4
    } else if !(v.timeline.start.value < at.value < v.timeline.spec_end()) || at.value
        - v.timeline.start.value > i64::MAX || v.timeline.spec_end() - at.value > i64::MAX {
        5
    } else if t.next_id == u64::MAX {
        6
    } else {
        0
    }
}

/// The error a split fault of kind `kind` is reported as.
pub open spec fn split_error(e: ModelError, kind: int, id: ClipId) -> bool {
    if kind == 1 {
        e == ModelError::UnknownClip(id)
    } else if kind == 2 || kind == 3 {
        e == ModelError::NotACaptionCue(id)
    } else {
        e is InvalidParam
    }
}

/// Word end times never go backwards.
pub open spec fn view_ends_ascending(ws: Seq<(u32, u32, u32, u32)>) -> bool {
    forall|i: int, j: int| 0 <= i <= j < ws.len() ==> ws[i].1 <= ws[j].1
}

/// `n` is where a word table is partitioned at `cut` ms: for end times that
/// never go backwards, exactly the words ending by the cut come first.
pub open spec fn split_point(ws: Seq<(u32, u32, u32, u32)>, cut: u32, n: int) -> bool {
    &&& 0 <= n <= ws.len()
    &&& view_ends_ascending(ws) ==> (forall|j: int| 0 <= j < n ==> #[trigger] ws[j].1 <= cut) && (forall|j: int|
        n <= j < ws.len() ==> #[trigger] ws[j].1 > cut)
}

/// The two halves of cue clip `v` split at tick `at`, its words partitioned
/// after word `n` at `cut` ms: the first keeps the words before and the text
/// before the first later word, the second the rest, its word times rebased
/// to its own start and its byte ranges onto its own text.
pub open spec fn split_halves(v: ClipView, at: int, n: int, cut: u32) -> (ClipView, ClipView) {
    let c = v.caption->Some_0;
    let text = v.text->Some_0;
    let lw = c.words.take(n);
    let rb = rebase_after(c.words.skip(n), cut);
    let sp = split_text_spec(text, lw, rb);
    let rw = match sp.2 {
        Some(shift) => shift_ranges(rb, shift),
        None => rb,
    };
    (
        ClipView {
            timeline: left_range(v.timeline, at),
            text: Some(sp.0),
            caption: Some(CueView { words: lw, ..c }),
            ..v
        },
        ClipView {
            timeline: right_range(v.timeline, at),
            text: Some(sp.1),
            caption: Some(CueView { words: rw, ..c }),
            ..v
        },
    )
}

/// `a - b`, capped at `i64::MAX`.
pub open spec fn sat_diff(a: int, b: int) -> int {
    if a - b > i64::MAX {
        i64::MAX as int
    } else {
        a - b
    }
}

/// The clips after splitting cue `id` at tick `at` into a second half filed
/// as `right`, the words partitioned after word `n` at `cut` ms and the group
/// renumbered along `order`.
pub open spec fn split_outcome(
    m: Map<u64, ClipView>,
    id: ClipId,
    at: int,
    right: ClipId,
    cut: u32,
    n: int,
    order: Seq<u64>,
    after: Map<u64, ClipView>,
) -> bool {
    let v = m[id.0];
    let c = v.caption->Some_0;
    let halves = split_halves(v, at, n, cut);
    let mid = m.insert(id.0, halves.0).insert(right.0, halves.1);
    &&& split_point(c.words, cut, n)
    &&& cue_order(mid, c.group, order)
    &&& reindexed(mid, after, order)
}

/// The clips after splitting cue `id` at tick `at` into a second half filed
/// as `right`, the words partitioned at `cut` ms and the group renumbered.
pub open spec fn split_into(
    m: Map<u64, ClipView>,
    id: ClipId,
    at: int,
    right: ClipId,
    cut: u32,
    after: Map<u64, ClipView>,
) -> bool {
    exists|n: int, order: Seq<u64>| #[trigger] split_outcome(m, id, at, right, cut, n, order, after)
}

impl Project {
    /// Split a caption cue at timeline tick `at`, partitioning its word
    /// timings and text between the halves.
    ///
    /// Words that end by the cut stay with the first half; the rest move to
    /// the second, with their times and byte ranges rebased. Without word
    /// timings on both sides both halves keep the whole text, for the user to
    /// retype one. The second half is a new clip under the next id, and the
    /// group is renumbered in timeline order.
    pub fn split_caption_cue(&mut self, clip_id: ClipId, at: RationalTime) -> (r: Result<ClipId, ModelError>)
        requires
            old(self).wf(),
        ensures
            final(self).wf(),
            ({
                let t = old(self).timeline;
                let kind = split_fault(t, clip_id, at);
                let v = t.clips_view()[clip_id.0];
                let c = v.caption->Some_0;
                let cut = spec_ms(v.timeline.start.rate, sat_diff(at.value as int, v.timeline.start.value as int)) as u32;
                &&& r is Ok <==> kind == 0
                &&& r matches Err(e) ==> split_error(e, kind, clip_id) && final(self).same_timeline(old(self))
                &&& r matches Ok(right) ==> {
                    &&& right.0 == t.next_id
                    &&& !t.clips_view().dom().contains(right.0)
                    &&& final(self).timeline.frame_rate == t.frame_rate
                    &&& final(self).timeline.tracks_view() == t.tracks_view()
                    &&& final(self).timeline.groups_view() == t.groups_view()
                    &&& final(self).timeline.next_id == t.next_id + 1
                    &&& exists|n: int, order: Seq<u64>|
                        #[trigger] split_outcome(t.clips_view(), clip_id, at.value as int, right, cut, n, order, final(self).timeline.clips_view())
                }
            }),
    {
        let idx = match self.timeline.clip_index(clip_id) {
            Some(i) => i,
            None => {
                return Err(ModelError::UnknownClip(clip_id));
            },
        };
        proof {
            self.timeline.lemma_clip_at(idx as int);
            self.timeline.lemma_clip_placed(idx as int);
            self.timeline.lemma_ids_below();
        }
        let cue = match &self.timeline.clips[idx].caption {
            Some(c) => crate::timeline::copy_cue(c),
            None => {
                return Err(ModelError::NotACaptionCue(clip_id));
            },
        };
        let ghost cw = cue.words@;
        let text = match &self.timeline.clips[idx].text {
            Some(t) => t.clone(),
            None => {
                return Err(ModelError::NotACaptionCue(clip_id));
            },
        };
        let range = self.timeline.clips[idx].timeline;
        let track = self.timeline.clips[idx].track;
        let start = range.start.value;
        let rate = range.start.rate;
        let end = range.end_tick();
        if at.rate != rate {
            return Err(ModelError::invalid(chars_of("split point is at another rate")));
        }
        if !(start < at.value && at.value < end) || at.value as i128 - start as i128 > 0x7FFF_FFFF_FFFF_FFFF
            || end as i128 - at.value as i128 > 0x7FFF_FFFF_FFFF_FFFF {
            return Err(ModelError::invalid(chars_of("split point must fall inside the clip")));
        }
        if self.timeline.next_id == u64::MAX {
            return Err(ModelError::invalid(chars_of("no ids left")));
        }
        let ticks: i64 = (at.value as i128 - start as i128) as i64;
        let cut_ms = Placement::at_rate(rate).ms(ticks);
        let (left_words, mut right_words) = split_words(&cue.words, cut_ms);
        let ghost n = left_words@.len() as int;
        let ghost rb = words_view(right_words@);
        let (left_text, right_text) = split_text(text.as_str(), left_words.as_slice(), &mut right_words);
        let left_range = TimeRange {
            start: range.start,
            duration: RationalTime { value: (at.value as i128 - start as i128) as i64, rate: range.duration.rate },
        };
        let right_range = TimeRange {
            start: RationalTime { value: at.value, rate: range.start.rate },
            duration: RationalTime { value: (end as i128 - at.value as i128) as i64, rate: range.duration.rate },
        };
        let group = cue.group;
        let mut right_cue = crate::timeline::copy_cue(&cue);
        right_cue.words = right_words;
        let mut left_cue = cue;
        left_cue.words = left_words;
        let mut left = self.timeline.clips[idx].copy();
        left.timeline = left_range;
        left.text = Some(left_text);
        left.caption = Some(left_cue);
        let ghost m0 = self.timeline.clips_view();
        let ghost v = m0[clip_id.0];
        proof {
            let ew = words_view(self.timeline.clips@[idx as int].caption->Some_0.words@);
            assert(v.caption->Some_0.words == ew);
            let w = cw;
            assert(ew == words_view(cw));
            if view_ends_ascending(ew) {
                assert forall|i: int, j: int| 0 <= i <= j < w.len() implies w[i].end_ms <= w[j].end_ms by {
                    assert(ew[i].1 == w[i].end_ms && ew[j].1 == w[j].end_ms);
                }
                assert(ends_ascending(w));
                assert forall|j: int| 0 <= j < n implies #[trigger] ew[j].1 <= cut_ms by {
                    assert(ew[j].1 == w[j].end_ms);
                }
                assert forall|j: int| n <= j < ew.len() implies #[trigger] ew[j].1 > cut_ms by {
                    assert(ew[j].1 == w[j].end_ms);
                }
            }
            assert(split_point(ew, cut_ms, n));
            let halves = split_halves(v, at.value as int, n, cut_ms);
            assert(clip_view(left) == halves.0);
        }
        self.timeline.put_clip(idx, left);
        let right = match self.timeline.place_clip(track, right_range, Some(right_text), Some(right_cue)) {
            Ok(id) => id,
            Err(_) => {
                assert(false);
                return Err(ModelError::invalid(chars_of("no ids left")));
            },
        };
        proof {
            let halves = split_halves(v, at.value as int, n, cut_ms);
            assert(self.timeline.clips_view() == m0.insert(clip_id.0, halves.0).insert(right.0, halves.1));
        }
        let ghost mid = self.timeline.clips_view();
        self.timeline.reindex_caption_group(group);
        proof {
            let halves = split_halves(v, at.value as int, n, cut_ms);
            let order = choose|order: Seq<u64>| cue_order(mid, group, order) && reindexed(mid, self.timeline.clips_view(), order);
            assert(split_point(v.caption->Some_0.words, cut_ms, n));
            assert(m0 == old(self).timeline.clips_view());
            assert(cut_ms == spec_ms(v.timeline.start.rate, sat_diff(at.value as int, v.timeline.start.value as int)) as u32);
            assert(split_outcome(m0, clip_id, at.value as int, right, cut_ms, n, order, self.timeline.clips_view()));
            assert(exists|n: int, order: Seq<u64>| #[trigger] split_outcome(old(self).timeline.clips_view(), clip_id,
                at.value as int, right, spec_ms(v.timeline.start.rate, sat_diff(at.value as int, v.timeline.start.value as int)) as u32,
                n, order, self.timeline.clips_view()));
        }
        Ok(right)
    }
}

/// What stops a merge before anything is merged: `0` nothing, `1` fewer than
/// two clips listed, `2` the first listed clip is no cue, `3` a listed clip
/// is unknown or a cue of another group.
pub open spec fn merge_fault(m: Map<u64, ClipView>, ids: Seq<ClipId>) -> int {
    if ids.len() < 2 {
        1
    } else if !m.dom().contains(ids[0].0) || m[ids[0].0].caption is None {
        2
    } else if exists|i: int| 0 <= i < ids.len() && #[trigger] member_fault(m, ids, i) != 0 {
        3
    } else {
        0
    }
}

/// The group a merge works in: the first listed cue's.
pub open spec fn merge_group(m: Map<u64, ClipView>, ids: Seq<ClipId>) -> CaptionGroupId {
    m[ids[0].0].caption->Some_0.group
}

/// What is wrong with listed clip `i` of a merge: `0` nothing, `1` no such
/// clip, `2` a clip that is no cue of the merge's group.
pub open spec fn member_fault(m: Map<u64, ClipView>, ids: Seq<ClipId>, i: int) -> int {
    if !m.dom().contains(ids[i].0) {
        1
    } else if !is_cue_in(m[ids[i].0], merge_group(m, ids)) {
        2
    } else {
        0
    }
}

/// The error a merge refused for `kind` reports.
pub open spec fn merge_error(m: Map<u64, ClipView>, ids: Seq<ClipId>, kind: int, e: ModelError) -> bool {
    if kind == 2 {
        e == ModelError::NotACaptionCue(ids[0])
    } else if kind == 3 {
        exists|i: int|
            0 <= i < ids.len() && #[trigger] member_fault(m, ids, i) != 0 && (forall|j: int|
                0 <= j < i ==> #[trigger] member_fault(m, ids, j) == 0) && if member_fault(m, ids, i) == 1 {
                e == ModelError::UnknownClip(ids[i])
            } else {
                e is InvalidParam
            }
    } else {
        e is InvalidParam
    }
}

/// `ord` lists the clips named in `ids`, each once, in timeline order.
pub open spec fn merge_order(m: Map<u64, ClipView>, ids: Seq<ClipId>, ord: Seq<u64>) -> bool {
    &&& forall|i: int, j: int| 0 <= i < j < ord.len() ==> cue_before(m, ord[i], ord[j])
    &&& forall|i: int| 0 <= i < ord.len() ==> raw_ids(ids).contains(#[trigger] ord[i])
    &&& forall|i: int| 0 <= i < ids.len() ==> ord.contains(#[trigger] ids[i].0)
}

/// The text a clip shows, empty for a clip without text.
pub open spec fn shown_text(v: ClipView) -> Seq<char> {
    match v.text {
        Some(t) => t,
        None => Seq::empty(),
    }
}

/// The merge parts of the clips listed in `ord`: their texts, word tables,
/// and how many ms after `base` (at `rate`) each starts.
pub open spec fn merge_parts_spec(m: Map<u64, ClipView>, ord: Seq<u64>, rate: Rational, base: int) -> Seq<
    (Seq<char>, Seq<(u32, u32, u32, u32)>, u32),
> {
    Seq::new(
        ord.len(),
        |i: int|
            (
                shown_text(m[ord[i]]),
                m[ord[i]].caption->Some_0.words,
                spec_ms(rate, sat_diff(m[ord[i]].timeline.start.value as int, base)) as u32,
            ),
    )
}

/// The latest end among the first `n` clips of `ord`, and `base`.
pub open spec fn merged_end(m: Map<u64, ClipView>, ord: Seq<u64>, n: int, base: int) -> int
    decreases n,
{
    if n <= 0 {
        base
    } else {
        let e = m[ord[n - 1]].timeline.spec_end();
        let prev = merged_end(m, ord, n - 1, base);
        if e > prev {
            e
        } else {
            prev
        }
    }
}

/// The clips after merging the cues listed in `ord` into the first of them:
/// the others are gone, and the survivor spans from its start to the latest
/// end (at least one tick), shows the joined text and carries the joined
/// word table.
pub open spec fn merged_map(m: Map<u64, ClipView>, ord: Seq<u64>) -> Map<u64, ClipView> {
    let v0 = m[ord[0]];
    let rate = v0.timeline.start.rate;
    let base = v0.timeline.start.value as int;
    let parts = merge_parts_spec(m, ord, rate, base);
    let span = merged_end(m, ord, ord.len() as int, base) - base;
    let dur = if span < 1 {
        1
    } else if span > i64::MAX {
        i64::MAX as int
    } else {
        span
    };
    let survivor = ClipView {
        timeline: TimeRange {
            start: RationalTime { value: base as i64, rate },
            duration: RationalTime { value: dur as i64, rate },
        },
        text: match v0.text {
            Some(_) => Some(merged_text(parts)),
            None => None,
        },
        caption: Some(CueView { words: merged_words(parts), ..v0.caption->Some_0 }),
        ..v0
    };
    Map::new(
        |k: u64| m.dom().contains(k) && !(ord.contains(k) && k != ord[0]),
        |k: u64|
            if k == ord[0] {
                survivor
            } else {
                m[k]
            },
    )
}

/// The clips after a merge of the clips listed in `ids`, merged along `ord`
/// and the group renumbered along `order`.
pub open spec fn merge_outcome(
    m: Map<u64, ClipView>,
    ids: Seq<ClipId>,
    target: ClipId,
    ord: Seq<u64>,
    order: Seq<u64>,
    after: Map<u64, ClipView>,
) -> bool {
    &&& merge_order(m, ids, ord)
    &&& ord.len() > 0
    &&& ord[0] == target.0
    &&& cue_order(merged_map(m, ord), merge_group(m, ids), order)
    &&& reindexed(merged_map(m, ord), after, order)
}

/// The clips after merging the cues listed in `ids` into `target`: merged
/// along their timeline order and the group renumbered.
pub open spec fn merged_into(m: Map<u64, ClipView>, ids: Seq<ClipId>, target: ClipId, after: Map<u64, ClipView>) -> bool {
    exists|ord: Seq<u64>, order: Seq<u64>| #[trigger] merge_outcome(m, ids, target, ord, order, after)
}

/// The raw ids of a list of ordering keys.
pub open spec fn key_ids(keys: Seq<(i64, u64)>) -> Seq<u64> {
    Seq::new(keys.len(), |a: int| keys[a].1)
}

/// Whether some key has raw id `id`.
fn has_key(keys: &Vec<(i64, u64)>, id: u64) -> (r: bool)
    ensures
        r == key_ids(keys@).contains(id),
{
    let mut a: usize = 0;
    while a < keys.len()
        invariant
            a <= keys@.len(),
            forall|b: int| 0 <= b < a ==> keys@[b].1 != id,
        decreases keys@.len() - a,
    {
        if keys[a].1 == id {
            assert(key_ids(keys@)[a as int] == id);
            return true;
        }
        a += 1;
    }
    false
}

impl Project {
    /// Check every clip listed for a merge into `group` and collect their
    /// ordering keys, each clip once, in timeline order.
    fn merge_members(&self, clips: &[ClipId], group: CaptionGroupId) -> (r: Result<Vec<(i64, u64)>, ModelError>)
        requires
            self.wf(),
            clips@.len() >= 2,
            self.timeline.clips_view().dom().contains(clips@[0].0),
            is_cue_in(self.timeline.clips_view()[clips@[0].0], group),
        ensures
            ({
                let m = self.timeline.clips_view();
                &&& r is Ok <==> forall|i: int| 0 <= i < clips@.len() ==> #[trigger] member_fault(m, clips@, i) == 0
                &&& r matches Err(e) ==> merge_error(m, clips@, 3, e)
                &&& r matches Ok(keys) ==> {
                    &&& keys_sorted(keys@)
                    &&& forall|a: int|
                        0 <= a < keys@.len() ==> m.dom().contains(#[trigger] keys@[a].1) && keys@[a].0
                            == m[keys@[a].1].timeline.start.value && raw_ids(clips@).contains(keys@[a].1)
                    &&& forall|i: int| 0 <= i < clips@.len() ==> key_ids(keys@).contains(#[trigger] clips@[i].0)
                }
            }),
    {
        let ghost m = self.timeline.clips_view();
        assert(merge_group(m, clips@) == group);
        let mut keys: Vec<(i64, u64)> = Vec::new();
        let mut i: usize = 0;
        while i < clips.len()
            invariant
                self.wf(),
                m == self.timeline.clips_view(),
                merge_group(m, clips@) == group,
                i <= clips@.len(),
                keys_sorted(keys@),
                forall|j: int| 0 <= j < i ==> #[trigger] member_fault(m, clips@, j) == 0,
                forall|a: int|
                    0 <= a < keys@.len() ==> m.dom().contains(#[trigger] keys@[a].1) && keys@[a].0
                        == m[keys@[a].1].timeline.start.value && raw_ids(clips@).contains(keys@[a].1),
                forall|j: int| 0 <= j < i ==> key_ids(keys@).contains(#[trigger] clips@[j].0),
            decreases clips@.len() - i,
        {
            let id = clips[i];
            let c = match self.timeline.clip(id) {
                Some(c) => c,
                None => {
                    assert(member_fault(m, clips@, i as int) == 1);
                    return Err(ModelError::UnknownClip(id));
                },
            };
            let in_group = match &c.caption {
                Some(cue) => cue.group == group,
                None => false,
            };
            assert(in_group == is_cue_in(m[id.0], group));
            if !in_group {
                assert(member_fault(m, clips@, i as int) == 2);
                return Err(ModelError::invalid(chars_of("every merged cue must belong to the same caption group")));
            }
            let start = c.timeline.start.value;
            if !has_key(&keys, id.0) {
                let ghost k0 = keys@;
                proof {
                    assert forall|a: int| 0 <= a < k0.len() implies #[trigger] k0[a].1 != id.0 by {
                        assert(key_ids(k0)[a] == k0[a].1);
                    }
                }
                let p = insert_key(&mut keys, (start, id.0));
                proof {
                    assert(raw_ids(clips@)[i as int] == id.0);
                    assert forall|a: int| 0 <= a < keys@.len() implies m.dom().contains(#[trigger] keys@[a].1)
                        && keys@[a].0 == m[keys@[a].1].timeline.start.value && raw_ids(clips@).contains(keys@[a].1) by {
                        if a < p {
                            assert(keys@[a] == k0[a]);
                        } else if a > p {
                            assert(keys@[a] == k0[a - 1]);
                        }
                    }
                    assert forall|j: int| 0 <= j < i + 1 implies key_ids(keys@).contains(#[trigger] clips@[j].0) by {
                        if j < i {
                            assert(key_ids(k0).contains(clips@[j].0));
                            let b = choose|b: int| 0 <= b < k0.len() && key_ids(k0)[b] == clips@[j].0;
                            if b < p {
                                assert(key_ids(keys@)[b] == clips@[j].0);
                            } else {
                                assert(key_ids(keys@)[b + 1] == clips@[j].0);
                            }
                        } else {
                            assert(key_ids(keys@)[p as int] == clips@[j].0);
                        }
                    }
                }
            }
            i += 1;
        }
        Ok(keys)
    }
}

/// `a - b` for `b <= a`, capped at `i64::MAX`.
fn capped_diff(a: i64, b: i64) -> (r: i64)
    requires
        b <= a,
    ensures
        r == sat_diff(a as int, b as int),
{
    let d: i128 = a as i128 - b as i128;
    if d > 0x7FFF_FFFF_FFFF_FFFF {
        i64::MAX
    } else {
        d as i64
    }
}

impl Project {
    /// The merge parts of the clips keyed in `keys` (times measured from
    /// tick `base` at `rate`), and the latest end among them and `base`.
    fn merge_pieces(&self, keys: &Vec<(i64, u64)>, rate: Rational, base: i64) -> (r: (Vec<MergePart>, i64))
        requires
            self.wf(),
            forall|a: int|
                0 <= a < keys@.len() ==> self.timeline.clips_view().dom().contains(#[trigger] keys@[a].1)
                    && self.timeline.clips_view()[keys@[a].1].caption is Some
                    && base <= self.timeline.clips_view()[keys@[a].1].timeline.start.value,
        ensures
            Seq::new(r.0@.len(), |i: int| part_view(r.0@[i])) == merge_parts_spec(
                self.timeline.clips_view(),
                key_ids(keys@),
                rate,
                base as int,
            ),
            r.1 == merged_end(self.timeline.clips_view(), key_ids(keys@), keys@.len() as int, base as int),
    {
        let ghost m = self.timeline.clips_view();
        let ghost ord = key_ids(keys@);
        let mut parts: Vec<MergePart> = Vec::new();
        let mut end: i64 = base;
        let mut a: usize = 0;
        while a < keys.len()
            invariant
                self.wf(),
                m == self.timeline.clips_view(),
                ord == key_ids(keys@),
                forall|b: int|
                    0 <= b < keys@.len() ==> m.dom().contains(#[trigger] keys@[b].1) && m[keys@[b].1].caption is Some
                        && base <= m[keys@[b].1].timeline.start.value,
                a <= keys@.len(),
                parts@.len() == a,
                forall|b: int| 0 <= b < a ==> part_view(#[trigger] parts@[b]) == merge_parts_spec(m, ord, rate, base as int)[b],
                end == merged_end(m, ord, a as int, base as int),
            decreases keys@.len() - a,
        {
            let id = ClipId(keys[a].1);
            assert(ord[a as int] == id.0);
            match self.timeline.clip(id) {
                Some(c) => {
                    let e = c.timeline.end_tick();
                    if e > end {
                        end = e;
                    }
                    let text = match &c.text {
                        Some(t) => t.clone(),
                        None => {
                            let empty = String::new();
                            proof {
                                assert(empty@ =~= Seq::<char>::empty());
                            }
                            empty
                        },
                    };
                    let words = match &c.caption {
                        Some(cue) => crate::caption::cue::copy_words(&cue.words),
                        None => {
                            assert(false);
                            Vec::new()
                        },
                    };
                    let offset = Placement::at_rate(rate).ms(capped_diff(c.timeline.start.value, base));
                    parts.push(MergePart { text, words, ms_offset: offset });
                },
                None => {
                    assert(false);
                },
            }
            a += 1;
        }
        proof {
            assert(Seq::new(parts@.len(), |i: int| part_view(parts@[i])) =~= merge_parts_spec(m, ord, rate, base as int));
        }
        (parts, end)
    }

    /// Merge the cues keyed in `keys` (ascending, distinct, all cues of
    /// `group`) into the first, and renumber the group.
    fn merge_keys(&mut self, keys: &Vec<(i64, u64)>, group: CaptionGroupId)
        requires
            old(self).wf(),
            keys@.len() > 0,
            keys_sorted(keys@),
            forall|b: int|
                0 <= b < keys@.len() ==> old(self).timeline.clips_view().dom().contains(#[trigger] keys@[b].1)
                    && keys@[b].0 == old(self).timeline.clips_view()[keys@[b].1].timeline.start.value
                    && is_cue_in(old(self).timeline.clips_view()[keys@[b].1], group),
        ensures
            final(self).wf(),
            final(self).timeline.frame_rate == old(self).timeline.frame_rate,
            final(self).timeline.tracks_view() == old(self).timeline.tracks_view(),
            final(self).timeline.groups_view() == old(self).timeline.groups_view(),
            final(self).timeline.next_id == old(self).timeline.next_id,
            exists|order: Seq<u64>|
                cue_order(merged_map(old(self).timeline.clips_view(), key_ids(keys@)), group, order) && reindexed(
                    merged_map(old(self).timeline.clips_view(), key_ids(keys@)),
                    final(self).timeline.clips_view(),
                    order,
                ),
    {
        proof {
            let ord = key_ids(keys@);
            assert forall|b: int, c: int| 0 <= b < ord.len() && 0 <= c < ord.len() && b != c implies ord[b] != ord[c] by {
                if b < c {
                    assert(key_lt(keys@[b], keys@[c]));
                } else {
                    assert(key_lt(keys@[c], keys@[b]));
                }
            }
            assert forall|b: int| 0 <= b < keys@.len() implies keys@[0].0 <= (#[trigger] keys@[b]).0 by {
                if b > 0 {
                    assert(key_lt(keys@[0], keys@[b]));
                }
            }
        }
        let ghost m = self.timeline.clips_view();
        let ghost ord = key_ids(keys@);
        let target = ClipId(keys[0].1);
        let base = keys[0].0;
        let rate = match self.timeline.clip(target) {
            Some(c) => c.timeline.start.rate,
            None => {
                assert(false);
                return;
            },
        };
        let (parts, end) = self.merge_pieces(&keys, rate, base);
        let (text, words) = merge_parts(&parts);
        let ghost pv = Seq::new(parts@.len(), |i: int| part_view(parts@[i]));
        // Free the span before growing the survivor into it.
        let mut a: usize = 1;
        proof {
            assert(drop_keys(m, ord.subrange(1, 1)) =~= m);
        }
        while a < keys.len()
            invariant
                self.wf(),
                self.timeline.frame_rate == old(self).timeline.frame_rate,
                self.timeline.tracks_view() == old(self).timeline.tracks_view(),
                self.timeline.groups_view() == old(self).timeline.groups_view(),
                self.timeline.next_id == old(self).timeline.next_id,
                m == old(self).timeline.clips_view(),
                ord == key_ids(keys@),
                forall|b: int, c: int| 0 <= b < ord.len() && 0 <= c < ord.len() && b != c ==> ord[b] != ord[c],
                forall|b: int| 0 <= b < ord.len() ==> m.dom().contains(#[trigger] ord[b]),
                1 <= a <= keys@.len(),
                self.timeline.clips_view() == drop_keys(m, ord.subrange(1, a as int)),
            decreases keys@.len() - a,
        {
            let id = ClipId(keys[a].1);
            let ghost before = self.timeline.clips_view();
            proof {
                assert(ord[a as int] == id.0);
                assert(!ord.subrange(1, a as int).contains(id.0)) by {
                    if ord.subrange(1, a as int).contains(id.0) {
                        let b = choose|b: int| 0 <= b < a - 1 && ord.subrange(1, a as int)[b] == id.0;
                        assert(ord[b + 1] == ord[a as int]);
                    }
                }
            }
            let removed = self.timeline.remove_clip(id);
            proof {
                assert(removed is Some);
                let s1 = ord.subrange(1, a + 1);
                let s0 = ord.subrange(1, a as int);
                assert forall|k: u64| #[trigger] drop_keys(m, s1).dom().contains(k) == before.remove(id.0).dom().contains(k) by {
                    assert(s1[a - 1] == id.0);
                    if s1.contains(k) && k != id.0 {
                        let b = choose|b: int| 0 <= b < a && s1[b] == k;
                        assert(s0[b] == k);
                    }
                    if s0.contains(k) {
                        let b = choose|b: int| 0 <= b < a - 1 && s0[b] == k;
                        assert(s1[b] == k);
                    }
                }
                assert(self.timeline.clips_view() =~= drop_keys(m, s1));
            }
            a += 1;
        }
        let idx = match self.timeline.clip_index(target) {
            Some(i) => i,
            None => {
                proof {
                    assert(!ord.subrange(1, ord.len() as int).contains(target.0)) by {
                        if ord.subrange(1, ord.len() as int).contains(target.0) {
                            let b = choose|b: int| 0 <= b < ord.len() - 1 && ord.subrange(1, ord.len() as int)[b] == target.0;
                            assert(ord[b + 1] == ord[0]);
                        }
                    }
                }
                assert(false);
                return;
            },
        };
        proof {
            self.timeline.lemma_clip_at(idx as int);
            self.timeline.lemma_clip_placed(idx as int);
        }
        let mut survivor = self.timeline.clips[idx].copy();
        let span: i128 = end as i128 - base as i128;
        let dur: i64 = if span < 1 {
            1
        } else if span > 0x7FFF_FFFF_FFFF_FFFF {
            i64::MAX
        } else {
            span as i64
        };
        survivor.timeline = TimeRange::at_rate(base, dur, rate);
        if survivor.text.is_some() {
            survivor.text = Some(text);
        }
        let caption = match &survivor.caption {
            Some(c) => {
                let mut c2 = crate::timeline::copy_cue(c);
                c2.words = words;
                Some(c2)
            },
            None => {
                assert(false);
                None
            },
        };
        survivor.caption = caption;
        let ghost before = self.timeline.clips_view();
        proof {
            let v0 = m[ord[0]];
            assert(pv == merge_parts_spec(m, ord, rate, base as int));
            assert(v0.timeline.start.rate == rate);
            assert(v0.timeline.start.value == base);
            assert(v0 == before[target.0]);
            let sv = clip_view(survivor);
            assert(sv.timeline.start == RationalTime { value: base, rate });
            assert(sv.timeline.duration == RationalTime { value: dur, rate });
            assert(sv.track == v0.track);
            assert(sv.text == match v0.text { Some(_) => Some(merged_text(pv)), None => None::<Seq<char>> });
            assert(sv.caption == Some(CueView { words: merged_words(pv), ..v0.caption->Some_0 }));
            assert(merged_map(m, ord).dom().contains(target.0));
            assert(sv == merged_map(m, ord)[target.0]);
        }
        self.timeline.put_clip(idx, survivor);
        proof {
            assert(pv == merge_parts_spec(m, ord, rate, base as int));
            let mm = merged_map(m, ord);
            assert forall|k: u64| #[trigger] mm.dom().contains(k) == self.timeline.clips_view().dom().contains(k) by {
                if ord.contains(k) && k != ord[0] {
                    let b = choose|b: int| 0 <= b < ord.len() && ord[b] == k;
                    assert(ord.subrange(1, ord.len() as int)[b - 1] == k);
                }
                if ord.subrange(1, ord.len() as int).contains(k) {
                    let b = choose|b: int| 0 <= b < ord.len() - 1 && ord.subrange(1, ord.len() as int)[b] == k;
                    assert(ord[b + 1] == k);
                    assert(ord.contains(k));
                }
            }
            assert(self.timeline.clips_view() =~= mm);
        }
        let ghost mid = self.timeline.clips_view();
        self.timeline.reindex_caption_group(group);
        proof {
            assert(mid == merged_map(m, ord));
        }
    }

    /// Merge consecutive caption cues of one group into the earliest, joining
    /// their text with spaces and concatenating their word timings (each
    /// cue's offset by how long after the survivor it started).
    ///
    /// The survivor spans from the earliest start to the latest end, so
    /// merging two lines separated by a gap holds the joined line across it.
    /// The other cues are removed and the group renumbered.
    #[verifier::rlimit(40)]
    pub fn merge_caption_cues(&mut self, clips: &[ClipId]) -> (r: Result<ClipId, ModelError>)
        requires
            old(self).wf(),
        ensures
            final(self).wf(),
            r is Ok <==> merge_fault(old(self).timeline.clips_view(), clips@) == 0,
            r matches Err(e) ==> merge_error(
                old(self).timeline.clips_view(),
                clips@,
                merge_fault(old(self).timeline.clips_view(), clips@),
                e,
            ),
            r is Err ==> final(self).same_timeline(old(self)),
            r is Ok ==> final(self).timeline.frame_rate == old(self).timeline.frame_rate
                && final(self).timeline.tracks_view() == old(self).timeline.tracks_view()
                && final(self).timeline.groups_view() == old(self).timeline.groups_view()
                && final(self).timeline.next_id == old(self).timeline.next_id,
            r matches Ok(target) ==> merged_into(old(self).timeline.clips_view(), clips@, target, final(self).timeline.clips_view()),
    {
        let ghost m = self.timeline.clips_view();
        if clips.len() < 2 {
            return Err(ModelError::invalid(chars_of("merging captions needs at least two cues")));
        }
        let first = clips[0];
        let group = match self.timeline.clip(first) {
            Some(c) => match c.caption_group() {
                Some(g) => g,
                None => {
                    return Err(ModelError::NotACaptionCue(first));
                },
            },
            None => {
                return Err(ModelError::NotACaptionCue(first));
            },
        };
        assert(is_cue_in(m[first.0], group));
        let keys = match self.merge_members(clips, group) {
            Ok(k) => k,
            Err(e) => {
                assert(merge_fault(m, clips@) == 3) by {
                    let i = choose|i: int|
                        0 <= i < clips@.len() && #[trigger] member_fault(m, clips@, i) != 0 && (forall|j: int|
                            0 <= j < i ==> #[trigger] member_fault(m, clips@, j) == 0) && if member_fault(m, clips@, i) == 1 {
                            e == ModelError::UnknownClip(clips@[i])
                        } else {
                            e is InvalidParam
                        };
                }
                return Err(e);
            },
        };
        let ghost ord = key_ids(keys@);
        proof {
            assert(key_ids(keys@).contains(clips@[0].0));
            assert(merge_fault(m, clips@) == 0);
            assert forall|b: int, c: int| 0 <= b < ord.len() && 0 <= c < ord.len() && b != c implies ord[b] != ord[c] by {
                if b < c {
                    assert(key_lt(keys@[b], keys@[c]));
                } else {
                    assert(key_lt(keys@[c], keys@[b]));
                }
            }
            assert forall|b: int, c: int| 0 <= b < c < ord.len() implies cue_before(m, ord[b], ord[c]) by {
                assert(key_lt(keys@[b], keys@[c]));
            }
            assert(merge_order(m, clips@, ord));
            assert forall|b: int| 0 <= b < keys@.len() implies is_cue_in(m[#[trigger] keys@[b].1], group) by {
                assert(raw_ids(clips@).contains(keys@[b].1));
                let i = choose|i: int| 0 <= i < clips@.len() && raw_ids(clips@)[i] == keys@[b].1;
                assert(member_fault(m, clips@, i) == 0);
            }
            assert forall|b: int| 0 <= b < keys@.len() implies keys@[0].0 <= (#[trigger] keys@[b]).0 by {
                if b > 0 {
                    assert(key_lt(keys@[0], keys@[b]));
                }
            }
        }
        let target = ClipId(keys[0].1);
        self.merge_keys(&keys, group);
        let ghost order = choose|order: Seq<u64>|
            cue_order(merged_map(m, ord), group, order) && reindexed(merged_map(m, ord), self.timeline.clips_view(), order);
        proof {
            assert(merge_group(m, clips@) == group);
            assert(merge_outcome(m, clips@, target, ord, order, self.timeline.clips_view()));
        }
        assert(merge_outcome(old(self).timeline.clips_view(), clips@, target, ord, order, self.timeline.clips_view()));
        assert(merged_into(old(self).timeline.clips_view(), clips@, target, self.timeline.clips_view()));
        Ok(target)
    }
}

/// The clips after detaching the first `n` listed clips from their groups.
pub open spec fn ungrouped(m: Map<u64, ClipView>, ids: Seq<ClipId>, n: int) -> Map<u64, ClipView>
    decreases n,
{
    if n <= 0 {
        m
    } else {
        let s = ungrouped(m, ids, n - 1);
        s.insert(ids[n - 1].0, ClipView { caption: None, ..s[ids[n - 1].0] })
    }
}

/// What stops detaching listed clip `i` once those before it are detached:
/// `0` nothing, `1` no such clip, `2` it is no cue (any more).
pub open spec fn ungroup_fault(m: Map<u64, ClipView>, ids: Seq<ClipId>, i: int) -> int {
    let s = ungrouped(m, ids, i);
    if !s.dom().contains(ids[i].0) {
        1
    } else if s[ids[i].0].caption is None {
        2
    } else {
        0
    }
}

impl Project {
    /// Detach cues from their groups, one after another, leaving them as
    /// ordinary text clips; groups left without cues are dropped.
    ///
    /// A clip that is unknown, or no cue by the time it is reached, stops
    /// the walk with an error; the clips before it stay detached and no group
    /// is dropped.
    pub fn ungroup_caption_cues(&mut self, clips: &[ClipId]) -> (r: Result<(), ModelError>)
        requires
            old(self).wf(),
        ensures
            final(self).wf(),
            final(self).timeline.frame_rate == old(self).timeline.frame_rate,
            final(self).timeline.tracks_view() == old(self).timeline.tracks_view(),
            final(self).timeline.next_id == old(self).timeline.next_id,
            r is Ok <==> forall|i: int| 0 <= i < clips@.len() ==> #[trigger] ungroup_fault(old(self).timeline.clips_view(), clips@, i) == 0,
            r is Ok ==> {
                let after = ungrouped(old(self).timeline.clips_view(), clips@, clips@.len() as int);
                &&& final(self).timeline.clips_view() == after
                &&& final(self).timeline.groups_view() == old(self).timeline.groups_view().restrict(
                    Set::new(|g: u64| group_in_use(after, g)),
                )
            },
            r matches Err(e) ==> exists|k: int|
                0 <= k < clips@.len() && #[trigger] ungroup_fault(old(self).timeline.clips_view(), clips@, k) != 0
                    && (forall|j: int| 0 <= j < k ==> #[trigger] ungroup_fault(old(self).timeline.clips_view(), clips@, j) == 0)
                    && final(self).timeline.clips_view() == ungrouped(old(self).timeline.clips_view(), clips@, k)
                    && final(self).timeline.groups_view() == old(self).timeline.groups_view() && if ungroup_fault(
                    old(self).timeline.clips_view(),
                    clips@,
                    k,
                ) == 1 {
                    e == ModelError::UnknownClip(clips@[k])
                } else {
                    e == ModelError::NotACaptionCue(clips@[k])
                },
    {
        let ghost m = self.timeline.clips_view();
        let mut i: usize = 0;
        while i < clips.len()
            invariant
                self.wf(),
                self.timeline.frame_rate == old(self).timeline.frame_rate,
                self.timeline.tracks_view() == old(self).timeline.tracks_view(),
                self.timeline.groups_view() == old(self).timeline.groups_view(),
                self.timeline.next_id == old(self).timeline.next_id,
                m == old(self).timeline.clips_view(),
                i <= clips@.len(),
                forall|j: int| 0 <= j < i ==> #[trigger] ungroup_fault(m, clips@, j) == 0,
                self.timeline.clips_view() == ungrouped(m, clips@, i as int),
            decreases clips@.len() - i,
        {
            let id = clips[i];
            let idx = match self.timeline.clip_index(id) {
                Some(idx) => idx,
                None => {
                    assert(ungroup_fault(m, clips@, i as int) == 1);
                    return Err(ModelError::UnknownClip(id));
                },
            };
            proof {
                self.timeline.lemma_clip_at(idx as int);
                self.timeline.lemma_clip_placed(idx as int);
            }
            let mut clip = self.timeline.clips[idx].copy();
            if clip.caption.is_none() {
                assert(ungroup_fault(m, clips@, i as int) == 2);
                return Err(ModelError::NotACaptionCue(id));
            }
            clip.caption = None;
            self.timeline.put_clip(idx, clip);
            proof {
                assert(self.timeline.clips_view() =~= ungrouped(m, clips@, i + 1));
            }
            i += 1;
        }
        self.timeline.prune_empty_caption_groups();
        Ok(())
    }
}

/// What stops placing a plain text clip over `range` on `track`, in the
/// order it is checked: `0` nothing, `1` no such lane, `2` not a text lane,
/// `3` an empty or negative range, `4` a rate other than the timeline's, `5`
/// a collision with a clip on the lane, `6` no id left.
pub open spec fn text_clip_fault(t: Timeline, track: TrackId, range: TimeRange) -> int {
    let tracks = t.tracks_view();
    if !tracks.dom().contains(track.0) {
        1
    } else if tracks[track.0] != TrackKind::Text {
        2
    } else if range.duration.value <= 0 || range.start.value < 0 {
        3
    } else if range.start.rate != t.frame_rate || range.duration.rate != t.frame_rate {
        4
    } else if !lane_clear(t.clips_view(), track, range) {
        5
    } else if t.next_id == u64::MAX {
        6
    } else {
        0
    }
}

/// The error a text-clip fault of kind `kind` is reported as.
pub open spec fn text_clip_error(t: Timeline, track: TrackId, kind: int, e: ModelError) -> bool {
    if kind == 1 {
        e == ModelError::UnknownTrack(track)
    } else if kind == 2 {
        e == ModelError::IncompatibleTrackKind { track, kind: t.tracks_view()[track.0] }
    } else if kind == 3 {
        e is InvalidRange
    } else if kind == 5 {
        e == ModelError::Overlap(track)
    } else {
        e is InvalidParam
    }
}

impl Project {
    /// Place a plain text clip (a title, no caption) showing `content` over
    /// `range` on text lane `track`, under the next id.
    pub fn add_text_clip(&mut self, track: TrackId, content: &str, range: TimeRange) -> (r: Result<ClipId, ModelError>)
        requires
            old(self).wf(),
        ensures
            final(self).wf(),
            ({
                let t = old(self).timeline;
                let kind = text_clip_fault(t, track, range);
                &&& r is Ok <==> kind == 0
                &&& r matches Err(e) ==> text_clip_error(t, track, kind, e) && final(self).same_timeline(old(self))
                &&& r matches Ok(id) ==> {
                    &&& id.0 == t.next_id
                    &&& final(self).timeline.frame_rate == t.frame_rate
                    &&& final(self).timeline.tracks_view() == t.tracks_view()
                    &&& final(self).timeline.groups_view() == t.groups_view()
                    &&& final(self).timeline.next_id == t.next_id + 1
                    &&& final(self).timeline.clips_view() == t.clips_view().insert(
                        id.0,
                        ClipView { track, timeline: range, text: Some(content@), caption: None },
                    )
                }
            }),
    {
        match self.require_text_track(track) {
            Ok(()) => {},
            Err(e) => {
                return Err(e);
            },
        }
        if range.duration.value <= 0 || range.start.value < 0 {
            return Err(ModelError::InvalidRange);
        }
        if range.start.rate != self.timeline.frame_rate || range.duration.rate != self.timeline.frame_rate {
            return Err(ModelError::invalid(chars_of("clips must be at the timeline rate")));
        }
        if lane_overlaps(&self.timeline, track, range) {
            return Err(ModelError::Overlap(track));
        }
        if self.timeline.next_id == u64::MAX {
            return Err(ModelError::invalid(chars_of("no ids left")));
        }
        let text = string_of(chars_of(content).as_slice());
        match self.timeline.place_clip(track, range, Some(text), None) {
            Ok(id) => Ok(id),
            Err(e) => {
                assert(false);
                Err(e)
            },
        }
    }
}

} // verus!
