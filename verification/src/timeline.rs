//! The timeline captions live on: lanes, clips, and the caption groups whose
//! cues are ordinary text clips.
//!
//! Clips and groups are kept in vectors but described by maps from raw id to
//! plain values, so "what the timeline holds" does not depend on the order in
//! which things were inserted: removing a group and putting it back gives the
//! same timeline, whatever order the vectors end up in.

use vstd::prelude::*;

use crate::caption::cue::{copy_words, words_view, CaptionCue};
use crate::caption::group::{CaptionFileFormat, CaptionSource};
use crate::caption::highlight::CaptionHighlightMode;
use crate::caption::layout::CaptionLayout;
use crate::error::ModelError;
use crate::ids::{CaptionGroupId, ClipId, MediaId, TrackId};
use crate::text::{chars_of, string_of};
use crate::time::{Rational, TimeRange};
use vstd::pervasive::VecAdditionalExecFns;

verus! {

/// The kind of lane a clip sits on.
#[derive(Debug, Clone, Copy, PartialEq, Eq, Structural)]
pub enum TrackKind {
    Video,
    Audio,
    Text,
}

/// One lane of the timeline.
#[derive(Debug, PartialEq)]
pub struct Track {
    pub id: TrackId,
    pub kind: TrackKind,
    pub name: String,
}

/// A clip on the timeline. Text clips carry their content; a caption cue is a
/// text clip that also carries [`CaptionCue`] metadata.
#[derive(Debug, PartialEq)]
pub struct Clip {
    pub id: ClipId,
    pub track: TrackId,
    pub timeline: TimeRange,
    /// The text a text clip shows; `None` for any other clip.
    pub text: Option<String>,
    /// Caption metadata, present exactly when the clip is a caption cue.
    pub caption: Option<CaptionCue>,
}

/// A set of caption cues sharing segmentation rules, provenance and
/// highlighting. The cues themselves are text clips on `track`.
#[derive(Debug, PartialEq)]
pub struct CaptionGroup {
    pub id: CaptionGroupId,
    /// Display name in the caption list.
    pub label: String,
    /// The text lane holding the group's cues.
    pub track: TrackId,
    pub layout: CaptionLayout,
    pub source: CaptionSource,
    /// Caption template id the group's look came from; `None` once edited by
    /// hand.
    pub template: Option<String>,
    /// How cues highlight during playback; `None` for plain captions.
    pub highlight: Option<CaptionHighlightMode>,
}

/// A cue's caption metadata as plain values.
pub struct CueView {
    pub group: CaptionGroupId,
    pub index: u32,
    pub words: Seq<(u32, u32, u32, u32)>,
    pub speaker: Option<Seq<char>>,
    pub text_edited: bool,
    pub style_override: bool,
}

/// A clip as plain values (its id is the key it is filed under).
pub struct ClipView {
    pub track: TrackId,
    pub timeline: TimeRange,
    pub text: Option<Seq<char>>,
    pub caption: Option<CueView>,
}

/// Where a group's cues came from, as plain values.
pub enum SourceView {
    Manual,
    Imported { format: CaptionFileFormat },
    Auto { media: MediaId, language: Option<Seq<char>>, model: Seq<char> },
}

/// A caption group as plain values (its id is the key it is filed under).
pub struct GroupView {
    pub label: Seq<char>,
    pub track: TrackId,
    pub layout: CaptionLayout,
    pub source: SourceView,
    pub template: Option<Seq<char>>,
    pub highlight: Option<CaptionHighlightMode>,
}

/// An optional string as an optional character sequence.
pub open spec fn opt_view(s: Option<String>) -> Option<Seq<char>> {
    match s {
        Some(x) => Some(x@),
        None => None,
    }
}

pub open spec fn cue_view(c: CaptionCue) -> CueView {
    CueView {
        group: c.group,
        index: c.index,
        words: words_view(c.words@),
        speaker: opt_view(c.speaker),
        text_edited: c.text_edited,
        style_override: c.style_override,
    }
}

pub open spec fn opt_cue_view(c: Option<CaptionCue>) -> Option<CueView> {
    match c {
        Some(x) => Some(cue_view(x)),
        None => None,
    }
}

pub open spec fn clip_view(c: Clip) -> ClipView {
    ClipView {
        track: c.track,
        timeline: c.timeline,
        text: opt_view(c.text),
        caption: opt_cue_view(c.caption),
    }
}

pub open spec fn source_view(s: CaptionSource) -> SourceView {
    match s {
        CaptionSource::Manual => SourceView::Manual,
        CaptionSource::Imported { format } => SourceView::Imported { format },
        CaptionSource::Auto { media, language, model } => SourceView::Auto {
            media,
            language: opt_view(language),
            model: model@,
        },
    }
}

pub open spec fn group_view(g: CaptionGroup) -> GroupView {
    GroupView {
        label: g.label@,
        track: g.track,
        layout: g.layout,
        source: source_view(g.source),
        template: opt_view(g.template),
        highlight: g.highlight,
    }
}

// --- keyed views of the clip and group vectors -------------------------------

/// No two clips share an id.
pub open spec fn clip_ids_unique(s: Seq<Clip>) -> bool {
    forall|i: int, j: int|
        0 <= i < s.len() && 0 <= j < s.len() && #[trigger] s[i].id == #[trigger] s[j].id ==> i == j
}

/// Some clip has raw id `k`.
pub open spec fn has_clip(s: Seq<Clip>, k: u64) -> bool {
    exists|i: int| 0 <= i < s.len() && #[trigger] s[i].id.0 == k
}

/// The clips filed by raw id.
pub open spec fn clip_map(s: Seq<Clip>) -> Map<u64, ClipView> {
    Map::new(
        |k: u64| has_clip(s, k),
        |k: u64| clip_view(s[choose|i: int| 0 <= i < s.len() && #[trigger] s[i].id.0 == k]),
    )
}

/// No two groups share an id.
pub open spec fn group_ids_unique(s: Seq<CaptionGroup>) -> bool {
    forall|i: int, j: int|
        0 <= i < s.len() && 0 <= j < s.len() && #[trigger] s[i].id == #[trigger] s[j].id ==> i == j
}

/// Some group has raw id `k`.
pub open spec fn has_group(s: Seq<CaptionGroup>, k: u64) -> bool {
    exists|i: int| 0 <= i < s.len() && #[trigger] s[i].id.0 == k
}

/// The groups filed by raw id.
pub open spec fn group_map(s: Seq<CaptionGroup>) -> Map<u64, GroupView> {
    Map::new(
        |k: u64| has_group(s, k),
        |k: u64| group_view(s[choose|i: int| 0 <= i < s.len() && #[trigger] s[i].id.0 == k]),
    )
}

/// No two tracks share an id.
pub open spec fn track_ids_unique(s: Seq<Track>) -> bool {
    forall|i: int, j: int|
        0 <= i < s.len() && 0 <= j < s.len() && #[trigger] s[i].id == #[trigger] s[j].id ==> i == j
}

/// The tracks filed by raw id: each lane's kind.
pub open spec fn track_map(s: Seq<Track>) -> Map<u64, TrackKind> {
    Map::new(
        |k: u64| exists|i: int| 0 <= i < s.len() && #[trigger] s[i].id.0 == k,
        |k: u64| s[choose|i: int| 0 <= i < s.len() && #[trigger] s[i].id.0 == k].kind,
    )
}

/// Clip `i` is filed under its id.
pub proof fn lemma_clip_map_at(s: Seq<Clip>, i: int)
    requires
        clip_ids_unique(s),
        0 <= i < s.len(),
    ensures
        clip_map(s).dom().contains(s[i].id.0),
        clip_map(s)[s[i].id.0] == clip_view(s[i]),
{
    assert(has_clip(s, s[i].id.0));
    let j = choose|j: int| 0 <= j < s.len() && #[trigger] s[j].id.0 == s[i].id.0;
    assert(s[j].id == s[i].id);
}

/// Appending a clip with a fresh id files it under that id.
pub proof fn lemma_clip_map_push(s: Seq<Clip>, c: Clip)
    requires
        clip_ids_unique(s),
        !clip_map(s).dom().contains(c.id.0),
    ensures
        clip_ids_unique(s.push(c)),
        clip_map(s.push(c)) == clip_map(s).insert(c.id.0, clip_view(c)),
{
    let t = s.push(c);
    assert forall|i: int, j: int|
        0 <= i < t.len() && 0 <= j < t.len() && #[trigger] t[i].id == #[trigger] t[j].id implies i
        == j by {
        if i < s.len() && j == s.len() {
            assert(has_clip(s, s[i].id.0));
        }
        if j < s.len() && i == s.len() {
            assert(has_clip(s, s[j].id.0));
        }
        if i < s.len() && j < s.len() {
            assert(s[i].id == s[j].id);
        }
    }
    let m = clip_map(s).insert(c.id.0, clip_view(c));
    assert forall|k: u64| #[trigger] clip_map(t).dom().contains(k) <==> m.dom().contains(k) by {
        if has_clip(t, k) {
            let i = choose|i: int| 0 <= i < t.len() && #[trigger] t[i].id.0 == k;
            if i < s.len() {
                assert(s[i].id.0 == k);
                assert(has_clip(s, k));
            }
        }
        if has_clip(s, k) {
            let i = choose|i: int| 0 <= i < s.len() && #[trigger] s[i].id.0 == k;
            assert(t[i].id.0 == k);
            assert(has_clip(t, k));
        }
        if k == c.id.0 {
            assert(t[s.len() as int].id.0 == k);
            assert(has_clip(t, k));
        }
    }
    assert forall|k: u64| #[trigger] m.dom().contains(k) implies clip_map(t)[k] == m[k] by {
        if k == c.id.0 {
            lemma_clip_map_at(t, s.len() as int);
        } else {
            let i = choose|i: int| 0 <= i < s.len() && #[trigger] s[i].id.0 == k;
            lemma_clip_map_at(s, i);
            lemma_clip_map_at(t, i);
        }
    }
    assert(clip_map(t) =~= m);
}

/// Dropping clip `i` unfiles its id and nothing else.
pub proof fn lemma_clip_map_remove(s: Seq<Clip>, i: int)
    requires
        clip_ids_unique(s),
        0 <= i < s.len(),
    ensures
        clip_ids_unique(s.remove(i)),
        clip_map(s.remove(i)) == clip_map(s).remove(s[i].id.0),
{
    let t = s.remove(i);
    assert forall|a: int, b: int|
        0 <= a < t.len() && 0 <= b < t.len() && #[trigger] t[a].id == #[trigger] t[b].id implies a
        == b by {
        let a2 = if a < i { a } else { a + 1 };
        let b2 = if b < i { b } else { b + 1 };
        assert(s[a2].id == s[b2].id);
    }
    let m = clip_map(s).remove(s[i].id.0);
    assert forall|k: u64| #[trigger] clip_map(t).dom().contains(k) <==> m.dom().contains(k) by {
        if has_clip(t, k) {
            let a = choose|a: int| 0 <= a < t.len() && #[trigger] t[a].id.0 == k;
            let a2 = if a < i { a } else { a + 1 };
            assert(s[a2].id.0 == k);
            assert(has_clip(s, k));
            assert(a2 != i);
            if k == s[i].id.0 {
                assert(s[a2].id == s[i].id);
            }
        }
        if has_clip(s, k) && k != s[i].id.0 {
            let a = choose|a: int| 0 <= a < s.len() && #[trigger] s[a].id.0 == k;
            assert(a != i);
            let a2 = if a < i { a } else { a - 1 };
            assert(t[a2].id.0 == k);
            assert(has_clip(t, k));
        }
    }
    assert forall|k: u64| #[trigger] m.dom().contains(k) implies clip_map(t)[k] == m[k] by {
        let a = choose|a: int| 0 <= a < s.len() && #[trigger] s[a].id.0 == k;
        assert(a != i);
        let a2 = if a < i { a } else { a - 1 };
        lemma_clip_map_at(s, a);
        lemma_clip_map_at(t, a2);
    }
    assert(clip_map(t) =~= m);
}

/// Replacing clip `i` by one with the same id refiles that id.
pub proof fn lemma_clip_map_update(s: Seq<Clip>, i: int, c: Clip)
    requires
        clip_ids_unique(s),
        0 <= i < s.len(),
        c.id == s[i].id,
    ensures
        clip_ids_unique(s.update(i, c)),
        clip_map(s.update(i, c)) == clip_map(s).insert(c.id.0, clip_view(c)),
{
    let t = s.update(i, c);
    assert forall|a: int, b: int|
        0 <= a < t.len() && 0 <= b < t.len() && #[trigger] t[a].id == #[trigger] t[b].id implies a
        == b by {
        assert(s[a].id == s[b].id);
    }
    let m = clip_map(s).insert(c.id.0, clip_view(c));
    lemma_clip_map_at(s, i);
    assert forall|k: u64| #[trigger] clip_map(t).dom().contains(k) <==> m.dom().contains(k) by {
        if has_clip(t, k) {
            let a = choose|a: int| 0 <= a < t.len() && #[trigger] t[a].id.0 == k;
            assert(s[a].id.0 == k);
            assert(has_clip(s, k));
        }
        if has_clip(s, k) {
            let a = choose|a: int| 0 <= a < s.len() && #[trigger] s[a].id.0 == k;
            assert(t[a].id.0 == k);
            assert(has_clip(t, k));
        }
    }
    assert forall|k: u64| #[trigger] m.dom().contains(k) implies clip_map(t)[k] == m[k] by {
        let a = choose|a: int| 0 <= a < s.len() && #[trigger] s[a].id.0 == k;
        lemma_clip_map_at(s, a);
        lemma_clip_map_at(t, a);
    }
    assert(clip_map(t) =~= m);
}

/// As many ids are filed as there are clips.
pub proof fn lemma_clip_map_len(s: Seq<Clip>)
    requires
        clip_ids_unique(s),
    ensures
        clip_map(s).dom().finite(),
        clip_map(s).dom().len() == s.len(),
    decreases s.len(),
{
    if s.len() == 0 {
        assert(clip_map(s).dom() =~= Set::<u64>::empty());
    } else {
        let p = s.drop_last();
        assert forall|i: int, j: int|
            0 <= i < p.len() && 0 <= j < p.len() && #[trigger] p[i].id == #[trigger] p[j].id implies i
            == j by {
            assert(s[i].id == s[j].id);
        }
        lemma_clip_map_len(p);
        if clip_map(p).dom().contains(s.last().id.0) {
            let i = choose|i: int| 0 <= i < p.len() && #[trigger] p[i].id.0 == s.last().id.0;
            assert(s[i].id == s[s.len() - 1].id);
        }
        lemma_clip_map_push(p, s.last());
        assert(p.push(s.last()) =~= s);
    }
}

/// Group `i` is filed under its id.
pub proof fn lemma_group_map_at(s: Seq<CaptionGroup>, i: int)
    requires
        group_ids_unique(s),
        0 <= i < s.len(),
    ensures
        group_map(s).dom().contains(s[i].id.0),
        group_map(s)[s[i].id.0] == group_view(s[i]),
{
    assert(has_group(s, s[i].id.0));
    let j = choose|j: int| 0 <= j < s.len() && #[trigger] s[j].id.0 == s[i].id.0;
    assert(s[j].id == s[i].id);
}

/// Appending a group with a fresh id files it under that id.
pub proof fn lemma_group_map_push(s: Seq<CaptionGroup>, g: CaptionGroup)
    requires
        group_ids_unique(s),
        !group_map(s).dom().contains(g.id.0),
    ensures
        group_ids_unique(s.push(g)),
        group_map(s.push(g)) == group_map(s).insert(g.id.0, group_view(g)),
{
    let t = s.push(g);
    assert forall|i: int, j: int|
        0 <= i < t.len() && 0 <= j < t.len() && #[trigger] t[i].id == #[trigger] t[j].id implies i
        == j by {
        if i < s.len() && j == s.len() {
            assert(has_group(s, s[i].id.0));
        }
        if j < s.len() && i == s.len() {
            assert(has_group(s, s[j].id.0));
        }
        if i < s.len() && j < s.len() {
            assert(s[i].id == s[j].id);
        }
    }
    let m = group_map(s).insert(g.id.0, group_view(g));
    assert forall|k: u64| #[trigger] group_map(t).dom().contains(k) <==> m.dom().contains(k) by {
        if has_group(t, k) {
            let i = choose|i: int| 0 <= i < t.len() && #[trigger] t[i].id.0 == k;
            if i < s.len() {
                assert(s[i].id.0 == k);
                assert(has_group(s, k));
            }
        }
        if has_group(s, k) {
            let i = choose|i: int| 0 <= i < s.len() && #[trigger] s[i].id.0 == k;
            assert(t[i].id.0 == k);
            assert(has_group(t, k));
        }
        if k == g.id.0 {
            assert(t[s.len() as int].id.0 == k);
            assert(has_group(t, k));
        }
    }
    assert forall|k: u64| #[trigger] m.dom().contains(k) implies group_map(t)[k] == m[k] by {
        if k == g.id.0 {
            lemma_group_map_at(t, s.len() as int);
        } else {
            let i = choose|i: int| 0 <= i < s.len() && #[trigger] s[i].id.0 == k;
            lemma_group_map_at(s, i);
            lemma_group_map_at(t, i);
        }
    }
    assert(group_map(t) =~= m);
}

/// Dropping group `i` unfiles its id and nothing else.
pub proof fn lemma_group_map_remove(s: Seq<CaptionGroup>, i: int)
    requires
        group_ids_unique(s),
        0 <= i < s.len(),
    ensures
        group_ids_unique(s.remove(i)),
        group_map(s.remove(i)) == group_map(s).remove(s[i].id.0),
{
    let t = s.remove(i);
    assert forall|a: int, b: int|
        0 <= a < t.len() && 0 <= b < t.len() && #[trigger] t[a].id == #[trigger] t[b].id implies a
        == b by {
        let a2 = if a < i { a } else { a + 1 };
        let b2 = if b < i { b } else { b + 1 };
        assert(s[a2].id == s[b2].id);
    }
    let m = group_map(s).remove(s[i].id.0);
    assert forall|k: u64| #[trigger] group_map(t).dom().contains(k) <==> m.dom().contains(k) by {
        if has_group(t, k) {
            let a = choose|a: int| 0 <= a < t.len() && #[trigger] t[a].id.0 == k;
            let a2 = if a < i { a } else { a + 1 };
            assert(s[a2].id.0 == k);
            assert(has_group(s, k));
            if k == s[i].id.0 {
                assert(s[a2].id == s[i].id);
            }
        }
        if has_group(s, k) && k != s[i].id.0 {
            let a = choose|a: int| 0 <= a < s.len() && #[trigger] s[a].id.0 == k;
            assert(a != i);
            let a2 = if a < i { a } else { a - 1 };
            assert(t[a2].id.0 == k);
            assert(has_group(t, k));
        }
    }
    assert forall|k: u64| #[trigger] m.dom().contains(k) implies group_map(t)[k] == m[k] by {
        let a = choose|a: int| 0 <= a < s.len() && #[trigger] s[a].id.0 == k;
        assert(a != i);
        let a2 = if a < i { a } else { a - 1 };
        lemma_group_map_at(s, a);
        lemma_group_map_at(t, a2);
    }
    assert(group_map(t) =~= m);
}

/// Replacing group `i` by one with the same id refiles that id.
pub proof fn lemma_group_map_update(s: Seq<CaptionGroup>, i: int, g: CaptionGroup)
    requires
        group_ids_unique(s),
        0 <= i < s.len(),
        g.id == s[i].id,
    ensures
        group_ids_unique(s.update(i, g)),
        group_map(s.update(i, g)) == group_map(s).insert(g.id.0, group_view(g)),
{
    let t = s.update(i, g);
    assert forall|a: int, b: int|
        0 <= a < t.len() && 0 <= b < t.len() && #[trigger] t[a].id == #[trigger] t[b].id implies a
        == b by {
        assert(s[a].id == s[b].id);
    }
    let m = group_map(s).insert(g.id.0, group_view(g));
    lemma_group_map_at(s, i);
    assert forall|k: u64| #[trigger] group_map(t).dom().contains(k) <==> m.dom().contains(k) by {
        if has_group(t, k) {
            let a = choose|a: int| 0 <= a < t.len() && #[trigger] t[a].id.0 == k;
            assert(s[a].id.0 == k);
            assert(has_group(s, k));
        }
        if has_group(s, k) {
            let a = choose|a: int| 0 <= a < s.len() && #[trigger] s[a].id.0 == k;
            assert(t[a].id.0 == k);
            assert(has_group(t, k));
        }
    }
    assert forall|k: u64| #[trigger] m.dom().contains(k) implies group_map(t)[k] == m[k] by {
        let a = choose|a: int| 0 <= a < s.len() && #[trigger] s[a].id.0 == k;
        lemma_group_map_at(s, a);
        lemma_group_map_at(t, a);
    }
    assert(group_map(t) =~= m);
}

/// As many ids are filed as there are groups.
pub proof fn lemma_group_map_len(s: Seq<CaptionGroup>)
    requires
        group_ids_unique(s),
    ensures
        group_map(s).dom().finite(),
        group_map(s).dom().len() == s.len(),
    decreases s.len(),
{
    if s.len() == 0 {
        assert(group_map(s).dom() =~= Set::<u64>::empty());
    } else {
        let p = s.drop_last();
        assert forall|i: int, j: int|
            0 <= i < p.len() && 0 <= j < p.len() && #[trigger] p[i].id == #[trigger] p[j].id implies i
            == j by {
            assert(s[i].id == s[j].id);
        }
        lemma_group_map_len(p);
        if group_map(p).dom().contains(s.last().id.0) {
            let i = choose|i: int| 0 <= i < p.len() && #[trigger] p[i].id.0 == s.last().id.0;
            assert(s[i].id == s[s.len() - 1].id);
        }
        lemma_group_map_push(p, s.last());
        assert(p.push(s.last()) =~= s);
    }
}

/// Track `i` is filed under its id.
pub proof fn lemma_track_map_at(s: Seq<Track>, i: int)
    requires
        track_ids_unique(s),
        0 <= i < s.len(),
    ensures
        track_map(s).dom().contains(s[i].id.0),
        track_map(s)[s[i].id.0] == s[i].kind,
{
    assert(s[i].id.0 == s[i].id.0);
    let j = choose|j: int| 0 <= j < s.len() && #[trigger] s[j].id.0 == s[i].id.0;
    assert(s[j].id == s[i].id);
}

/// Appending a track with a fresh id files it under that id.
pub proof fn lemma_track_map_push(s: Seq<Track>, t: Track)
    requires
        track_ids_unique(s),
        !track_map(s).dom().contains(t.id.0),
    ensures
        track_ids_unique(s.push(t)),
        track_map(s.push(t)) == track_map(s).insert(t.id.0, t.kind),
{
    let u = s.push(t);
    assert forall|i: int, j: int|
        0 <= i < u.len() && 0 <= j < u.len() && #[trigger] u[i].id == #[trigger] u[j].id implies i
        == j by {
        if i < s.len() && j == s.len() {
            assert(s[i].id.0 == t.id.0);
        }
        if j < s.len() && i == s.len() {
            assert(s[j].id.0 == t.id.0);
        }
        if i < s.len() && j < s.len() {
            assert(s[i].id == s[j].id);
        }
    }
    let m = track_map(s).insert(t.id.0, t.kind);
    assert forall|k: u64| #[trigger] track_map(u).dom().contains(k) <==> m.dom().contains(k) by {
        if track_map(u).dom().contains(k) {
            let i = choose|i: int| 0 <= i < u.len() && #[trigger] u[i].id.0 == k;
            if i < s.len() {
                assert(s[i].id.0 == k);
            }
        }
        if track_map(s).dom().contains(k) {
            let i = choose|i: int| 0 <= i < s.len() && #[trigger] s[i].id.0 == k;
            assert(u[i].id.0 == k);
        }
        if k == t.id.0 {
            assert(u[s.len() as int].id.0 == k);
        }
    }
    assert forall|k: u64| #[trigger] m.dom().contains(k) implies track_map(u)[k] == m[k] by {
        if k == t.id.0 {
            lemma_track_map_at(u, s.len() as int);
        } else {
            let i = choose|i: int| 0 <= i < s.len() && #[trigger] s[i].id.0 == k;
            lemma_track_map_at(s, i);
            lemma_track_map_at(u, i);
        }
    }
    assert(track_map(u) =~= m);
}

// --- the timeline -----------------------------------------------------------

/// An id below the allocator's next id, on an existing lane.
pub open spec fn placed(id: u64, track: TrackId, next_id: u64, tracks: Map<u64, TrackKind>) -> bool {
    id < next_id && tracks.dom().contains(track.0)
}

/// The lanes, clips and caption groups of one sequence.
#[derive(Debug)]
pub struct Timeline {
    /// The rate every clip on the timeline is placed at.
    pub frame_rate: Rational,
    pub tracks: Vec<Track>,
    pub clips: Vec<Clip>,
    pub groups: Vec<CaptionGroup>,
    /// The next unused id; every id in use is below it.
    pub next_id: u64,
}

impl Timeline {
    /// The clips, filed by raw id.
    pub open spec fn clips_view(&self) -> Map<u64, ClipView> {
        clip_map(self.clips@)
    }

    /// The caption groups, filed by raw id.
    pub open spec fn groups_view(&self) -> Map<u64, GroupView> {
        group_map(self.groups@)
    }

    /// Each lane's kind, filed by raw id.
    pub open spec fn tracks_view(&self) -> Map<u64, TrackKind> {
        track_map(self.tracks@)
    }

    /// Ids are unique and below [`Self::next_id`], and every clip and group
    /// sits on an existing lane.
    pub open spec fn wf(&self) -> bool {
        &&& clip_ids_unique(self.clips@)
        &&& group_ids_unique(self.groups@)
        &&& track_ids_unique(self.tracks@)
        &&& forall|i: int|
            0 <= i < self.clips@.len() ==> placed(#[trigger] self.clips@[i].id.0, self.clips@[i].track,
                self.next_id, self.tracks_view())
        &&& forall|i: int|
            0 <= i < self.groups@.len() ==> placed(#[trigger] self.groups@[i].id.0,
                self.groups@[i].track, self.next_id, self.tracks_view())
        &&& forall|i: int| 0 <= i < self.tracks@.len() ==> #[trigger] self.tracks@[i].id.0 < self.next_id
    }

    /// An empty timeline at `frame_rate`.
    pub fn new(frame_rate: Rational) -> (t: Timeline)
        ensures
            t.wf(),
            t.frame_rate == frame_rate,
            t.clips_view() == Map::<u64, ClipView>::empty(),
            t.groups_view() == Map::<u64, GroupView>::empty(),
            t.tracks_view() == Map::<u64, TrackKind>::empty(),
            t.next_id == 1,
    {
        let t = Timeline {
            frame_rate,
            tracks: Vec::new(),
            clips: Vec::new(),
            groups: Vec::new(),
            next_id: 1,
        };
        assert(t.clips_view() =~= Map::<u64, ClipView>::empty());
        assert(t.groups_view() =~= Map::<u64, GroupView>::empty());
        assert(t.tracks_view() =~= Map::<u64, TrackKind>::empty());
        t
    }

    /// Hand out the next unused id, or refuse once they are exhausted.
    pub(crate) fn take_id(&mut self) -> (r: Result<u64, ModelError>)
        requires
            old(self).wf(),
        ensures
            final(self).frame_rate == old(self).frame_rate,
            final(self).tracks@ == old(self).tracks@,
            final(self).clips@ == old(self).clips@,
            final(self).groups@ == old(self).groups@,
            match r {
                Ok(id) => id == old(self).next_id && final(self).next_id == id + 1,
                Err(e) => e is InvalidParam && old(self).next_id == u64::MAX && final(self).next_id == old(self).next_id,
            },
            final(self).wf(),
    {
        if self.next_id == u64::MAX {
            return Err(ModelError::invalid(chars_of("no ids left")));
        }
        let id = self.next_id;
        self.next_id = id + 1;
        Ok(id)
    }

    /// Add an empty lane of `kind`.
    pub fn add_track(&mut self, kind: TrackKind, name: &str) -> (r: Result<TrackId, ModelError>)
        requires
            old(self).wf(),
        ensures
            final(self).wf(),
            final(self).clips_view() == old(self).clips_view(),
            final(self).groups_view() == old(self).groups_view(),
            final(self).frame_rate == old(self).frame_rate,
            match r {
                Ok(id) => {
                    &&& !old(self).tracks_view().dom().contains(id.0)
                    &&& final(self).tracks_view() == old(self).tracks_view().insert(id.0, kind)
                    &&& final(self).tracks@.len() == old(self).tracks@.len() + 1
                    &&& forall|i: int| 0 <= i < old(self).tracks@.len() ==> #[trigger] final(self).tracks@[i] == old(self).tracks@[i]
                    &&& final(self).tracks@.last().id == id && final(self).tracks@.last().kind == kind
                        && final(self).tracks@.last().name@ == name@
                    &&& id.0 == old(self).next_id
                    &&& final(self).next_id == id.0 + 1
                },
                Err(e) => e is InvalidParam && old(self).next_id == u64::MAX && final(self).tracks_view()
                    == old(self).tracks_view() && final(self).next_id == old(self).next_id,
            },
    {
        let id = match self.take_id() {
            Ok(id) => id,
            Err(e) => {
                return Err(e);
            },
        };
        let track = Track { id: TrackId(id), kind, name: string_of(chars_of(name).as_slice()) };
        proof {
            if self.tracks_view().dom().contains(id) {
                let i = choose|i: int| 0 <= i < self.tracks@.len() && #[trigger] self.tracks@[i].id.0 == id;
                assert(old(self).tracks@[i].id.0 < old(self).next_id);
            }
            lemma_track_map_push(self.tracks@, track);
        }
        self.tracks.push(track);
        proof {
            assert forall|i: int| 0 <= i < self.clips@.len() implies placed(#[trigger] self.clips@[i].id.0,
                self.clips@[i].track, self.next_id, self.tracks_view()) by {
                assert(self.clips@[i] == old(self).clips@[i]);
                assert(placed(old(self).clips@[i].id.0, old(self).clips@[i].track, old(self).next_id, old(self).tracks_view()));
            }
            assert forall|i: int| 0 <= i < self.groups@.len() implies placed(#[trigger] self.groups@[i].id.0,
                self.groups@[i].track, self.next_id, self.tracks_view()) by {
                assert(self.groups@[i] == old(self).groups@[i]);
                assert(placed(old(self).groups@[i].id.0, old(self).groups@[i].track, old(self).next_id, old(self).tracks_view()));
            }
            assert forall|i: int| 0 <= i < self.tracks@.len() implies #[trigger] self.tracks@[i].id.0 < self.next_id by {
                if i < old(self).tracks@.len() {
                    assert(self.tracks@[i] == old(self).tracks@[i]);
                }
            }
        }
        Ok(TrackId(id))
    }

    /// A copy holding the same lanes, clips, groups and id allocator.
    pub fn copy(&self) -> (t: Timeline)
        requires
            self.wf(),
        ensures
            t.wf(),
            t.frame_rate == self.frame_rate,
            t.next_id == self.next_id,
            t.tracks_view() == self.tracks_view(),
            t.clips_view() == self.clips_view(),
            t.groups_view() == self.groups_view(),
    {
        let mut tracks: Vec<Track> = Vec::new();
        let mut i: usize = 0;
        while i < self.tracks.len()
            invariant
                i <= self.tracks@.len(),
                tracks@.len() == i,
                forall|j: int| 0 <= j < i ==> (#[trigger] tracks@[j]).id == self.tracks@[j].id && tracks@[j].kind
                    == self.tracks@[j].kind,
            decreases self.tracks@.len() - i,
        {
            let tr = &self.tracks[i];
            tracks.push(Track { id: tr.id, kind: tr.kind, name: string_of(chars_of(tr.name.as_str()).as_slice()) });
            i += 1;
        }
        let mut clips: Vec<Clip> = Vec::new();
        let mut i: usize = 0;
        while i < self.clips.len()
            invariant
                i <= self.clips@.len(),
                clips@.len() == i,
                forall|j: int| 0 <= j < i ==> (#[trigger] clips@[j]).id == self.clips@[j].id && clip_view(clips@[j])
                    == clip_view(self.clips@[j]),
            decreases self.clips@.len() - i,
        {
            clips.push(self.clips[i].copy());
            i += 1;
        }
        let mut groups: Vec<CaptionGroup> = Vec::new();
        let mut i: usize = 0;
        while i < self.groups.len()
            invariant
                i <= self.groups@.len(),
                groups@.len() == i,
                forall|j: int| 0 <= j < i ==> (#[trigger] groups@[j]).id == self.groups@[j].id && group_view(groups@[j])
                    == group_view(self.groups@[j]),
            decreases self.groups@.len() - i,
        {
            groups.push(self.groups[i].copy());
            i += 1;
        }
        let t = Timeline { frame_rate: self.frame_rate, tracks, clips, groups, next_id: self.next_id };
        proof {
            assert forall|a: int, b: int|
                0 <= a < t.tracks@.len() && 0 <= b < t.tracks@.len() && #[trigger] t.tracks@[a].id == #[trigger] t.tracks@[b].id
                implies a == b by {
                assert(self.tracks@[a].id == self.tracks@[b].id);
            }
            assert forall|a: int, b: int|
                0 <= a < t.clips@.len() && 0 <= b < t.clips@.len() && #[trigger] t.clips@[a].id == #[trigger] t.clips@[b].id
                implies a == b by {
                assert(self.clips@[a].id == self.clips@[b].id);
            }
            assert forall|a: int, b: int|
                0 <= a < t.groups@.len() && 0 <= b < t.groups@.len() && #[trigger] t.groups@[a].id == #[trigger] t.groups@[b].id
                implies a == b by {
                assert(self.groups@[a].id == self.groups@[b].id);
            }
            assert forall|k: u64| #[trigger] t.tracks_view().dom().contains(k) == self.tracks_view().dom().contains(k) by {
                if t.tracks_view().dom().contains(k) {
                    let j = choose|j: int| 0 <= j < t.tracks@.len() && #[trigger] t.tracks@[j].id.0 == k;
                    lemma_track_map_at(self.tracks@, j);
                }
                if self.tracks_view().dom().contains(k) {
                    let j = choose|j: int| 0 <= j < self.tracks@.len() && #[trigger] self.tracks@[j].id.0 == k;
                    lemma_track_map_at(t.tracks@, j);
                }
            }
            assert forall|k: u64| t.tracks_view().dom().contains(k) implies #[trigger] t.tracks_view()[k] == self.tracks_view()[k] by {
                let j = choose|j: int| 0 <= j < t.tracks@.len() && #[trigger] t.tracks@[j].id.0 == k;
                lemma_track_map_at(t.tracks@, j);
                lemma_track_map_at(self.tracks@, j);
            }
            assert(t.tracks_view() =~= self.tracks_view());
            assert forall|k: u64| #[trigger] t.clips_view().dom().contains(k) == self.clips_view().dom().contains(k) by {
                if t.clips_view().dom().contains(k) {
                    let j = choose|j: int| 0 <= j < t.clips@.len() && #[trigger] t.clips@[j].id.0 == k;
                    lemma_clip_map_at(self.clips@, j);
                }
                if self.clips_view().dom().contains(k) {
                    let j = choose|j: int| 0 <= j < self.clips@.len() && #[trigger] self.clips@[j].id.0 == k;
                    lemma_clip_map_at(t.clips@, j);
                }
            }
            assert forall|k: u64| t.clips_view().dom().contains(k) implies #[trigger] t.clips_view()[k] == self.clips_view()[k] by {
                let j = choose|j: int| 0 <= j < t.clips@.len() && #[trigger] t.clips@[j].id.0 == k;
                lemma_clip_map_at(t.clips@, j);
                lemma_clip_map_at(self.clips@, j);
            }
            assert(t.clips_view() =~= self.clips_view());
            assert forall|k: u64| #[trigger] t.groups_view().dom().contains(k) == self.groups_view().dom().contains(k) by {
                if t.groups_view().dom().contains(k) {
                    let j = choose|j: int| 0 <= j < t.groups@.len() && #[trigger] t.groups@[j].id.0 == k;
                    lemma_group_map_at(self.groups@, j);
                }
                if self.groups_view().dom().contains(k) {
                    let j = choose|j: int| 0 <= j < self.groups@.len() && #[trigger] self.groups@[j].id.0 == k;
                    lemma_group_map_at(t.groups@, j);
                }
            }
            assert forall|k: u64| t.groups_view().dom().contains(k) implies #[trigger] t.groups_view()[k] == self.groups_view()[k] by {
                let j = choose|j: int| 0 <= j < t.groups@.len() && #[trigger] t.groups@[j].id.0 == k;
                lemma_group_map_at(t.groups@, j);
                lemma_group_map_at(self.groups@, j);
            }
            assert(t.groups_view() =~= self.groups_view());
            assert forall|i: int| 0 <= i < t.clips@.len() implies placed(#[trigger] t.clips@[i].id.0, t.clips@[i].track,
                t.next_id, t.tracks_view()) by {
                assert(placed(self.clips@[i].id.0, self.clips@[i].track, self.next_id, self.tracks_view()));
            }
            assert forall|i: int| 0 <= i < t.groups@.len() implies placed(#[trigger] t.groups@[i].id.0, t.groups@[i].track,
                t.next_id, t.tracks_view()) by {
                assert(placed(self.groups@[i].id.0, self.groups@[i].track, self.next_id, self.tracks_view()));
            }
            assert forall|i: int| 0 <= i < t.tracks@.len() implies #[trigger] t.tracks@[i].id.0 < t.next_id by {
                assert(self.tracks@[i].id.0 < self.next_id);
            }
        }
        t
    }

    /// The kind of lane `track` is, or `None` if there is no such lane.
    pub fn track_kind(&self, track: TrackId) -> (r: Option<TrackKind>)
        requires
            self.wf(),
        ensures
            r == (if self.tracks_view().dom().contains(track.0) {
                Some(self.tracks_view()[track.0])
            } else {
                None
            }),
    {
        let mut i: usize = 0;
        while i < self.tracks.len()
            invariant
                self.wf(),
                i <= self.tracks@.len(),
                forall|j: int| 0 <= j < i ==> #[trigger] self.tracks@[j].id.0 != track.0,
            decreases self.tracks@.len() - i,
        {
            if self.tracks[i].id.0 == track.0 {
                proof {
                    lemma_track_map_at(self.tracks@, i as int);
                }
                return Some(self.tracks[i].kind);
            }
            i += 1;
        }
        None
    }

    /// Where clip `id` sits in [`Self::clips`], or `None` if there is no such
    /// clip.
    pub(crate) fn clip_index(&self, id: ClipId) -> (r: Option<usize>)
        requires
            self.wf(),
        ensures
            match r {
                Some(i) => i < self.clips@.len() && self.clips@[i as int].id == id,
                None => !self.clips_view().dom().contains(id.0),
            },
    {
        let mut i: usize = 0;
        while i < self.clips.len()
            invariant
                i <= self.clips@.len(),
                forall|j: int| 0 <= j < i ==> #[trigger] self.clips@[j].id.0 != id.0,
            decreases self.clips@.len() - i,
        {
            if self.clips[i].id.0 == id.0 {
                assert(self.clips@[i as int].id == id);
                return Some(i);
            }
            i += 1;
        }
        None
    }

    /// Where group `id` sits in [`Self::groups`], or `None` if there is no
    /// such group.
    pub(crate) fn group_index(&self, id: CaptionGroupId) -> (r: Option<usize>)
        requires
            self.wf(),
        ensures
            match r {
                Some(i) => i < self.groups@.len() && self.groups@[i as int].id == id,
                None => !self.groups_view().dom().contains(id.0),
            },
    {
        let mut i: usize = 0;
        while i < self.groups.len()
            invariant
                i <= self.groups@.len(),
                forall|j: int| 0 <= j < i ==> #[trigger] self.groups@[j].id.0 != id.0,
            decreases self.groups@.len() - i,
        {
            if self.groups[i].id.0 == id.0 {
                assert(self.groups@[i as int].id == id);
                return Some(i);
            }
            i += 1;
        }
        None
    }

    /// The clip with id `id`, if any.
    pub fn clip(&self, id: ClipId) -> (r: Option<&Clip>)
        requires
            self.wf(),
        ensures
            match r {
                Some(c) => {
                    &&& self.clips_view().dom().contains(id.0)
                    &&& c.id == id
                    &&& clip_view(*c) == self.clips_view()[id.0]
                },
                None => !self.clips_view().dom().contains(id.0),
            },
    {
        match self.clip_index(id) {
            Some(i) => {
                proof {
                    lemma_clip_map_at(self.clips@, i as int);
                }
                Some(&self.clips[i])
            },
            None => None,
        }
    }

    /// The caption group with id `id`, if any.
    pub fn caption_group(&self, id: CaptionGroupId) -> (r: Option<&CaptionGroup>)
        requires
            self.wf(),
        ensures
            match r {
                Some(g) => {
                    &&& self.groups_view().dom().contains(id.0)
                    &&& g.id == id
                    &&& group_view(*g) == self.groups_view()[id.0]
                },
                None => !self.groups_view().dom().contains(id.0),
            },
    {
        match self.group_index(id) {
            Some(i) => {
                proof {
                    lemma_group_map_at(self.groups@, i as int);
                }
                Some(&self.groups[i])
            },
            None => None,
        }
    }

    /// How many clips the timeline holds.
    pub fn clip_count(&self) -> (n: usize)
        requires
            self.wf(),
        ensures
            n == self.clips_view().dom().len(),
    {
        proof {
            lemma_clip_map_len(self.clips@);
        }
        self.clips.len()
    }

    /// How many caption groups the timeline holds.
    pub fn caption_group_count(&self) -> (n: usize)
        requires
            self.wf(),
        ensures
            n == self.groups_view().dom().len(),
    {
        proof {
            lemma_group_map_len(self.groups@);
        }
        self.groups.len()
    }

    /// The lane clip `id` sits on, if there is such a clip.
    pub fn track_of(&self, id: ClipId) -> (r: Option<TrackId>)
        requires
            self.wf(),
        ensures
            r == (if self.clips_view().dom().contains(id.0) {
                Some(self.clips_view()[id.0].track)
            } else {
                None
            }),
    {
        match self.clip(id) {
            Some(c) => Some(c.track),
            None => None,
        }
    }

    /// Everything but the clips is as it was.
    pub open spec fn same_except_clips(&self, other: &Timeline) -> bool {
        &&& self.frame_rate == other.frame_rate
        &&& self.tracks_view() == other.tracks_view()
        &&& self.groups_view() == other.groups_view()
        &&& self.next_id == other.next_id
    }

    /// Take clip `id` off the timeline and hand it back.
    pub fn remove_clip(&mut self, id: ClipId) -> (r: Option<Clip>)
        requires
            old(self).wf(),
        ensures
            final(self).wf(),
            final(self).same_except_clips(old(self)),
            match r {
                Some(c) => {
                    &&& old(self).clips_view().dom().contains(id.0)
                    &&& c.id == id
                    &&& clip_view(c) == old(self).clips_view()[id.0]
                    &&& final(self).clips_view() == old(self).clips_view().remove(id.0)
                },
                None => {
                    &&& !old(self).clips_view().dom().contains(id.0)
                    &&& final(self).clips_view() == old(self).clips_view()
                },
            },
    {
        match self.clip_index(id) {
            Some(i) => {
                proof {
                    lemma_clip_map_at(self.clips@, i as int);
                    lemma_clip_map_remove(self.clips@, i as int);
                }
                let c = self.clips.remove(i);
                proof {
                    assert forall|j: int| 0 <= j < self.clips@.len() implies placed(
                        #[trigger] self.clips@[j].id.0,
                        self.clips@[j].track,
                        self.next_id,
                        self.tracks_view(),
                    ) by {
                        let j2 = if j < i { j } else { j + 1 };
                        assert(self.clips@[j] == old(self).clips@[j2]);
                    }
                }
                Some(c)
            },
            None => None,
        }
    }

    /// Put a clip back under its own id: the inverse of
    /// [`Self::remove_clip`]. Refused when its lane does not exist or its id
    /// is taken.
    pub fn add_clip(&mut self, clip: Clip) -> (r: Result<ClipId, ModelError>)
        requires
            old(self).wf(),
        ensures
            final(self).wf(),
            final(self).frame_rate == old(self).frame_rate,
            final(self).tracks_view() == old(self).tracks_view(),
            final(self).groups_view() == old(self).groups_view(),
            !old(self).tracks_view().dom().contains(clip.track.0) ==> r == Err::<ClipId, ModelError>(
                ModelError::UnknownTrack(clip.track),
            ),
            r is Ok <==> (old(self).tracks_view().dom().contains(clip.track.0)
                && !old(self).clips_view().dom().contains(clip.id.0) && clip.id.0 < u64::MAX),
            match r {
                Ok(id) => {
                    &&& id == clip.id
                    &&& final(self).clips_view() == old(self).clips_view().insert(clip.id.0, clip_view(clip))
                    &&& final(self).next_id == if clip.id.0 < old(self).next_id {
                        old(self).next_id
                    } else {
                        (clip.id.0 + 1) as u64
                    }
                },
                Err(_) => {
                    &&& final(self).clips_view() == old(self).clips_view()
                    &&& final(self).next_id == old(self).next_id
                },
            },
    {
        if self.track_kind(clip.track).is_none() {
            return Err(ModelError::UnknownTrack(clip.track));
        }
        if self.clip_index(clip.id).is_some() || clip.id.0 == u64::MAX {
            return Err(ModelError::invalid(chars_of("clip id already in use")));
        }
        let id = clip.id;
        proof {
            lemma_clip_map_push(self.clips@, clip);
        }
        if clip.id.0 >= self.next_id {
            self.next_id = clip.id.0 + 1;
        }
        self.clips.push(clip);
        proof {
            assert forall|j: int| 0 <= j < self.clips@.len() implies placed(
                #[trigger] self.clips@[j].id.0,
                self.clips@[j].track,
                self.next_id,
                self.tracks_view(),
            ) by {
                if j < old(self).clips@.len() {
                    assert(self.clips@[j] == old(self).clips@[j]);
                    assert(placed(old(self).clips@[j].id.0, old(self).clips@[j].track, old(self).next_id, old(self).tracks_view()));
                }
            }
            assert forall|j: int| 0 <= j < self.groups@.len() implies placed(
                #[trigger] self.groups@[j].id.0,
                self.groups@[j].track,
                self.next_id,
                self.tracks_view(),
            ) by {
                assert(placed(old(self).groups@[j].id.0, old(self).groups@[j].track, old(self).next_id, old(self).tracks_view()));
            }
            assert forall|j: int| 0 <= j < self.tracks@.len() implies #[trigger] self.tracks@[j].id.0 < self.next_id by {
                assert(old(self).tracks@[j].id.0 < old(self).next_id);
            }
        }
        Ok(id)
    }

    /// Everything but the caption groups is as it was.
    pub open spec fn same_except_groups(&self, other: &Timeline) -> bool {
        &&& self.frame_rate == other.frame_rate
        &&& self.tracks_view() == other.tracks_view()
        &&& self.clips_view() == other.clips_view()
        &&& self.next_id == other.next_id
    }

    /// Take the caption group record `id` off the timeline (its cues stay).
    pub fn remove_caption_group(&mut self, id: CaptionGroupId) -> (r: Option<CaptionGroup>)
        requires
            old(self).wf(),
        ensures
            final(self).wf(),
            final(self).same_except_groups(old(self)),
            match r {
                Some(g) => {
                    &&& old(self).groups_view().dom().contains(id.0)
                    &&& g.id == id
                    &&& group_view(g) == old(self).groups_view()[id.0]
                    &&& final(self).groups_view() == old(self).groups_view().remove(id.0)
                },
                None => {
                    &&& !old(self).groups_view().dom().contains(id.0)
                    &&& final(self).groups_view() == old(self).groups_view()
                },
            },
    {
        match self.group_index(id) {
            Some(i) => {
                proof {
                    lemma_group_map_at(self.groups@, i as int);
                    lemma_group_map_remove(self.groups@, i as int);
                }
                let g = self.groups.remove(i);
                proof {
                    assert forall|j: int| 0 <= j < self.groups@.len() implies placed(
                        #[trigger] self.groups@[j].id.0,
                        self.groups@[j].track,
                        self.next_id,
                        self.tracks_view(),
                    ) by {
                        let j2 = if j < i { j } else { j + 1 };
                        assert(self.groups@[j] == old(self).groups@[j2]);
                    }
                }
                Some(g)
            },
            None => None,
        }
    }

    /// File a caption group record under its own id: the inverse of
    /// [`Self::remove_caption_group`]. Refused when its lane does not exist or
    /// its id is taken.
    pub fn add_caption_group(&mut self, group: CaptionGroup) -> (r: Result<CaptionGroupId, ModelError>)
        requires
            old(self).wf(),
        ensures
            final(self).wf(),
            final(self).frame_rate == old(self).frame_rate,
            final(self).tracks_view() == old(self).tracks_view(),
            final(self).tracks@ == old(self).tracks@,
            final(self).clips_view() == old(self).clips_view(),
            !old(self).tracks_view().dom().contains(group.track.0) ==> r == Err::<CaptionGroupId, ModelError>(
                ModelError::UnknownTrack(group.track),
            ),
            r is Ok <==> (old(self).tracks_view().dom().contains(group.track.0)
                && !old(self).groups_view().dom().contains(group.id.0) && group.id.0 < u64::MAX),
            match r {
                Ok(id) => {
                    &&& id == group.id
                    &&& final(self).groups_view() == old(self).groups_view().insert(group.id.0, group_view(group))
                    &&& final(self).next_id == if group.id.0 < old(self).next_id {
                        old(self).next_id
                    } else {
                        (group.id.0 + 1) as u64
                    }
                },
                Err(_) => {
                    &&& final(self).groups_view() == old(self).groups_view()
                    &&& final(self).next_id == old(self).next_id
                },
            },
    {
        if self.track_kind(group.track).is_none() {
            return Err(ModelError::UnknownTrack(group.track));
        }
        if self.group_index(group.id).is_some() || group.id.0 == u64::MAX {
            return Err(ModelError::invalid(chars_of("caption group id already in use")));
        }
        let id = group.id;
        proof {
            lemma_group_map_push(self.groups@, group);
        }
        if group.id.0 >= self.next_id {
            self.next_id = group.id.0 + 1;
        }
        self.groups.push(group);
        proof {
            assert forall|j: int| 0 <= j < self.groups@.len() implies placed(
                #[trigger] self.groups@[j].id.0,
                self.groups@[j].track,
                self.next_id,
                self.tracks_view(),
            ) by {
                if j < old(self).groups@.len() {
                    assert(self.groups@[j] == old(self).groups@[j]);
                    assert(placed(old(self).groups@[j].id.0, old(self).groups@[j].track, old(self).next_id, old(self).tracks_view()));
                }
            }
            assert forall|j: int| 0 <= j < self.clips@.len() implies placed(
                #[trigger] self.clips@[j].id.0,
                self.clips@[j].track,
                self.next_id,
                self.tracks_view(),
            ) by {
                assert(placed(old(self).clips@[j].id.0, old(self).clips@[j].track, old(self).next_id, old(self).tracks_view()));
            }
            assert forall|j: int| 0 <= j < self.tracks@.len() implies #[trigger] self.tracks@[j].id.0 < self.next_id by {
                assert(old(self).tracks@[j].id.0 < old(self).next_id);
            }
        }
        Ok(id)
    }

    /// Place a new clip on `track` under a fresh id.
    pub fn place_clip(
        &mut self,
        track: TrackId,
        timeline: TimeRange,
        text: Option<String>,
        caption: Option<CaptionCue>,
    ) -> (r: Result<ClipId, ModelError>)
        requires
            old(self).wf(),
        ensures
            final(self).wf(),
            final(self).frame_rate == old(self).frame_rate,
            final(self).tracks@ == old(self).tracks@,
            final(self).tracks_view() == old(self).tracks_view(),
            final(self).groups_view() == old(self).groups_view(),
            r is Ok <==> (old(self).tracks_view().dom().contains(track.0) && old(self).next_id
                < u64::MAX),
            !old(self).tracks_view().dom().contains(track.0) ==> r == Err::<ClipId, ModelError>(
                ModelError::UnknownTrack(track),
            ),
            match r {
                Ok(id) => {
                    &&& id.0 == old(self).next_id
                    &&& !old(self).clips_view().dom().contains(id.0)
                    &&& final(self).next_id == old(self).next_id + 1
                    &&& final(self).clips_view() == old(self).clips_view().insert(
                        id.0,
                        ClipView {
                            track,
                            timeline,
                            text: opt_view(text),
                            caption: opt_cue_view(caption),
                        },
                    )
                },
                Err(_) => {
                    &&& final(self).clips_view() == old(self).clips_view()
                    &&& final(self).next_id == old(self).next_id
                },
            },
    {
        if self.track_kind(track).is_none() {
            return Err(ModelError::UnknownTrack(track));
        }
        let id = self.take_id()?;
        let clip = Clip { id: ClipId(id), track, timeline, text, caption };
        proof {
            if self.clips_view().dom().contains(id) {
                let i = choose|i: int| 0 <= i < self.clips@.len() && #[trigger] self.clips@[i].id.0 == id;
                assert(placed(old(self).clips@[i].id.0, old(self).clips@[i].track, old(self).next_id, old(self).tracks_view()));
            }
            lemma_clip_map_push(self.clips@, clip);
        }
        self.clips.push(clip);
        proof {
            assert forall|j: int| 0 <= j < self.clips@.len() implies placed(
                #[trigger] self.clips@[j].id.0,
                self.clips@[j].track,
                self.next_id,
                self.tracks_view(),
            ) by {
                if j < old(self).clips@.len() {
                    assert(self.clips@[j] == old(self).clips@[j]);
                    assert(placed(old(self).clips@[j].id.0, old(self).clips@[j].track, old(self).next_id, old(self).tracks_view()));
                }
            }
            assert forall|j: int| 0 <= j < self.groups@.len() implies placed(
                #[trigger] self.groups@[j].id.0,
                self.groups@[j].track,
                self.next_id,
                self.tracks_view(),
            ) by {
                assert(placed(old(self).groups@[j].id.0, old(self).groups@[j].track, old(self).next_id, old(self).tracks_view()));
            }
            assert forall|j: int| 0 <= j < self.tracks@.len() implies #[trigger] self.tracks@[j].id.0 < self.next_id by {
                assert(old(self).tracks@[j].id.0 < old(self).next_id);
            }
        }
        Ok(ClipId(id))
    }

    /// Replace clip `i` by `clip`, which keeps its id and sits on an existing
    /// lane.
    pub(crate) fn put_clip(&mut self, i: usize, clip: Clip)
        requires
            old(self).wf(),
            i < old(self).clips@.len(),
            clip.id == old(self).clips@[i as int].id,
            old(self).tracks_view().dom().contains(clip.track.0),
        ensures
            final(self).wf(),
            final(self).same_except_clips(old(self)),
            final(self).clips@.len() == old(self).clips@.len(),
            final(self).clips@ == old(self).clips@.update(i as int, clip),
            final(self).clips_view() == old(self).clips_view().insert(clip.id.0, clip_view(clip)),
    {
        proof {
            lemma_clip_map_update(self.clips@, i as int, clip);
            assert(placed(old(self).clips@[i as int].id.0, old(self).clips@[i as int].track, old(self).next_id, old(self).tracks_view()));
        }
        self.clips.set(i, clip);
        proof {
            assert forall|j: int| 0 <= j < self.clips@.len() implies placed(
                #[trigger] self.clips@[j].id.0,
                self.clips@[j].track,
                self.next_id,
                self.tracks_view(),
            ) by {
                if j != i {
                    assert(self.clips@[j] == old(self).clips@[j]);
                    assert(placed(old(self).clips@[j].id.0, old(self).clips@[j].track, old(self).next_id, old(self).tracks_view()));
                }
            }
        }
    }

    /// Replace group `i` by `group`, which keeps its id and sits on an
    /// existing lane.
    pub(crate) fn put_group(&mut self, i: usize, group: CaptionGroup)
        requires
            old(self).wf(),
            i < old(self).groups@.len(),
            group.id == old(self).groups@[i as int].id,
            old(self).tracks_view().dom().contains(group.track.0),
        ensures
            final(self).wf(),
            final(self).same_except_groups(old(self)),
            final(self).groups_view() == old(self).groups_view().insert(group.id.0, group_view(group)),
    {
        proof {
            lemma_group_map_update(self.groups@, i as int, group);
            assert(placed(old(self).groups@[i as int].id.0, old(self).groups@[i as int].track, old(self).next_id, old(self).tracks_view()));
        }
        self.groups.set(i, group);
        proof {
            assert forall|j: int| 0 <= j < self.groups@.len() implies placed(
                #[trigger] self.groups@[j].id.0,
                self.groups@[j].track,
                self.next_id,
                self.tracks_view(),
            ) by {
                if j != i {
                    assert(self.groups@[j] == old(self).groups@[j]);
                    assert(placed(old(self).groups@[j].id.0, old(self).groups@[j].track, old(self).next_id, old(self).tracks_view()));
                }
            }
        }
    }

    /// Every filed clip, group and lane id is below the allocator's next id.
    pub proof fn lemma_ids_below(&self)
        requires
            self.wf(),
        ensures
            forall|k: u64| #[trigger] self.clips_view().dom().contains(k) ==> k < self.next_id,
            forall|k: u64| #[trigger] self.groups_view().dom().contains(k) ==> k < self.next_id,
            forall|k: u64| #[trigger] self.tracks_view().dom().contains(k) ==> k < self.next_id,
    {
        assert forall|k: u64| #[trigger] self.clips_view().dom().contains(k) implies k < self.next_id by {
            let i = choose|i: int| 0 <= i < self.clips@.len() && #[trigger] self.clips@[i].id.0 == k;
        }
        assert forall|k: u64| #[trigger] self.groups_view().dom().contains(k) implies k < self.next_id by {
            let i = choose|i: int| 0 <= i < self.groups@.len() && #[trigger] self.groups@[i].id.0 == k;
        }
        assert forall|k: u64| #[trigger] self.tracks_view().dom().contains(k) implies k < self.next_id by {
            let i = choose|i: int| 0 <= i < self.tracks@.len() && #[trigger] self.tracks@[i].id.0 == k;
        }
    }

    /// Every filed clip and group sits on a filed lane, under an id below the
    /// allocator's.
    pub proof fn lemma_views_placed(&self)
        requires
            self.wf(),
        ensures
            forall|k: u64|
                #[trigger] self.clips_view().dom().contains(k) ==> self.tracks_view().dom().contains(
                    self.clips_view()[k].track.0,
                ) && k < self.next_id,
            forall|k: u64|
                #[trigger] self.groups_view().dom().contains(k) ==> self.tracks_view().dom().contains(
                    self.groups_view()[k].track.0,
                ) && k < self.next_id,
    {
        assert forall|k: u64| #[trigger] self.clips_view().dom().contains(k) implies self.tracks_view().dom().contains(
            self.clips_view()[k].track.0,
        ) && k < self.next_id by {
            let i = choose|i: int| 0 <= i < self.clips@.len() && #[trigger] self.clips@[i].id.0 == k;
            lemma_clip_map_at(self.clips@, i);
            assert(placed(self.clips@[i].id.0, self.clips@[i].track, self.next_id, self.tracks_view()));
        }
        assert forall|k: u64| #[trigger] self.groups_view().dom().contains(k) implies self.tracks_view().dom().contains(
            self.groups_view()[k].track.0,
        ) && k < self.next_id by {
            let i = choose|i: int| 0 <= i < self.groups@.len() && #[trigger] self.groups@[i].id.0 == k;
            lemma_group_map_at(self.groups@, i);
            assert(placed(self.groups@[i].id.0, self.groups@[i].track, self.next_id, self.tracks_view()));
        }
    }

    /// Where filed clip `k` sits in the clip vector.
    pub proof fn clip_slot(&self, k: u64) -> (i: int)
        requires
            self.wf(),
            self.clips_view().dom().contains(k),
        ensures
            0 <= i < self.clips@.len(),
            self.clips@[i].id.0 == k,
            self.clips_view()[k] == clip_view(self.clips@[i]),
    {
        let i = choose|i: int| 0 <= i < self.clips@.len() && #[trigger] self.clips@[i].id.0 == k;
        lemma_clip_map_at(self.clips@, i);
        i
    }

    /// Where filed group `k` sits in the group vector.
    pub proof fn group_slot(&self, k: CaptionGroupId) -> (i: int)
        requires
            self.wf(),
            self.groups_view().dom().contains(k.0),
        ensures
            0 <= i < self.groups@.len(),
            self.groups@[i].id == k,
            self.groups_view()[k.0] == group_view(self.groups@[i]),
    {
        let i = choose|i: int| 0 <= i < self.groups@.len() && #[trigger] self.groups@[i].id.0 == k.0;
        lemma_group_map_at(self.groups@, i);
        i
    }

    /// Clip `i` sits on an existing lane.
    pub proof fn lemma_clip_placed(&self, i: int)
        requires
            self.wf(),
            0 <= i < self.clips@.len(),
        ensures
            self.tracks_view().dom().contains(self.clips@[i].track.0),
    {
        assert(placed(self.clips@[i].id.0, self.clips@[i].track, self.next_id, self.tracks_view()));
    }

    /// Group `i` sits on an existing lane.
    pub proof fn lemma_group_placed(&self, i: int)
        requires
            self.wf(),
            0 <= i < self.groups@.len(),
        ensures
            self.tracks_view().dom().contains(self.groups@[i].track.0),
    {
        assert(placed(self.groups@[i].id.0, self.groups@[i].track, self.next_id, self.tracks_view()));
    }

    /// Clip `i` is filed in the clip map with the value it has.
    pub(crate) proof fn lemma_clip_at(&self, i: int)
        requires
            self.wf(),
            0 <= i < self.clips@.len(),
        ensures
            self.clips_view().dom().contains(self.clips@[i].id.0),
            self.clips_view()[self.clips@[i].id.0] == clip_view(self.clips@[i]),
    {
        lemma_clip_map_at(self.clips@, i);
    }

    /// The cue clips of `group`, in timeline order (by start tick, then id).
    pub fn caption_cue_ids(&self, group: CaptionGroupId) -> (r: Vec<ClipId>)
        requires
            self.wf(),
        ensures
            cue_order(self.clips_view(), group, raw_ids(r@)),
    {
        let mut keys: Vec<(i64, u64)> = Vec::new();
        let ghost mut src: Seq<int> = Seq::empty();
        let mut i: usize = 0;
        while i < self.clips.len()
            invariant
                self.wf(),
                i <= self.clips@.len(),
                keys_sorted(keys@),
                src.len() == keys@.len(),
                forall|a: int|
                    0 <= a < keys@.len() ==> 0 <= #[trigger] src[a] < i && is_cue_in(
                        clip_view(self.clips@[src[a]]),
                        group,
                    ) && keys@[a] == clip_key(self.clips@[src[a]]),
                forall|j: int|
                    0 <= j < i && is_cue_in(clip_view(self.clips@[j]), group) ==> src.contains(j),
            decreases self.clips@.len() - i,
        {
            let c = &self.clips[i];
            let is_cue = match &c.caption {
                Some(cue) => cue.group == group,
                None => false,
            };
            assert(is_cue == is_cue_in(clip_view(self.clips@[i as int]), group));
            if is_cue {
                let key = (c.timeline.start.value, c.id.0);
                proof {
                    assert forall|a: int| 0 <= a < keys@.len() implies #[trigger] keys@[a].1 != key.1 by {
                        assert(self.clips@[src[a]].id != self.clips@[i as int].id);
                    }
                }
                let ghost old_src = src;
                let p = insert_key(&mut keys, key);
                proof {
                    src = old_src.insert(p as int, i as int);
                    assert forall|a: int| 0 <= a < keys@.len() implies 0 <= #[trigger] src[a] < i + 1 && is_cue_in(
                        clip_view(self.clips@[src[a]]),
                        group,
                    ) && keys@[a] == clip_key(self.clips@[src[a]]) by {
                        if a < p {
                            assert(src[a] == old_src[a]);
                        } else if a > p {
                            assert(src[a] == old_src[a - 1]);
                        }
                    }
                    assert forall|j: int|
                        0 <= j < i + 1 && is_cue_in(clip_view(self.clips@[j]), group) implies src.contains(j) by {
                        if j == i {
                            assert(src[p as int] == j);
                        } else {
                            assert(old_src.contains(j));
                            let b = choose|b: int| 0 <= b < old_src.len() && old_src[b] == j;
                            if b < p {
                                assert(src[b] == j);
                            } else {
                                assert(src[b + 1] == j);
                            }
                        }
                    }
                }
            }
            i += 1;
        }
        let mut out: Vec<ClipId> = Vec::new();
        let mut a: usize = 0;
        while a < keys.len()
            invariant
                a <= keys@.len(),
                out@.len() == a,
                forall|b: int| 0 <= b < a ==> #[trigger] out@[b].0 == keys@[b].1,
            decreases keys@.len() - a,
        {
            out.push(ClipId(keys[a].1));
            a += 1;
        }
        proof {
            let m = self.clips_view();
            let ids = raw_ids(out@);
            assert forall|b: int| 0 <= b < ids.len() implies m.dom().contains(#[trigger] ids[b]) && is_cue_in(
                m[ids[b]],
                group,
            ) && m[ids[b]].timeline.start.value == keys@[b].0 by {
                self.lemma_clip_at(src[b]);
            }
            assert forall|b: int, c: int| 0 <= b < c < ids.len() implies cue_before(m, ids[b], ids[c]) by {
                assert(key_lt(keys@[b], keys@[c]));
                assert(m.dom().contains(ids[b]));
                assert(m.dom().contains(ids[c]));
            }
            assert forall|k: u64| m.dom().contains(k) && #[trigger] is_cue_in(m[k], group) implies ids.contains(k) by {
                let j = choose|j: int| 0 <= j < self.clips@.len() && #[trigger] self.clips@[j].id.0 == k;
                self.lemma_clip_at(j);
                assert(src.contains(j));
                let b = choose|b: int| 0 <= b < src.len() && src[b] == j;
                assert(ids[b] == k);
            }
        }
        out
    }
}

/// The raw values of a list of clip ids.
pub open spec fn raw_ids(s: Seq<ClipId>) -> Seq<u64> {
    Seq::new(s.len(), |i: int| s[i].0)
}

/// Whether a clip is a cue of group `g`.
pub open spec fn is_cue_in(v: ClipView, g: CaptionGroupId) -> bool {
    v.caption matches Some(c) && c.group == g
}

/// Cue `a` comes before cue `b` in timeline order: earlier start, or the
/// same start and a smaller id.
pub open spec fn cue_before(m: Map<u64, ClipView>, a: u64, b: u64) -> bool {
    m[a].timeline.start.value < m[b].timeline.start.value || (m[a].timeline.start.value
        == m[b].timeline.start.value && a < b)
}

/// `order` lists exactly the cues of `g`, each once, in timeline order.
pub open spec fn cue_order(m: Map<u64, ClipView>, g: CaptionGroupId, order: Seq<u64>) -> bool {
    &&& forall|i: int, j: int| 0 <= i < j < order.len() ==> cue_before(m, order[i], order[j])
    &&& forall|i: int|
        0 <= i < order.len() ==> m.dom().contains(#[trigger] order[i]) && is_cue_in(m[order[i]], g)
    &&& forall|k: u64| m.dom().contains(k) && #[trigger] is_cue_in(m[k], g) ==> order.contains(k)
}

/// The ordering key of a clip: its start tick, then its id.
pub open spec fn clip_key(c: Clip) -> (i64, u64) {
    (c.timeline.start.value, c.id.0)
}

/// Key `x` orders before key `y`.
pub open spec fn key_lt(x: (i64, u64), y: (i64, u64)) -> bool {
    x.0 < y.0 || (x.0 == y.0 && x.1 < y.1)
}

/// Keys in strictly ascending order.
pub open spec fn keys_sorted(s: Seq<(i64, u64)>) -> bool {
    forall|i: int, j: int| 0 <= i < j < s.len() ==> key_lt(s[i], s[j])
}

/// Insert `x` into ascending keys `v`, keeping them ascending; returns where
/// it went.
pub(crate) fn insert_key(v: &mut Vec<(i64, u64)>, x: (i64, u64)) -> (p: usize)
    requires
        keys_sorted(old(v)@),
        forall|a: int| 0 <= a < old(v)@.len() ==> #[trigger] old(v)@[a].1 != x.1,
    ensures
        keys_sorted(final(v)@),
        p <= old(v)@.len(),
        final(v)@ == old(v)@.insert(p as int, x),
{
    let mut p: usize = 0;
    while p < v.len() && key_lt_exec(v[p], x)
        invariant
            p <= v@.len(),
            v@ == old(v)@,
            forall|a: int| 0 <= a < p ==> key_lt(#[trigger] v@[a], x),
        decreases v@.len() - p,
    {
        p += 1;
    }
    let ghost o = v@;
    v.insert(p, x);
    proof {
        assert forall|i: int, j: int| 0 <= i < j < v@.len() implies key_lt(v@[i], v@[j]) by {
            if p < o.len() {
                assert(!key_lt(o[p as int], x));
                assert(o[p as int].1 != x.1);
            }
            if i < p && j == p {
            } else if i == p && j > p {
                assert(v@[j] == o[j - 1]);
                if j - 1 > p {
                    assert(key_lt(o[p as int], o[j - 1]));
                }
            } else if i < p && j > p {
                assert(v@[j] == o[j - 1]);
            } else if i > p {
                assert(v@[i] == o[i - 1] && v@[j] == o[j - 1]);
            }
        }
    }
    p
}

fn key_lt_exec(x: (i64, u64), y: (i64, u64)) -> (r: bool)
    ensures
        r == key_lt(x, y),
{
    x.0 < y.0 || (x.0 == y.0 && x.1 < y.1)
}

/// An index as a cue number: itself, or `u32::MAX` past that.
pub open spec fn sat_u32(i: int) -> u32 {
    if i > u32::MAX {
        u32::MAX
    } else {
        i as u32
    }
}

/// A clip with its cue renumbered to `i` (unchanged when it is no cue).
pub open spec fn with_index(v: ClipView, i: int) -> ClipView {
    ClipView {
        track: v.track,
        timeline: v.timeline,
        text: v.text,
        caption: match v.caption {
            Some(c) => Some(
                CueView {
                    group: c.group,
                    index: sat_u32(i),
                    words: c.words,
                    speaker: c.speaker,
                    text_edited: c.text_edited,
                    style_override: c.style_override,
                },
            ),
            None => None,
        },
    }
}

/// `after` is `before` with the cues listed in `order` numbered by their
/// place in it.
pub open spec fn reindexed(before: Map<u64, ClipView>, after: Map<u64, ClipView>, order: Seq<u64>) -> bool {
    &&& after.dom() == before.dom()
    &&& forall|k: u64|
        before.dom().contains(k) && !order.contains(k) ==> #[trigger] after[k] == before[k]
    &&& forall|i: int| 0 <= i < order.len() ==> after[#[trigger] order[i]] == with_index(before[order[i]], i)
}

/// Some clip is a cue of group `g`.
pub open spec fn group_in_use(m: Map<u64, ClipView>, g: u64) -> bool {
    exists|k: u64| m.dom().contains(k) && #[trigger] is_cue_in(m[k], CaptionGroupId(g))
}

/// The raw ids of a list of clips.
pub open spec fn clip_ids(s: Seq<Clip>) -> Seq<u64> {
    Seq::new(s.len(), |i: int| s[i].id.0)
}

/// A copy of an optional string.
pub fn copy_opt(s: &Option<String>) -> (r: Option<String>)
    ensures
        opt_view(r) == opt_view(*s),
{
    match s {
        Some(x) => Some(x.clone()),
        None => None,
    }
}

/// A copy of a cue's caption metadata.
pub fn copy_cue(c: &CaptionCue) -> (r: CaptionCue)
    ensures
        cue_view(r) == cue_view(*c),
{
    CaptionCue {
        group: c.group,
        index: c.index,
        words: copy_words(&c.words),
        speaker: copy_opt(&c.speaker),
        text_edited: c.text_edited,
        style_override: c.style_override,
    }
}

/// A copy of a group's provenance.
pub fn copy_source(s: &CaptionSource) -> (r: CaptionSource)
    ensures
        source_view(r) == source_view(*s),
{
    match s {
        CaptionSource::Manual => CaptionSource::Manual,
        CaptionSource::Imported { format } => CaptionSource::Imported { format: *format },
        CaptionSource::Auto { media, language, model } => CaptionSource::Auto {
            media: *media,
            language: copy_opt(language),
            model: model.clone(),
        },
    }
}

impl Clip {
    /// A copy of the clip, id included.
    pub fn copy(&self) -> (c: Clip)
        ensures
            c.id == self.id,
            clip_view(c) == clip_view(*self),
    {
        let caption = match &self.caption {
            Some(cue) => Some(copy_cue(cue)),
            None => None,
        };
        Clip {
            id: self.id,
            track: self.track,
            timeline: self.timeline,
            text: copy_opt(&self.text),
            caption,
        }
    }

    /// The text a text clip shows.
    pub fn text_content(&self) -> (r: Option<&str>)
        ensures
            match r {
                Some(t) => self.text matches Some(s) && t@ == s@,
                None => self.text is None,
            },
    {
        match &self.text {
            Some(s) => Some(s.as_str()),
            None => None,
        }
    }

    /// Whether the clip is a caption cue.
    pub fn is_caption(&self) -> (r: bool)
        ensures
            r == self.caption is Some,
    {
        self.caption.is_some()
    }

    /// The group this clip is a cue of, if it is one.
    pub fn caption_group(&self) -> (r: Option<CaptionGroupId>)
        ensures
            r == (match self.caption {
                Some(c) => Some(c.group),
                None => None,
            }),
    {
        match &self.caption {
            Some(c) => Some(c.group),
            None => None,
        }
    }
}

impl CaptionGroup {
    /// A copy of the group, id included.
    pub fn copy(&self) -> (g: CaptionGroup)
        ensures
            g.id == self.id,
            group_view(g) == group_view(*self),
    {
        CaptionGroup {
            id: self.id,
            label: self.label.clone(),
            track: self.track,
            layout: self.layout,
            source: copy_source(&self.source),
            template: copy_opt(&self.template),
            highlight: self.highlight,
        }
    }
}

impl Timeline {
    /// Copies of the cue clips of `group`, in timeline order.
    pub fn caption_cues(&self, group: CaptionGroupId) -> (r: Vec<Clip>)
        requires
            self.wf(),
        ensures
            cue_order(self.clips_view(), group, clip_ids(r@)),
            forall|i: int| 0 <= i < r@.len() ==> clip_view(#[trigger] r@[i]) == self.clips_view()[r@[i].id.0],
    {
        let ids = self.caption_cue_ids(group);
        let mut out: Vec<Clip> = Vec::new();
        let mut a: usize = 0;
        while a < ids.len()
            invariant
                self.wf(),
                cue_order(self.clips_view(), group, raw_ids(ids@)),
                a <= ids@.len(),
                out@.len() == a,
                forall|b: int| 0 <= b < a ==> (#[trigger] out@[b]).id == ids@[b],
                forall|b: int| 0 <= b < a ==> clip_view(#[trigger] out@[b]) == self.clips_view()[ids@[b].0],
            decreases ids@.len() - a,
        {
            assert(self.clips_view().dom().contains(raw_ids(ids@)[a as int]));
            match self.clip(ids[a]) {
                Some(c) => {
                    out.push(c.copy());
                },
                None => {
                    assert(false);
                },
            }
            a += 1;
        }
        assert(clip_ids(out@) =~= raw_ids(ids@));
        out
    }

    /// Renumber the cues of `group` 0, 1, 2, … in timeline order.
    pub fn reindex_caption_group(&mut self, group: CaptionGroupId)
        requires
            old(self).wf(),
        ensures
            final(self).wf(),
            final(self).same_except_clips(old(self)),
            exists|order: Seq<u64>|
                cue_order(old(self).clips_view(), group, order) && reindexed(
                    old(self).clips_view(),
                    final(self).clips_view(),
                    order,
                ),
    {
        let ids = self.caption_cue_ids(group);
        let ghost m0 = self.clips_view();
        let ghost order = raw_ids(ids@);
        proof {
            assert forall|b: int, c: int| 0 <= b < order.len() && 0 <= c < order.len() && b != c implies order[b]
                != order[c] by {
                if b < c {
                    assert(cue_before(m0, order[b], order[c]));
                } else {
                    assert(cue_before(m0, order[c], order[b]));
                }
            }
        }
        let mut a: usize = 0;
        while a < ids.len()
            invariant
                self.wf(),
                self.same_except_clips(old(self)),
                m0 == old(self).clips_view(),
                order == raw_ids(ids@),
                cue_order(m0, group, order),
                forall|b: int, c: int| 0 <= b < order.len() && 0 <= c < order.len() && b != c ==> order[b] != order[c],
                a <= ids@.len(),
                self.clips_view().dom() == m0.dom(),
                forall|k: u64|
                    m0.dom().contains(k) && !order.take(a as int).contains(k) ==> #[trigger] self.clips_view()[k] == m0[k],
                forall|b: int| 0 <= b < a ==> self.clips_view()[#[trigger] order[b]] == with_index(m0[order[b]], b),
            decreases ids@.len() - a,
        {
            let id = ids[a];
            assert(order[a as int] == id.0);
            match self.clip_index(id) {
                Some(idx) => {
                    proof {
                        self.lemma_clip_at(idx as int);
                        assert(!order.take(a as int).contains(id.0)) by {
                            if order.take(a as int).contains(id.0) {
                                let b = choose|b: int| 0 <= b < a && order.take(a as int)[b] == id.0;
                                assert(order[b] == order[a as int]);
                            }
                        }
                    }
                    let mut clip = self.clips[idx].copy();
                    let number: u32 = if a > 0xFFFF_FFFF { u32::MAX } else { a as u32 };
                    let caption = match &clip.caption {
                        Some(cue) => {
                            let mut c = copy_cue(cue);
                            c.index = number;
                            Some(c)
                        },
                        None => None,
                    };
                    clip.caption = caption;
                    let ghost before = self.clips_view();
                    self.put_clip(idx, clip);
                    proof {
                        assert(self.clips_view() == before.insert(id.0, with_index(before[id.0], a as int)));
                        assert(self.clips_view().dom() =~= m0.dom());
                        assert forall|k: u64|
                            m0.dom().contains(k) && !order.take(a + 1).contains(k) implies #[trigger] self.clips_view()[k]
                                == m0[k] by {
                            assert(order.take(a + 1)[a as int] == id.0);
                            if order.take(a as int).contains(k) {
                                let b = choose|b: int| 0 <= b < a && order.take(a as int)[b] == k;
                                assert(order.take(a + 1)[b] == k);
                            }
                        }
                        assert forall|b: int| 0 <= b < a + 1 implies self.clips_view()[#[trigger] order[b]] == with_index(
                            m0[order[b]],
                            b,
                        ) by {
                            if b < a {
                                assert(order[b] != id.0);
                            }
                        }
                    }
                },
                None => {
                    assert(false);
                },
            }
            a += 1;
        }
        proof {
            assert(order.take(order.len() as int) =~= order);
            assert(reindexed(m0, self.clips_view(), order));
        }
    }

    /// Whether some clip is a cue of `group`.
    pub fn has_cues(&self, group: CaptionGroupId) -> (r: bool)
        requires
            self.wf(),
        ensures
            r == group_in_use(self.clips_view(), group.0),
    {
        let mut i: usize = 0;
        while i < self.clips.len()
            invariant
                self.wf(),
                i <= self.clips@.len(),
                forall|j: int| 0 <= j < i ==> !is_cue_in(clip_view(#[trigger] self.clips@[j]), group),
            decreases self.clips@.len() - i,
        {
            let hit = match &self.clips[i].caption {
                Some(cue) => cue.group == group,
                None => false,
            };
            assert(hit == is_cue_in(clip_view(self.clips@[i as int]), group));
            if hit {
                proof {
                    self.lemma_clip_at(i as int);
                    let k = self.clips@[i as int].id.0;
                    assert(CaptionGroupId(group.0) == group);
                    assert(self.clips_view().dom().contains(k) && is_cue_in(self.clips_view()[k], CaptionGroupId(group.0)));
                }
                return true;
            }
            i += 1;
        }
        proof {
            assert(CaptionGroupId(group.0) == group);
            assert forall|k: u64| self.clips_view().dom().contains(k) implies !#[trigger] is_cue_in(
                self.clips_view()[k],
                CaptionGroupId(group.0),
            ) by {
                let j = choose|j: int| 0 <= j < self.clips@.len() && #[trigger] self.clips@[j].id.0 == k;
                self.lemma_clip_at(j);
            }
        }
        false
    }

    /// Drop every caption group that no clip is a cue of, handing back the
    /// dropped groups.
    pub fn prune_empty_caption_groups(&mut self) -> (r: Vec<CaptionGroup>)
        requires
            old(self).wf(),
        ensures
            final(self).wf(),
            final(self).same_except_groups(old(self)),
            final(self).groups_view() == old(self).groups_view().restrict(
                Set::new(|g: u64| group_in_use(old(self).clips_view(), g)),
            ),
            forall|i: int|
                0 <= i < r@.len() ==> old(self).groups_view().dom().contains((#[trigger] r@[i]).id.0)
                    && !group_in_use(old(self).clips_view(), r@[i].id.0) && group_view(r@[i])
                    == old(self).groups_view()[r@[i].id.0],
            forall|g: u64|
                old(self).groups_view().dom().contains(g) && !group_in_use(old(self).clips_view(), g)
                    ==> exists|i: int| 0 <= i < r@.len() && (#[trigger] r@[i]).id.0 == g,
    {
        let ghost used = Set::new(|g: u64| group_in_use(self.clips_view(), g));
        let ghost gs = self.groups@;
        let mut kept: Vec<CaptionGroup> = Vec::new();
        let mut dropped: Vec<CaptionGroup> = Vec::new();
        let mut i: usize = 0;
        proof {
            assert(gs.take(0) =~= Seq::<CaptionGroup>::empty());
            assert(group_map(kept@) =~= group_map(gs.take(0)).restrict(used));
        }
        while i < self.groups.len()
            invariant
                self.wf(),
                *self == *old(self),
                gs == self.groups@,
                used == Set::new(|g: u64| group_in_use(self.clips_view(), g)),
                i <= gs.len(),
                group_ids_unique(kept@),
                group_map(kept@) == group_map(gs.take(i as int)).restrict(used),
                forall|b: int|
                    0 <= b < dropped@.len() ==> self.groups_view().dom().contains((#[trigger] dropped@[b]).id.0)
                        && !used.contains(dropped@[b].id.0) && group_view(dropped@[b])
                        == self.groups_view()[dropped@[b].id.0],
                forall|j: int|
                    0 <= j < i && !used.contains(#[trigger] gs[j].id.0) ==> exists|b: int|
                        0 <= b < dropped@.len() && (#[trigger] dropped@[b]).id.0 == gs[j].id.0,
            decreases gs.len() - i,
        {
            let g = self.groups[i].copy();
            let in_use = self.has_cues(g.id);
            proof {
                lemma_group_map_at(gs, i as int);
                assert(gs.take(i + 1) =~= gs.take(i as int).push(gs[i as int]));
                assert forall|a: int, b: int|
                    0 <= a < i && 0 <= b < i && #[trigger] gs.take(i as int)[a].id == #[trigger] gs.take(i as int)[b].id implies a
                    == b by {
                    assert(gs[a].id == gs[b].id);
                }
                if group_map(gs.take(i as int)).dom().contains(gs[i as int].id.0) {
                    let a = choose|a: int| 0 <= a < i && #[trigger] gs.take(i as int)[a].id.0 == gs[i as int].id.0;
                    assert(gs[a].id == gs[i as int].id);
                }
                lemma_group_map_push(gs.take(i as int), gs[i as int]);
            }
            if in_use {
                proof {
                    assert(used.contains(g.id.0));
                    assert(!group_map(kept@).dom().contains(g.id.0));
                    lemma_group_map_push(kept@, g);
                    assert(group_map(kept@.push(g)) =~= group_map(gs.take(i + 1)).restrict(used));
                }
                kept.push(g);
            } else {
                proof {
                    assert(!used.contains(g.id.0));
                    assert(group_map(kept@) =~= group_map(gs.take(i + 1)).restrict(used));
                }
                let ghost d0 = dropped@;
                dropped.push(g);
                proof {
                    assert(dropped@[d0.len() as int] == g);
                    assert forall|j: int|
                        0 <= j < i + 1 && !used.contains(#[trigger] gs[j].id.0) implies exists|b: int|
                            0 <= b < dropped@.len() && (#[trigger] dropped@[b]).id.0 == gs[j].id.0 by {
                        if j < i {
                            let b = choose|b: int| 0 <= b < d0.len() && (#[trigger] d0[b]).id.0 == gs[j].id.0;
                            assert(dropped@[b] == d0[b]);
                        } else {
                            assert(dropped@[d0.len() as int].id.0 == gs[j].id.0);
                        }
                    }
                }
            }
            i += 1;
        }
        proof {
            assert(gs.take(gs.len() as int) =~= gs);
        }
        self.groups = kept;
        proof {
            assert forall|j: int| 0 <= j < self.groups@.len() implies placed(
                #[trigger] self.groups@[j].id.0,
                self.groups@[j].track,
                self.next_id,
                self.tracks_view(),
            ) by {
                lemma_group_map_at(self.groups@, j);
                let k = self.groups@[j].id.0;
                assert(group_map(gs).dom().contains(k));
                let a = choose|a: int| 0 <= a < gs.len() && #[trigger] gs[a].id.0 == k;
                lemma_group_map_at(gs, a);
                assert(placed(gs[a].id.0, gs[a].track, old(self).next_id, old(self).tracks_view()));
            }
            assert forall|g: u64|
                old(self).groups_view().dom().contains(g) && !group_in_use(old(self).clips_view(), g)
                    implies exists|b: int| 0 <= b < dropped@.len() && (#[trigger] dropped@[b]).id.0 == g by {
                let j = choose|j: int| 0 <= j < gs.len() && #[trigger] gs[j].id.0 == g;
                assert(!used.contains(gs[j].id.0));
            }
        }
        dropped
    }
}

} // verus!
