//! Which clip the Auto Captions dialog would transcribe: the selection when it
//! has audio, otherwise the best clip under the playhead, and a reason
//! whenever there is none.

use vstd::prelude::*;

use crate::caption::layout::{default_layout_spec, CaptionLayout};
use crate::text::{chars_of, string_of};
use crate::time::Rational;
pub use crate::timeline::TrackKind;

verus! {

/// A clip as the dialog sees it.
#[derive(Debug, Clone, PartialEq)]
pub struct SourceClip {
    pub id: String,
    /// Pool id of the clip's media; empty for generated clips.
    pub media_id: String,
    pub duration_label: String,
    /// First timeline tick.
    pub start: i32,
    /// Length in ticks.
    pub duration: i32,
}

/// A lane and its clips.
#[derive(Debug, Clone, PartialEq)]
pub struct SourceTrack {
    pub kind: TrackKind,
    /// The main video lane: what the viewer is watching.
    pub is_main: bool,
    pub clips: Vec<SourceClip>,
}

/// A media pool entry.
#[derive(Debug, Clone, PartialEq)]
pub struct SourceMedia {
    pub id: String,
    pub name: String,
    pub path: String,
    pub has_audio: bool,
    pub is_missing: bool,
}

/// The lanes and the media pool.
#[derive(Debug, Clone, PartialEq)]
pub struct SourceProject {
    pub tracks: Vec<SourceTrack>,
    pub media: Vec<SourceMedia>,
}

/// What the dialog shows: the clip to transcribe, or (with an empty
/// `clip_id`) why there is none.
#[derive(Debug, Clone, PartialEq)]
pub struct CaptionAutoSource {
    pub clip_id: String,
    pub name: String,
    pub duration_label: String,
    pub reason: String,
}

/// Every clip with its lane's kind and main flag, lane by lane.
pub open spec fn flat_from(tracks: Seq<SourceTrack>, t: int) -> Seq<(SourceClip, TrackKind, bool)>
    decreases tracks.len() - t,
{
    if t < 0 || t >= tracks.len() {
        Seq::empty()
    } else {
        Seq::new(
            tracks[t].clips@.len(),
            |j: int| (tracks[t].clips@[j], tracks[t].kind, tracks[t].is_main),
        ) + flat_from(tracks, t + 1)
    }
}

/// Every clip of the project with its lane.
pub open spec fn flat_clips(p: SourceProject) -> Seq<(SourceClip, TrackKind, bool)> {
    flat_from(p.tracks@, 0)
}

/// The first index from `i` on where `pred` holds, or `None`.
pub open spec fn first_media(media: Seq<SourceMedia>, id: Seq<char>, i: int) -> Option<int>
    decreases media.len() - i,
{
    if i < 0 || i >= media.len() {
        None
    } else if media[i].id@ == id {
        Some(i)
    } else {
        first_media(media, id, i + 1)
    }
}

/// The clip's pool entry, when it has one.
pub open spec fn media_of(p: SourceProject, clip: SourceClip) -> Option<int> {
    if clip.media_id@.len() == 0 {
        None
    } else {
        first_media(p.media@, clip.media_id@, 0)
    }
}

/// The clip's pool entry, when it has one with sound in it.
pub open spec fn transcribable(p: SourceProject, clip: SourceClip) -> Option<int> {
    match media_of(p, clip) {
        Some(m) => if p.media@[m].has_audio {
            Some(m)
        } else {
            None
        },
        None => None,
    }
}

/// Whether the clip's span holds `tick` (its end saturating at `i32::MAX`).
pub open spec fn covers(clip: SourceClip, tick: i32) -> bool {
    let end = if clip.start + clip.duration > i32::MAX {
        i32::MAX as int
    } else if clip.start + clip.duration < i32::MIN {
        i32::MIN as int
    } else {
        clip.start + clip.duration
    };
    tick >= clip.start && tick < end
}

/// How much a lane is preferred under the playhead: the main lane, then any
/// video lane, then audio; text lanes never.
pub open spec fn lane_rank(kind: TrackKind, is_main: bool) -> Option<int> {
    if is_main {
        Some(0)
    } else {
        match kind {
            TrackKind::Video => Some(1),
            TrackKind::Audio => Some(2),
            TrackKind::Text => None,
        }
    }
}

/// The first clip with this id.
pub open spec fn first_clip(flat: Seq<(SourceClip, TrackKind, bool)>, id: Seq<char>, i: int) -> Option<int>
    decreases flat.len() - i,
{
    if i < 0 || i >= flat.len() {
        None
    } else if flat[i].0.id@ == id {
        Some(i)
    } else {
        first_clip(flat, id, i + 1)
    }
}

/// The best candidate among the first `n` clips under `tick`: `(clip index,
/// media index, rank)`, the earliest of the lowest rank.
pub open spec fn best_under(p: SourceProject, flat: Seq<(SourceClip, TrackKind, bool)>, tick: i32, n: int) -> Option<
    (int, int, int),
>
    decreases n,
{
    if n <= 0 {
        None
    } else {
        let prev = best_under(p, flat, tick, n - 1);
        let c = flat[n - 1];
        let here = if covers(c.0, tick) {
            match transcribable(p, c.0) {
                Some(m) => match lane_rank(c.1, c.2) {
                    Some(r) => Some((n - 1, m, r)),
                    None => None,
                },
                None => None,
            }
        } else {
            None
        };
        match (prev, here) {
            (Some(a), Some(b)) => if b.2 < a.2 {
                Some(b)
            } else {
                Some(a)
            },
            (None, h) => h,
            (a, None) => a,
        }
    }
}

/// The best clip under the playhead and its media.
pub open spec fn best_pick(p: SourceProject, tick: i32) -> Option<(int, int)> {
    match best_under(p, flat_clips(p), tick, flat_clips(p).len() as int) {
        Some(b) => Some((b.0, b.1)),
        None => None,
    }
}

/// The selected clip and its media, when it can be transcribed.
pub open spec fn selected_pick(p: SourceProject, selected: Seq<char>) -> Option<(int, int)> {
    let flat = flat_clips(p);
    if selected.len() > 0 {
        match first_clip(flat, selected, 0) {
            Some(i) => match transcribable(p, flat[i].0) {
                Some(m) => Some((i, m)),
                None => None,
            },
            None => None,
        }
    } else {
        None
    }
}

/// The clip to transcribe and its media: the selected clip when it can be
/// transcribed, else the best clip under the playhead.
pub open spec fn pick_spec(p: SourceProject, selected: Seq<char>, tick: i32) -> Option<(int, int)> {
    let flat = flat_clips(p);
    match selected_pick(p, selected) {
        Some(c) => Some(c),
        None => best_pick(p, tick),
    }
}

/// Why no clip can be transcribed, as the dialog says it; `None` when one
/// can.
pub open spec fn refusal_spec(p: SourceProject, selected: Seq<char>, tick: i32) -> Option<Seq<char>> {
    match pick_spec(p, selected, tick) {
        None => Some(
            if selected.len() == 0 {
                "Select a clip with audio, or park the playhead over one"@
            } else {
                "That clip has no audio to transcribe"@
            },
        ),
        Some((_, m)) => if p.media@[m].is_missing {
            Some("This clip's file is missing \u{2014} relink it first"@)
        } else if p.media@[m].path@.len() == 0 {
            Some("This clip's file cannot be read"@)
        } else {
            None
        },
    }
}

/// Whether two texts are equal.
fn same_text(a: &str, b: &str) -> (r: bool)
    ensures
        r == (a@ == b@),
{
    let x = chars_of(a);
    let y = chars_of(b);
    if x.len() != y.len() {
        return false;
    }
    let mut i: usize = 0;
    while i < x.len()
        invariant
            x@ == a@,
            y@ == b@,
            x@.len() == y@.len(),
            i <= x@.len(),
            forall|j: int| 0 <= j < i ==> x@[j] == y@[j],
        decreases x@.len() - i,
    {
        if x[i] != y[i] {
            assert(a@[i as int] != b@[i as int]);
            return false;
        }
        i += 1;
    }
    assert(a@ =~= b@);
    true
}

/// A copy of `s`.
fn copy_string(s: &String) -> (r: String)
    ensures
        r@ == s@,
{
    string_of(chars_of(s.as_str()).as_slice())
}

/// [`media_of`].
fn find_media(p: &SourceProject, clip: &SourceClip) -> (r: Option<usize>)
    ensures
        r matches Some(m) ==> media_of(*p, *clip) == Some(m as int) && m < p.media@.len(),
        r is None ==> media_of(*p, *clip) is None,
{
    if clip.media_id.as_str().is_empty() {
        return None;
    }
    let mut i: usize = 0;
    while i < p.media.len()
        invariant
            i <= p.media@.len(),
            clip.media_id@.len() > 0,
            first_media(p.media@, clip.media_id@, i as int) == first_media(p.media@, clip.media_id@, 0),
        decreases p.media@.len() - i,
    {
        if same_text(p.media[i].id.as_str(), clip.media_id.as_str()) {
            return Some(i);
        }
        i += 1;
    }
    None
}

/// [`transcribable`].
fn find_transcribable(p: &SourceProject, clip: &SourceClip) -> (r: Option<usize>)
    ensures
        r matches Some(m) ==> transcribable(*p, *clip) == Some(m as int) && m < p.media@.len(),
        r is None ==> transcribable(*p, *clip) is None,
{
    match find_media(p, clip) {
        Some(m) => if p.media[m].has_audio {
            Some(m)
        } else {
            None
        },
        None => None,
    }
}

/// [`covers`].
fn clip_covers(clip: &SourceClip, tick: i32) -> (r: bool)
    ensures
        r == covers(*clip, tick),
{
    let sum = clip.start as i64 + clip.duration as i64;
    let end: i32 = if sum > i32::MAX as i64 {
        i32::MAX
    } else if sum < i32::MIN as i64 {
        i32::MIN
    } else {
        sum as i32
    };
    tick >= clip.start && tick < end
}

/// [`lane_rank`].
fn rank_of(kind: TrackKind, is_main: bool) -> (r: Option<u8>)
    ensures
        r matches Some(x) ==> lane_rank(kind, is_main) == Some(x as int),
        r is None ==> lane_rank(kind, is_main) is None,
{
    if is_main {
        Some(0)
    } else {
        match kind {
            TrackKind::Video => Some(1),
            TrackKind::Audio => Some(2),
            TrackKind::Text => None,
        }
    }
}

/// Where flat clip `i` lives: `(track, clip)`.
pub open spec fn located(p: SourceProject, i: int, t: int, j: int) -> bool {
    &&& 0 <= t < p.tracks@.len()
    &&& 0 <= j < p.tracks@[t].clips@.len()
    &&& flat_clips(p)[i] == (p.tracks@[t].clips@[j], p.tracks@[t].kind, p.tracks@[t].is_main)
}

/// The flattened clips of tracks `t..` start with track `t`'s clips.
proof fn lemma_flat_from(tracks: Seq<SourceTrack>, t: int)
    requires
        0 <= t < tracks.len(),
    ensures
        flat_from(tracks, t) == Seq::new(
            tracks[t].clips@.len(),
            |j: int| (tracks[t].clips@[j], tracks[t].kind, tracks[t].is_main),
        ) + flat_from(tracks, t + 1),
{
}

/// Track `t`'s clips sit at `base..` of the flattened clips.
proof fn lemma_track_in_flat(p: SourceProject, t: int, base: int)
    requires
        0 <= t < p.tracks@.len(),
        0 <= base <= flat_clips(p).len(),
        flat_from(p.tracks@, t) == flat_clips(p).skip(base),
    ensures
        base + p.tracks@[t].clips@.len() <= flat_clips(p).len(),
        forall|k: int|
            0 <= k < p.tracks@[t].clips@.len() ==> #[trigger] flat_clips(p)[base + k] == (
                p.tracks@[t].clips@[k],
                p.tracks@[t].kind,
                p.tracks@[t].is_main,
            ),
        flat_from(p.tracks@, t + 1) == flat_clips(p).skip(base + p.tracks@[t].clips@.len()),
{
    let flat = flat_clips(p);
    let tr = p.tracks@[t];
    let head = Seq::new(tr.clips@.len(), |j: int| (tr.clips@[j], tr.kind, tr.is_main));
    lemma_flat_from(p.tracks@, t);
    let rest = flat_from(p.tracks@, t + 1);
    assert(flat.skip(base) == head + rest);
    assert(flat.skip(base).len() == head.len() + rest.len());
    assert(base + head.len() <= flat.len());
    assert forall|k: int| 0 <= k < tr.clips@.len() implies #[trigger] flat[base + k] == (
        tr.clips@[k],
        tr.kind,
        tr.is_main,
    ) by {
        assert(flat.skip(base)[k] == flat[base + k]);
        assert(head[k] == (tr.clips@[k], tr.kind, tr.is_main));
    }
    assert((head + rest).skip(head.len() as int) =~= rest);
    assert(flat.skip(base).skip(head.len() as int) =~= flat.skip(base + tr.clips@.len()));
}

/// The flattened clips from the last track on are empty.
proof fn lemma_flat_end(tracks: Seq<SourceTrack>)
    ensures
        flat_from(tracks, tracks.len() as int).len() == 0,
{
}

/// Clip `j` of track `t` is the first clip with the selected id.
pub open spec fn selected_at(p: SourceProject, selected: Seq<char>, t: int, j: int) -> bool {
    exists|i: int|
        #![trigger located(p, i, t, j)]
        0 <= i < flat_clips(p).len() && located(p, i, t, j) && first_clip(flat_clips(p), selected, 0)
            == Some(i)
}

/// The first clip with the selected id, as `(track, clip)` positions.
fn find_selected(p: &SourceProject, selected: &str) -> (r: Option<(usize, usize)>)
    ensures
        match r {
            Some((t, j)) => t < p.tracks@.len() && j < p.tracks@[t as int].clips@.len() && selected_at(
                *p,
                selected@,
                t as int,
                j as int,
            ),
            None => first_clip(flat_clips(*p), selected@, 0) is None,
        },
{
    let ghost flat = flat_clips(*p);
    let mut t: usize = 0;
    let ghost mut base: int = 0;
    proof {
        assert(flat.skip(0) =~= flat);
    }
    while t < p.tracks.len()
        invariant
            flat == flat_clips(*p),
            t <= p.tracks@.len(),
            0 <= base <= flat.len(),
            flat_from(p.tracks@, t as int) == flat.skip(base),
            first_clip(flat, selected@, base) == first_clip(flat, selected@, 0),
        decreases p.tracks@.len() - t,
    {
        let track = &p.tracks[t];
        proof {
            lemma_track_in_flat(*p, t as int, base);
        }
        let mut j: usize = 0;
        while j < track.clips.len()
            invariant
                flat == flat_clips(*p),
                track == &p.tracks@[t as int],
                t < p.tracks@.len(),
                j <= track.clips@.len(),
                0 <= base,
                base + track.clips@.len() <= flat.len(),
                forall|k: int| 0 <= k < track.clips@.len() ==> #[trigger] flat[base + k] == (
                    track.clips@[k],
                    track.kind,
                    track.is_main,
                ),
                first_clip(flat, selected@, base + j) == first_clip(flat, selected@, 0),
            decreases track.clips@.len() - j,
        {
            proof {
                assert(flat[base + j] == (track.clips@[j as int], track.kind, track.is_main));
            }
            if same_text(track.clips[j].id.as_str(), selected) {
                proof {
                    assert(first_clip(flat, selected@, base + j) == Some(base + j));
                    assert(located(*p, base + j, t as int, j as int));
                    assert(0 <= base + j < flat_clips(*p).len() && located(*p, base + j, t as int, j as int)
                        && first_clip(flat_clips(*p), selected@, 0) == Some(base + j));
                    assert(selected_at(*p, selected@, t as int, j as int));
                }
                return Some((t, j));
            }
            j += 1;
        }
        proof {
            base = base + track.clips@.len();
        }
        t += 1;
    }
    proof {
        lemma_flat_end(p.tracks@);
        assert(flat.skip(base).len() == 0);
        assert(base == flat.len());
    }
    None
}

/// Clip `j` of track `t`, with media `m`, is the best under the playhead.
pub open spec fn best_at(p: SourceProject, tick: i32, t: int, j: int, m: int) -> bool {
    exists|i: int|
        #![trigger located(p, i, t, j)]
        0 <= i < flat_clips(p).len() && located(p, i, t, j) && best_pick(p, tick) == Some((i, m))
}

/// Clip `j` of track `t`, with media `m`, is what [`pick_spec`] picks.
pub open spec fn picked_at(p: SourceProject, selected: Seq<char>, tick: i32, t: int, j: int, m: int) -> bool {
    exists|i: int|
        #![trigger located(p, i, t, j)]
        0 <= i < flat_clips(p).len() && located(p, i, t, j) && pick_spec(p, selected, tick) == Some((i, m))
}

/// The best clip under the playhead, as `(track, clip, media)` positions.
fn best_clip(p: &SourceProject, tick: i32) -> (r: Option<(usize, usize, usize)>)
    ensures
        match r {
            Some((t, j, m)) => t < p.tracks@.len() && j < p.tracks@[t as int].clips@.len() && m
                < p.media@.len() && best_at(*p, tick, t as int, j as int, m as int),
            None => best_under(*p, flat_clips(*p), tick, flat_clips(*p).len() as int) is None,
        },
{
    let ghost flat = flat_clips(*p);
    let mut best: Option<(usize, usize, usize, u8)> = None;
    let ghost mut best_i: int = 0;
    let mut t: usize = 0;
    let ghost mut base: int = 0;
    proof {
        assert(flat.skip(0) =~= flat);
    }
    while t < p.tracks.len()
        invariant
            flat == flat_clips(*p),
            t <= p.tracks@.len(),
            0 <= base <= flat.len(),
            flat_from(p.tracks@, t as int) == flat.skip(base),
            match best {
                Some((bt, bj, bm, br)) => bt < p.tracks@.len() && bj < p.tracks@[bt as int].clips@.len()
                    && bm < p.media@.len() && 0 <= best_i < base && located(*p, best_i, bt as int, bj as int)
                    && best_under(*p, flat, tick, base) == Some((best_i, bm as int, br as int)),
                None => best_under(*p, flat, tick, base) is None,
            },
        decreases p.tracks@.len() - t,
    {
        let track = &p.tracks[t];
        proof {
            lemma_track_in_flat(*p, t as int, base);
        }
        let mut j: usize = 0;
        while j < track.clips.len()
            invariant
                flat == flat_clips(*p),
                track == &p.tracks@[t as int],
                t < p.tracks@.len(),
                j <= track.clips@.len(),
                0 <= base,
                base + track.clips@.len() <= flat.len(),
                forall|k: int| 0 <= k < track.clips@.len() ==> #[trigger] flat[base + k] == (
                    track.clips@[k],
                    track.kind,
                    track.is_main,
                ),
                match best {
                    Some((bt, bj, bm, br)) => bt < p.tracks@.len() && bj < p.tracks@[bt as int].clips@.len()
                        && bm < p.media@.len() && 0 <= best_i < base + j && located(*p, best_i, bt as int, bj as int)
                        && best_under(*p, flat, tick, base + j) == Some((best_i, bm as int, br as int)),
                    None => best_under(*p, flat, tick, base + j) is None,
                },
            decreases track.clips@.len() - j,
        {
            let clip = &track.clips[j];
            proof {
                assert(flat[base + j] == (track.clips@[j as int], track.kind, track.is_main));
            }
            if clip_covers(clip, tick) {
                match find_transcribable(p, clip) {
                    Some(m) => match rank_of(track.kind, track.is_main) {
                        Some(r) => {
                            let better = match best {
                                Some((_, _, _, br)) => r < br,
                                None => true,
                            };
                            if better {
                                best = Some((t, j, m, r));
                                proof {
                                    best_i = base + j;
                                    assert(located(*p, base + j, t as int, j as int));
                                }
                            }
                        },
                        None => {},
                    },
                    None => {},
                }
            }
            j += 1;
        }
        proof {
            base = base + track.clips@.len();
        }
        t += 1;
    }
    proof {
        lemma_flat_end(p.tracks@);
        assert(flat.skip(base).len() == 0);
        assert(base == flat.len());
    }
    match best {
        Some((bt, bj, bm, br)) => {
            proof {
                assert(located(*p, best_i, bt as int, bj as int));
                let k = flat_clips(*p).len() as int;
                assert(best_under(*p, flat_clips(*p), tick, k) == Some((best_i, bm as int, br as int)));
                assert(best_at(*p, tick, bt as int, bj as int, bm as int));
            }
            Some((bt, bj, bm))
        },
        None => None,
    }
}

/// The clip to transcribe and its media ([`pick_spec`]): `(track, clip,
/// media)` positions.
fn pick(p: &SourceProject, selected: &str, tick: i32) -> (r: Option<(usize, usize, usize)>)
    ensures
        match r {
            Some((t, j, m)) => t < p.tracks@.len() && j < p.tracks@[t as int].clips@.len() && m
                < p.media@.len() && picked_at(*p, selected@, tick, t as int, j as int, m as int),
            None => pick_spec(*p, selected@, tick) is None,
        },
{
    if !selected.is_empty() {
        if let Some((t, j)) = find_selected(p, selected) {
            if let Some(m) = find_transcribable(p, &p.tracks[t].clips[j]) {
                proof {
                    let i = choose|i: int|
                        #![trigger located(*p, i, t as int, j as int)]
                        0 <= i < flat_clips(*p).len() && located(*p, i, t as int, j as int)
                            && first_clip(flat_clips(*p), selected@, 0) == Some(i);
                    assert(located(*p, i, t as int, j as int));
                    assert(selected_pick(*p, selected@) == Some((i, m as int)));
                    assert(picked_at(*p, selected@, tick, t as int, j as int, m as int));
                }
                return Some((t, j, m));
            } else {
                proof {
                    let i = choose|i: int|
                        #![trigger located(*p, i, t as int, j as int)]
                        0 <= i < flat_clips(*p).len() && located(*p, i, t as int, j as int)
                            && first_clip(flat_clips(*p), selected@, 0) == Some(i);
                    assert(located(*p, i, t as int, j as int));
                    assert(selected_pick(*p, selected@) is None);
                }
            }
        }
    }
    assert(selected_pick(*p, selected@) is None);
    match best_clip(p, tick) {
        Some((t, j, m)) => {
            proof {
                let i = choose|i: int|
                    #![trigger located(*p, i, t as int, j as int)]
                    0 <= i < flat_clips(*p).len() && located(*p, i, t as int, j as int)
                        && best_pick(*p, tick) == Some((i, m as int));
                assert(located(*p, i, t as int, j as int));
                assert(pick_spec(*p, selected@, tick) == Some((i, m as int)));
                assert(picked_at(*p, selected@, tick, t as int, j as int, m as int));
            }
            Some((t, j, m))
        },
        None => None,
    }
}

/// A dialog answer that only explains why nothing can be transcribed.
fn refusal(reason: &str) -> (s: CaptionAutoSource)
    ensures
        s.clip_id@.len() == 0,
        s.name@.len() == 0,
        s.duration_label@.len() == 0,
        s.reason@ == reason@,
{
    proof {
        reveal_strlit("");
    }
    CaptionAutoSource {
        clip_id: string_of(chars_of("").as_slice()),
        name: string_of(chars_of("").as_slice()),
        duration_label: string_of(chars_of("").as_slice()),
        reason: string_of(chars_of(reason).as_slice()),
    }
}

/// The clip to transcribe: the selection when it has audio, otherwise
/// whatever sits under the playhead (the main video lane first, then any other
/// video lane, then audio). A refusal always explains itself, since a greyed
/// out "Generate captions" with no reason is the worst version of this
/// dialog.
pub fn auto_source(project: &SourceProject, selected_clip: &str, playhead_tick: i32) -> (s: CaptionAutoSource)
    ensures
        match refusal_spec(*project, selected_clip@, playhead_tick) {
            Some(reason) => s.clip_id@.len() == 0 && s.name@.len() == 0 && s.duration_label@.len()
                == 0 && s.reason@ == reason,
            None => s.reason@.len() == 0 && exists|i: int, m: int|
                pick_spec(*project, selected_clip@, playhead_tick) == Some((i, m)) && s.clip_id@
                    == flat_clips(*project)[i].0.id@ && s.name@ == project.media@[m].name@
                    && s.duration_label@ == flat_clips(*project)[i].0.duration_label@,
        },
{
    proof {
        reveal_strlit("Select a clip with audio, or park the playhead over one");
        reveal_strlit("That clip has no audio to transcribe");
        reveal_strlit("This clip's file is missing \u{2014} relink it first");
        reveal_strlit("This clip's file cannot be read");
        reveal_strlit("");
    }
    let (t, j, m) = match pick(project, selected_clip, playhead_tick) {
        Some(found) => found,
        None => {
            return refusal(
                if selected_clip.is_empty() {
                    "Select a clip with audio, or park the playhead over one"
                } else {
                    "That clip has no audio to transcribe"
                },
            );
        },
    };
    let media = &project.media[m];
    if media.is_missing {
        return refusal("This clip's file is missing \u{2014} relink it first");
    }
    if media.path.as_str().is_empty() {
        return refusal("This clip's file cannot be read");
    }
    let clip = &project.tracks[t].clips[j];
    CaptionAutoSource {
        clip_id: copy_string(&clip.id),
        name: copy_string(&media.name),
        duration_label: copy_string(&clip.duration_label),
        reason: string_of(chars_of("").as_slice()),
    }
}

/// Shortest line length the dialog offers.
pub const MIN_LINE_LENGTH: u16 = 12;
/// Longest line length the dialog offers.
pub const MAX_LINE_LENGTH: u16 = 120;

/// What a transcription job is told about the clip it transcribes: the
/// file, the pool entry, where the clip sits on the timeline, and the rules
/// its captions are segmented by. (Where the clip's window starts inside the
/// file, and how fast it plays, are measured in seconds and stay with the
/// job.)
#[derive(Debug, Clone, PartialEq)]
pub struct AutoCaptionRequest {
    pub path: String,
    /// Pool id of the clip's media.
    pub media: String,
    pub name: String,
    pub start_tick: i64,
    pub duration_ticks: i64,
    pub rate: Rational,
    /// Language the recognizer is pinned to.
    pub language: Option<String>,
    pub template: String,
    pub layout: CaptionLayout,
}

/// A requested line length, clamped into what the dialog offers.
pub open spec fn clamp_line_length(n: i32) -> u16 {
    if n < MIN_LINE_LENGTH {
        MIN_LINE_LENGTH
    } else if n > MAX_LINE_LENGTH {
        MAX_LINE_LENGTH
    } else {
        n as u16
    }
}

/// The first clip with id `clip_id` and its pool entry, as positions.
pub open spec fn request_source(p: SourceProject, clip_id: Seq<char>) -> Option<(int, int)> {
    match first_clip(flat_clips(p), clip_id, 0) {
        Some(i) => match media_of(p, flat_clips(p)[i].0) {
            Some(m) => Some((i, m)),
            None => None,
        },
        None => None,
    }
}

/// Everything the transcription job needs for `clip_id`, or `None` when the
/// clip or its media has gone (the project can change between the dialog
/// opening and the button being pressed), or the media is missing,
/// unreadable or silent. The recognizer is pinned to English: the bundled
/// model knows no other language.
pub fn auto_request(project: &SourceProject, fps: Rational, clip_id: &str, max_chars_per_line: i32, template: &str) -> (r:
    Option<AutoCaptionRequest>)
    ensures
        match request_source(*project, clip_id@) {
            Some((i, m)) => {
                let clip = flat_clips(*project)[i].0;
                let media = project.media@[m];
                if media.is_missing || media.path@.len() == 0 || !media.has_audio {
                    r is None
                } else {
                    r matches Some(q) && q.path@ == media.path@ && q.media@ == clip.media_id@ && q.name@
                        == media.name@ && q.start_tick == clip.start && q.duration_ticks == clip.duration
                        && q.rate == fps && crate::timeline::opt_view(q.language) == Some("en"@) && q.template@
                        == template@ && q.layout == (CaptionLayout {
                        max_chars_per_line: clamp_line_length(max_chars_per_line),
                        ..default_layout_spec()
                    })
                }
            },
            None => r is None,
        },
{
    let (t, j) = match find_selected(project, clip_id) {
        Some(found) => found,
        None => {
            return None;
        },
    };
    let clip = &project.tracks[t].clips[j];
    proof {
        let i = choose|i: int|
            #![trigger located(*project, i, t as int, j as int)]
            0 <= i < flat_clips(*project).len() && located(*project, i, t as int, j as int) && first_clip(
                flat_clips(*project),
                clip_id@,
                0,
            ) == Some(i);
        assert(located(*project, i, t as int, j as int));
    }
    let m = match find_media(project, clip) {
        Some(m) => m,
        None => {
            return None;
        },
    };
    let media = &project.media[m];
    if media.is_missing || media.path.as_str().is_empty() || !media.has_audio {
        return None;
    }
    let chars: u16 = if max_chars_per_line < MIN_LINE_LENGTH as i32 {
        MIN_LINE_LENGTH
    } else if max_chars_per_line > MAX_LINE_LENGTH as i32 {
        MAX_LINE_LENGTH
    } else {
        max_chars_per_line as u16
    };
    Some(AutoCaptionRequest {
        path: copy_string(&media.path),
        media: copy_string(&clip.media_id),
        name: copy_string(&media.name),
        start_tick: clip.start as i64,
        duration_ticks: clip.duration as i64,
        rate: fps,
        language: Some(string_of(chars_of("en").as_slice())),
        template: string_of(chars_of(template).as_slice()),
        layout: CaptionLayout { max_chars_per_line: chars, ..CaptionLayout::default_layout() },
    })
}

} // verus!
