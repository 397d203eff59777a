//! The choices the editor makes before it applies a caption edit: which text
//! lane a batch of cues lands on, which cue follows another in its group,
//! how long a hand-added line is held, and which cues a new line length
//! re-wraps.

use vstd::prelude::*;

use crate::caption::group::chars_eq;
use crate::caption::layout::{default_layout_spec, CaptionLayout};
use crate::caption::spec::CaptionCueSpec;
use crate::caption::template::{caption_template_spec, template_index};
use crate::ids::{CaptionGroupId, ClipId, TrackId};
use crate::inspector::div_trunc;
use crate::project::{lane_clear, lane_overlaps};
use crate::reflow::{wrap_spec, wrap};
use crate::text::chars_of;
use crate::time::Rational;
use crate::timeline::{cue_before, cue_order, is_cue_in, ClipView, Timeline, TrackKind};

verus! {

/// Default hold for a hand-added caption line, in seconds: long enough to
/// type into, short enough to sit between two others.
pub const MANUAL_CUE_SECONDS: i64 = 3;

// --- a lane for a batch -----------------------------------------------------

/// Every cue of a batch clears every clip already on `track`.
pub open spec fn cues_clear(m: Map<u64, ClipView>, track: TrackId, cues: Seq<CaptionCueSpec>) -> bool {
    forall|k: int| 0 <= k < cues.len() ==> lane_clear(m, track, #[trigger] cues[k].timeline)
}

/// Lane `i` of the timeline is a text lane with room for the whole batch.
pub open spec fn lane_fits(t: Timeline, i: int, cues: Seq<CaptionCueSpec>) -> bool {
    t.tracks@[i].kind == TrackKind::Text && cues_clear(t.clips_view(), t.tracks@[i].id, cues)
}

/// Lane `i` is the first text lane, in lane order, with room for the batch.
pub open spec fn is_first_free(t: Timeline, cues: Seq<CaptionCueSpec>, i: int) -> bool {
    0 <= i < t.tracks@.len() && lane_fits(t, i, cues) && forall|j: int| 0 <= j < i ==> !lane_fits(t, j, cues)
}

/// The lane [`free_text_lane`] picks: the first text lane with room for the
/// whole batch, or `None` when there is none.
pub open spec fn first_free_lane(t: Timeline, cues: Seq<CaptionCueSpec>) -> Option<TrackId> {
    if exists|i: int| #[trigger] is_first_free(t, cues, i) {
        Some(t.tracks@[choose|i: int| #[trigger] is_first_free(t, cues, i)].id)
    } else {
        None
    }
}

/// Whether some cue of the batch collides with a clip on `track`.
fn batch_collides(timeline: &Timeline, track: TrackId, cues: &[CaptionCueSpec]) -> (r: bool)
    requires
        timeline.wf(),
    ensures
        r == !cues_clear(timeline.clips_view(), track, cues@),
{
    let mut k: usize = 0;
    while k < cues.len()
        invariant
            timeline.wf(),
            k <= cues@.len(),
            forall|j: int| 0 <= j < k ==> lane_clear(timeline.clips_view(), track, #[trigger] cues@[j].timeline),
        decreases cues@.len() - k,
    {
        if lane_overlaps(timeline, track, cues[k].timeline) {
            return true;
        }
        k += 1;
    }
    false
}

/// The first text lane, in lane order, with room for every cue of the batch.
///
/// A batch lands at times its transcript or subtitle file fixed, so unlike a
/// single hand-placed cue it cannot slide past a blocker; a busy lane is
/// passed over, and `None` means every text lane is busy (or there is none)
/// and a new one is needed.
pub fn free_text_lane(timeline: &Timeline, cues: &[CaptionCueSpec]) -> (r: Option<TrackId>)
    requires
        timeline.wf(),
    ensures
        match r {
            Some(id) => exists|i: int|
                0 <= i < timeline.tracks@.len() && #[trigger] timeline.tracks@[i].id == id && lane_fits(
                    *timeline,
                    i,
                    cues@,
                ) && forall|j: int| 0 <= j < i ==> !lane_fits(*timeline, j, cues@),
            None => forall|i: int| 0 <= i < timeline.tracks@.len() ==> !lane_fits(*timeline, i, cues@),
        },
        r == first_free_lane(*timeline, cues@),
{
    let mut i: usize = 0;
    while i < timeline.tracks.len()
        invariant
            timeline.wf(),
            i <= timeline.tracks@.len(),
            forall|j: int| 0 <= j < i ==> !lane_fits(*timeline, j, cues@),
        decreases timeline.tracks@.len() - i,
    {
        let track = &timeline.tracks[i];
        if track.kind == TrackKind::Text && !batch_collides(timeline, track.id, cues) {
            assert(lane_fits(*timeline, i as int, cues@));
            proof {
                assert(is_first_free(*timeline, cues@, i as int));
                let c = choose|c: int| #[trigger] is_first_free(*timeline, cues@, c);
                if c < i {
                    assert(!lane_fits(*timeline, c, cues@));
                } else if c > i {
                    assert(!lane_fits(*timeline, i as int, cues@));
                }
            }
            return Some(track.id);
        }
        i += 1;
    }
    proof {
        assert forall|c: int| !#[trigger] is_first_free(*timeline, cues@, c) by {
            if 0 <= c < timeline.tracks@.len() {
                assert(!lane_fits(*timeline, c, cues@));
            }
        }
    }
    None
}

// --- the cue after a cue ----------------------------------------------------

/// The caption metadata index of a cue clip.
pub open spec fn cue_index(v: ClipView) -> u32 {
    v.caption->0.index
}

/// Clip `k` is a cue of `group` numbered after `index`.
pub open spec fn comes_after(m: Map<u64, ClipView>, group: CaptionGroupId, index: u32, k: u64) -> bool {
    m.dom().contains(k) && is_cue_in(m[k], group) && cue_index(m[k]) > index
}

/// Cue `a` ranks before cue `b`: a smaller index, or the same index and
/// earlier in timeline order.
pub open spec fn ranks_before(m: Map<u64, ClipView>, a: u64, b: u64) -> bool {
    cue_index(m[a]) < cue_index(m[b]) || (cue_index(m[a]) == cue_index(m[b]) && cue_before(m, a, b))
}

/// The cue that follows `clip` in its group: the lowest-numbered cue of the
/// same group with a higher number (the earliest in timeline order on a
/// tie). `None` when `clip` is not a cue, or is the last of its group.
pub fn next_cue(timeline: &Timeline, clip: ClipId) -> (r: Option<ClipId>)
    requires
        timeline.wf(),
    ensures
        ({
            let m = timeline.clips_view();
            if !m.dom().contains(clip.0) || m[clip.0].caption is None {
                r is None
            } else {
                let group = m[clip.0].caption->0.group;
                let index = m[clip.0].caption->0.index;
                match r {
                    Some(n) => comes_after(m, group, index, n.0) && forall|k: u64|
                        #[trigger] comes_after(m, group, index, k) && k != n.0 ==> ranks_before(m, n.0, k),
                    None => forall|k: u64| !#[trigger] comes_after(m, group, index, k),
                }
            }
        }),
{
    let ghost m = timeline.clips_view();
    let (group, index) = match timeline.clip(clip) {
        Some(c) => match &c.caption {
            Some(cue) => (cue.group, cue.index),
            None => {
                return None;
            },
        },
        None => {
            return None;
        },
    };
    let mut best: Option<usize> = None;
    let mut i: usize = 0;
    while i < timeline.clips.len()
        invariant
            timeline.wf(),
            m == timeline.clips_view(),
            i <= timeline.clips@.len(),
            match best {
                Some(b) => {
                    &&& b < i
                    &&& comes_after(m, group, index, timeline.clips@[b as int].id.0)
                    &&& forall|j: int|
                        0 <= j < i && comes_after(m, group, index, #[trigger] timeline.clips@[j].id.0) && j
                            != b ==> ranks_before(m, timeline.clips@[b as int].id.0, timeline.clips@[j].id.0)
                },
                None => forall|j: int| 0 <= j < i ==> !comes_after(m, group, index, #[trigger] timeline.clips@[j].id.0),
            },
        decreases timeline.clips@.len() - i,
    {
        proof {
            timeline.lemma_clip_at(i as int);
        }
        let c = &timeline.clips[i];
        let candidate = match &c.caption {
            Some(cue) => cue.group == group && cue.index > index,
            None => false,
        };
        if candidate {
            match best {
                None => {
                    best = Some(i);
                },
                Some(b) => {
                    proof {
                        timeline.lemma_clip_at(b as int);
                    }
                    let cur = &timeline.clips[b];
                    let cur_index = match &cur.caption {
                        Some(cue) => cue.index,
                        None => 0,
                    };
                    let new_index = match &c.caption {
                        Some(cue) => cue.index,
                        None => 0,
                    };
                    let better = new_index < cur_index || (new_index == cur_index && (c.timeline.start.value
                        < cur.timeline.start.value || (c.timeline.start.value == cur.timeline.start.value
                        && c.id.0 < cur.id.0)));
                    if better {
                        proof {
                            assert forall|j: int|
                                0 <= j < i + 1 && comes_after(m, group, index, #[trigger] timeline.clips@[j].id.0)
                                    && j != i implies ranks_before(m, timeline.clips@[i as int].id.0, timeline.clips@[j].id.0) by {
                                timeline.lemma_clip_at(j);
                                if j != b {
                                    assert(ranks_before(m, timeline.clips@[b as int].id.0, timeline.clips@[j].id.0));
                                }
                                assert(timeline.clips@[j].id.0 != timeline.clips@[i as int].id.0);
                            }
                        }
                        best = Some(i);
                    } else {
                        proof {
                            assert(timeline.clips@[b as int].id.0 != timeline.clips@[i as int].id.0);
                        }
                    }
                },
            }
        }
        i += 1;
    }
    match best {
        Some(b) => {
            proof {
                assert forall|k: u64| #[trigger] comes_after(m, group, index, k) && k != timeline.clips@[b as int].id.0 implies ranks_before(
                    m,
                    timeline.clips@[b as int].id.0,
                    k,
                ) by {
                    let j = choose|j: int| 0 <= j < timeline.clips@.len() && #[trigger] timeline.clips@[j].id.0 == k;
                    assert(comes_after(m, group, index, timeline.clips@[j].id.0));
                }
            }
            Some(timeline.clips[b].id)
        },
        None => {
            proof {
                assert forall|k: u64| !#[trigger] comes_after(m, group, index, k) by {
                    if comes_after(m, group, index, k) {
                        let j = choose|j: int| 0 <= j < timeline.clips@.len() && #[trigger] timeline.clips@[j].id.0 == k;
                        assert(!comes_after(m, group, index, timeline.clips@[j].id.0));
                    }
                }
            }
            None
        },
    }
}

// --- a hand-added line ------------------------------------------------------

/// Ticks a hand-added line is held at `rate`: [`MANUAL_CUE_SECONDS`] worth,
/// rounded toward zero, and never less than one tick.
pub open spec fn manual_duration_spec(rate: Rational) -> int {
    let d = if rate.den < 1 {
        1
    } else {
        rate.den as int
    };
    let q = div_trunc(rate.num * MANUAL_CUE_SECONDS, d);
    if q < 1 {
        1
    } else {
        q
    }
}

/// The hold of a hand-added line at `rate`, in ticks.
pub fn manual_cue_duration(rate: Rational) -> (d: i64)
    ensures
        d == manual_duration_spec(rate),
{
    let den: i64 = if rate.den < 1 {
        1
    } else {
        rate.den as i64
    };
    if rate.num <= 0 {
        return 1;
    }
    let q = (rate.num as i64) * MANUAL_CUE_SECONDS / den;
    if q < 1 {
        1
    } else {
        q
    }
}

/// The segmentation rules of the template named `template`, or the
/// defaults when no template has that id.
pub fn template_layout(template: &str) -> (l: CaptionLayout)
    ensures
        l == match template_index(template@) {
            Some(i) => crate::caption::template::template_layout(i),
            None => default_layout_spec(),
        },
{
    match caption_template_spec(template) {
        Some(spec) => spec.layout(),
        None => CaptionLayout::default_layout(),
    }
}

// --- re-wrapping a group ----------------------------------------------------

/// The cues of `order` whose text changes when wrapped at `max`, each with
/// its new text, in `order`.
pub open spec fn rewraps(m: Map<u64, ClipView>, order: Seq<u64>, max: u16) -> Seq<(u64, Seq<char>)>
    decreases order.len(),
{
    if order.len() == 0 {
        Seq::empty()
    } else {
        let before = rewraps(m, order.drop_last(), max);
        let k = order.last();
        match m[k].text {
            Some(t) => if wrap_spec(t, max) != t {
                before.push((k, wrap_spec(t, max)))
            } else {
                before
            },
            None => before,
        }
    }
}

/// A list of re-wrapped cues as plain values.
pub open spec fn edits_view(v: Seq<(ClipId, String)>) -> Seq<(u64, Seq<char>)> {
    Seq::new(v.len(), |i: int| (v[i].0.0, v[i].1@))
}

/// `edits` re-wraps the cues of `group`, taken in timeline order.
pub open spec fn rewrap_plan(m: Map<u64, ClipView>, group: CaptionGroupId, max: u16, edits: Seq<(u64, Seq<char>)>) -> bool {
    exists|order: Seq<u64>| cue_order(m, group, order) && edits == rewraps(m, order, max)
}

/// The new text of every cue of `group` whose line breaks change when
/// re-wrapped at `max_chars_per_line`, in timeline order. Cue boundaries and
/// timings are not touched: only the breaks inside each line move.
pub fn rewrapped_cues(timeline: &Timeline, group: CaptionGroupId, max_chars_per_line: u16) -> (r: Vec<(ClipId, String)>)
    requires
        timeline.wf(),
    ensures
        rewrap_plan(timeline.clips_view(), group, max_chars_per_line, edits_view(r@)),
{
    let cues = timeline.caption_cues(group);
    let ghost m = timeline.clips_view();
    let ghost order = crate::timeline::clip_ids(cues@);
    let mut out: Vec<(ClipId, String)> = Vec::new();
    let mut a: usize = 0;
    while a < cues.len()
        invariant
            a <= cues@.len(),
            order == crate::timeline::clip_ids(cues@),
            forall|b: int| 0 <= b < cues@.len() ==> crate::timeline::clip_view(#[trigger] cues@[b]) == m[cues@[b].id.0],
            edits_view(out@) == rewraps(m, order.take(a as int), max_chars_per_line),
        decreases cues@.len() - a,
    {
        let c = &cues[a];
        proof {
            assert(order.take(a + 1).drop_last() =~= order.take(a as int));
            assert(order.take(a + 1).last() == c.id.0);
            assert(crate::timeline::clip_view(*c) == m[c.id.0]);
        }
        match c.text_content() {
            Some(text) => {
                let wrapped = wrap(text, max_chars_per_line);
                let before = chars_of(text);
                let after = chars_of(wrapped.as_str());
                if !chars_eq(&after, &before) {
                    let ghost w = wrapped@;
                    out.push((c.id, wrapped));
                    proof {
                        assert(edits_view(out@) =~= rewraps(m, order.take(a as int), max_chars_per_line).push((c.id.0, w)));
                    }
                }
            },
            None => {},
        }
        a += 1;
    }
    proof {
        assert(order.take(cues@.len() as int) =~= order);
    }
    out
}

} // verus!
