//! Caption groups as the caption list shows them: in the order their first
//! lines play, each headed by where its captions came from.

use vstd::prelude::*;

use crate::caption::group::{CaptionFileFormat, CaptionSource};
use crate::ids::{CaptionGroupId, ClipId};
use crate::text::{push_str, string_of};
use crate::timeline::{
    clip_view, has_group, insert_key, is_cue_in, key_lt, keys_sorted, raw_ids, source_view, ClipView, SourceView,
    Timeline,
};

verus! {

/// Where captions came from, as the group header reads it.
pub open spec fn source_label_spec(s: SourceView) -> Seq<char> {
    match s {
        SourceView::Manual => "Manual"@,
        SourceView::Imported { format } => "Imported ("@ + (match format {
            CaptionFileFormat::Srt => "SRT"@,
            CaptionFileFormat::Vtt => "VTT"@,
        }) + ")"@,
        SourceView::Auto { language, .. } => match language {
            Some(l) => "Auto ("@ + l + ")"@,
            None => "Auto"@,
        },
    }
}

/// Where the captions of a group came from: `Manual`, `Imported (SRT)`,
/// `Auto (en)`, or `Auto` when the language was detected.
pub fn source_label(source: &CaptionSource) -> (r: String)
    ensures
        r@ == source_label_spec(source_view(*source)),
{
    let mut out: Vec<char> = Vec::new();
    match source {
        CaptionSource::Manual => push_str(&mut out, "Manual"),
        CaptionSource::Imported { format } => {
            push_str(&mut out, "Imported (");
            match format {
                CaptionFileFormat::Srt => push_str(&mut out, "SRT"),
                CaptionFileFormat::Vtt => push_str(&mut out, "VTT"),
            }
            push_str(&mut out, ")");
        },
        CaptionSource::Auto { language, .. } => match language {
            Some(l) => {
                push_str(&mut out, "Auto (");
                push_str(&mut out, l.as_str());
                push_str(&mut out, ")");
            },
            None => push_str(&mut out, "Auto"),
        },
    }
    string_of(out.as_slice())
}

/// `t` is where group `g` starts: the start tick of its earliest cue, or
/// `i64::MAX` for a group without cues, so that it sorts last.
pub open spec fn is_first_tick(m: Map<u64, ClipView>, g: CaptionGroupId, t: i64) -> bool {
    &&& forall|k: u64| m.dom().contains(k) && is_cue_in(#[trigger] m[k], g) ==> t <= m[k].timeline.start.value
    &&& (exists|k: u64| m.dom().contains(k) && is_cue_in(#[trigger] m[k], g) && m[k].timeline.start.value == t)
        || ((forall|k: u64| m.dom().contains(k) ==> !is_cue_in(#[trigger] m[k], g)) && t == i64::MAX)
}

/// The timeline tick at which group `group` starts (see [`is_first_tick`]).
pub fn first_cue_tick(timeline: &Timeline, group: CaptionGroupId) -> (t: i64)
    requires
        timeline.wf(),
    ensures
        is_first_tick(timeline.clips_view(), group, t),
{
    let ghost m = timeline.clips_view();
    let mut best: i64 = i64::MAX;
    let mut found = false;
    let mut i: usize = 0;
    while i < timeline.clips.len()
        invariant
            timeline.wf(),
            m == timeline.clips_view(),
            i <= timeline.clips@.len(),
            forall|j: int|
                0 <= j < i && is_cue_in(m[#[trigger] timeline.clips@[j].id.0], group) ==> best
                    <= timeline.clips@[j].timeline.start.value,
            found ==> exists|j: int|
                0 <= j < i && is_cue_in(m[#[trigger] timeline.clips@[j].id.0], group)
                    && timeline.clips@[j].timeline.start.value == best,
            !found ==> best == i64::MAX && forall|j: int|
                0 <= j < i ==> !is_cue_in(m[#[trigger] timeline.clips@[j].id.0], group),
        decreases timeline.clips@.len() - i,
    {
        proof {
            timeline.lemma_clip_at(i as int);
        }
        let c = &timeline.clips[i];
        let is_cue = match &c.caption {
            Some(cue) => cue.group == group,
            None => false,
        };
        if is_cue && (!found || c.timeline.start.value < best) {
            best = c.timeline.start.value;
            found = true;
        } else if is_cue {
            proof {
                let j0 = choose|j: int|
                    0 <= j < i && is_cue_in(m[#[trigger] timeline.clips@[j].id.0], group)
                        && timeline.clips@[j].timeline.start.value == best;
            }
        }
        i += 1;
    }
    proof {
        assert forall|k: u64| m.dom().contains(k) && is_cue_in(#[trigger] m[k], group) implies best
            <= m[k].timeline.start.value by {
            let j = choose|j: int| 0 <= j < timeline.clips@.len() && #[trigger] timeline.clips@[j].id.0 == k;
            timeline.lemma_clip_at(j);
        }
        if found {
            let j = choose|j: int|
                0 <= j < timeline.clips@.len() && is_cue_in(m[#[trigger] timeline.clips@[j].id.0], group)
                    && timeline.clips@[j].timeline.start.value == best;
            timeline.lemma_clip_at(j);
            let k = timeline.clips@[j].id.0;
            assert(m.dom().contains(k) && is_cue_in(m[k], group) && m[k].timeline.start.value == best);
        } else {
            assert forall|k: u64| m.dom().contains(k) implies !is_cue_in(#[trigger] m[k], group) by {
                let j = choose|j: int| 0 <= j < timeline.clips@.len() && #[trigger] timeline.clips@[j].id.0 == k;
                timeline.lemma_clip_at(j);
            }
        }
    }
    best
}

/// Some key of `keys` carries group id `k`.
pub open spec fn has_id(keys: Seq<(i64, u64)>, k: u64) -> bool {
    exists|a: int| 0 <= a < keys.len() && #[trigger] keys[a].1 == k
}

/// `order` lists each caption group of the timeline once, by the tick its
/// first cue plays at, groups that start together in id order.
pub open spec fn in_play_order(t: Timeline, order: Seq<CaptionGroupId>) -> bool {
    exists|keys: Seq<(i64, u64)>|
        {
            &&& keys.len() == order.len() == t.groups@.len()
            &&& keys_sorted(keys)
            &&& forall|a: int|
                0 <= a < keys.len() ==> (#[trigger] keys[a]).1 == order[a].0 && t.groups_view().dom().contains(
                    keys[a].1,
                ) && is_first_tick(t.clips_view(), order[a], keys[a].0)
            &&& forall|k: u64| t.groups_view().dom().contains(k) ==> #[trigger] has_id(keys, k)
        }
}

/// Every caption group, ordered by its first cue so the caption list reads
/// in timeline order rather than id order; groups that start together keep
/// id order, and a group without cues goes last.
pub fn caption_group_order(timeline: &Timeline) -> (r: Vec<CaptionGroupId>)
    requires
        timeline.wf(),
    ensures
        in_play_order(*timeline, r@),
{
    let ghost gs = timeline.groups@;
    let mut keys: Vec<(i64, u64)> = Vec::new();
    let ghost mut src: Seq<int> = Seq::empty();
    let mut i: usize = 0;
    while i < timeline.groups.len()
        invariant
            timeline.wf(),
            gs == timeline.groups@,
            i <= gs.len(),
            keys_sorted(keys@),
            keys@.len() == i,
            src.len() == i,
            forall|a: int| 0 <= a < src.len() ==> 0 <= #[trigger] src[a] < i,
            forall|a: int|
                #![trigger keys@[a]]
                0 <= a < keys@.len() ==> keys@[a].1 == gs[src[a]].id.0 && is_first_tick(
                    timeline.clips_view(),
                    gs[src[a]].id,
                    keys@[a].0,
                ),
            forall|j: int| 0 <= j < i ==> #[trigger] has_id(keys@, gs[j].id.0),
        decreases gs.len() - i,
    {
        let id = timeline.groups[i].id;
        let tick = first_cue_tick(timeline, id);
        let key = (tick, id.0);
        proof {
            assert forall|a: int| 0 <= a < keys@.len() implies #[trigger] keys@[a].1 != key.1 by {
                assert(0 <= src[a] < i);
                assert(gs[src[a]].id != gs[i as int].id);
            }
        }
        let ghost before = keys@;
        let ghost old_src = src;
        let p = insert_key(&mut keys, key);
        proof {
            src = old_src.insert(p as int, i as int);
            assert forall|a: int| 0 <= a < src.len() implies 0 <= #[trigger] src[a] < i + 1 by {
                if a < p {
                    assert(src[a] == old_src[a]);
                } else if a > p {
                    assert(src[a] == old_src[a - 1]);
                }
            }
            assert forall|a: int|
                #![trigger keys@[a]]
                0 <= a < keys@.len() implies keys@[a].1 == gs[src[a]].id.0 && is_first_tick(
                    timeline.clips_view(),
                    gs[src[a]].id,
                    keys@[a].0,
                ) by {
                if a < p {
                    assert(keys@[a] == before[a] && src[a] == old_src[a]);
                } else if a > p {
                    assert(keys@[a] == before[a - 1] && src[a] == old_src[a - 1]);
                }
            }
            assert forall|j: int| 0 <= j < i + 1 implies #[trigger] has_id(keys@, gs[j].id.0) by {
                if j == i {
                    assert(keys@[p as int].1 == gs[j].id.0);
                } else {
                    assert(has_id(before, gs[j].id.0));
                    let b = choose|b: int| 0 <= b < before.len() && #[trigger] before[b].1 == gs[j].id.0;
                    if b < p {
                        assert(keys@[b].1 == gs[j].id.0);
                    } else {
                        assert(keys@[b + 1].1 == gs[j].id.0);
                    }
                }
            }
        }
        i += 1;
    }
    let mut out: Vec<CaptionGroupId> = Vec::new();
    let mut a: usize = 0;
    while a < keys.len()
        invariant
            a <= keys@.len(),
            out@.len() == a,
            forall|b: int| 0 <= b < a ==> (#[trigger] out@[b]).0 == keys@[b].1,
        decreases keys@.len() - a,
    {
        out.push(CaptionGroupId(keys[a].1));
        a += 1;
    }
    proof {
        let m = timeline.groups_view();
        assert forall|b: int| 0 <= b < keys@.len() implies (#[trigger] keys@[b]).1 == out@[b].0
            && m.dom().contains(keys@[b].1) && is_first_tick(timeline.clips_view(), out@[b], keys@[b].0) by {
            assert(timeline.groups@[src[b]].id.0 == keys@[b].1);
            assert(has_group(timeline.groups@, keys@[b].1));
            assert(out@[b] == CaptionGroupId(keys@[b].1));
        }
        assert forall|k: u64| m.dom().contains(k) implies #[trigger] has_id(keys@, k) by {
            let j = choose|j: int| 0 <= j < gs.len() && #[trigger] gs[j].id.0 == k;
            assert(has_id(keys@, gs[j].id.0));
        }
    }
    out
}

/// Raw ids in strictly ascending order.
pub open spec fn ascending(s: Seq<u64>) -> bool {
    forall|i: int, j: int| 0 <= i < j < s.len() ==> s[i] < s[j]
}

/// The raw values of a list of group ids.
pub open spec fn group_raws(s: Seq<CaptionGroupId>) -> Seq<u64> {
    Seq::new(s.len(), |i: int| s[i].0)
}

/// Every caption group of the timeline, in id order.
pub fn caption_group_ids(timeline: &Timeline) -> (r: Vec<CaptionGroupId>)
    requires
        timeline.wf(),
    ensures
        ascending(group_raws(r@)),
        forall|k: u64| timeline.groups_view().dom().contains(k) <==> group_raws(r@).contains(k),
{
    let ghost gs = timeline.groups@;
    let mut keys: Vec<(i64, u64)> = Vec::new();
    let ghost mut src: Seq<int> = Seq::empty();
    let mut i: usize = 0;
    while i < timeline.groups.len()
        invariant
            timeline.wf(),
            gs == timeline.groups@,
            i <= gs.len(),
            keys_sorted(keys@),
            src.len() == keys@.len(),
            forall|a: int| 0 <= a < src.len() ==> 0 <= #[trigger] src[a] < i,
            forall|a: int|
                #![trigger keys@[a]]
                0 <= a < keys@.len() ==> keys@[a] == (0i64, gs[src[a]].id.0),
            forall|j: int| 0 <= j < i ==> #[trigger] has_id(keys@, gs[j].id.0),
        decreases gs.len() - i,
    {
        let key = (0i64, timeline.groups[i].id.0);
        proof {
            assert forall|a: int| 0 <= a < keys@.len() implies #[trigger] keys@[a].1 != key.1 by {
                assert(0 <= src[a] < i);
                assert(gs[src[a]].id != gs[i as int].id);
            }
        }
        let ghost before = keys@;
        let ghost old_src = src;
        let p = insert_key(&mut keys, key);
        proof {
            src = old_src.insert(p as int, i as int);
            assert forall|a: int| 0 <= a < src.len() implies 0 <= #[trigger] src[a] < i + 1 by {
                if a < p {
                    assert(src[a] == old_src[a]);
                } else if a > p {
                    assert(src[a] == old_src[a - 1]);
                }
            }
            assert forall|a: int|
                #![trigger keys@[a]]
                0 <= a < keys@.len() implies keys@[a] == (0i64, gs[src[a]].id.0) by {
                if a < p {
                    assert(keys@[a] == before[a] && src[a] == old_src[a]);
                } else if a > p {
                    assert(keys@[a] == before[a - 1] && src[a] == old_src[a - 1]);
                }
            }
            assert forall|j: int| 0 <= j < i + 1 implies #[trigger] has_id(keys@, gs[j].id.0) by {
                if j == i {
                    assert(keys@[p as int].1 == gs[j].id.0);
                } else {
                    assert(has_id(before, gs[j].id.0));
                    let b = choose|b: int| 0 <= b < before.len() && #[trigger] before[b].1 == gs[j].id.0;
                    if b < p {
                        assert(keys@[b].1 == gs[j].id.0);
                    } else {
                        assert(keys@[b + 1].1 == gs[j].id.0);
                    }
                }
            }
        }
        i += 1;
    }
    let mut out: Vec<CaptionGroupId> = Vec::new();
    let mut a: usize = 0;
    while a < keys.len()
        invariant
            a <= keys@.len(),
            out@.len() == a,
            forall|b: int| 0 <= b < a ==> (#[trigger] out@[b]).0 == keys@[b].1,
        decreases keys@.len() - a,
    {
        out.push(CaptionGroupId(keys[a].1));
        a += 1;
    }
    proof {
        let m = timeline.groups_view();
        let raws = group_raws(out@);
        assert forall|b: int, c: int| 0 <= b < c < raws.len() implies raws[b] < raws[c] by {
            assert(key_lt(keys@[b], keys@[c]));
            assert(keys@[b].0 == 0 && keys@[c].0 == 0);
        }
        assert forall|k: u64| m.dom().contains(k) <==> raws.contains(k) by {
            if m.dom().contains(k) {
                let j = choose|j: int| 0 <= j < gs.len() && #[trigger] gs[j].id.0 == k;
                assert(has_id(keys@, gs[j].id.0));
                let b = choose|b: int| 0 <= b < keys@.len() && #[trigger] keys@[b].1 == k;
                assert(raws[b] == k);
            }
            if raws.contains(k) {
                let b = choose|b: int| 0 <= b < raws.len() && raws[b] == k;
                assert(keys@[b].1 == k);
                assert(has_group(gs, k));
            }
        }
    }
    out
}


// --- the cue list -------------------------------------------------------------

/// The cue number of a clip.
pub open spec fn cue_number(v: ClipView) -> u32 {
    v.caption->0.index
}

/// Where a cue sits in the cue list: by start tick, then by cue number, then
/// by id.
pub open spec fn row_key(m: Map<u64, ClipView>, k: u64) -> (i64, u32, u64) {
    (m[k].timeline.start.value, cue_number(m[k]), k)
}

/// Row key `x` sorts before `y`.
pub open spec fn row_lt(x: (i64, u32, u64), y: (i64, u32, u64)) -> bool {
    x.0 < y.0 || (x.0 == y.0 && (x.1 < y.1 || (x.1 == y.1 && x.2 < y.2)))
}

/// Row keys in strictly ascending order.
pub open spec fn rows_sorted(s: Seq<(i64, u32, u64)>) -> bool {
    forall|i: int, j: int| 0 <= i < j < s.len() ==> row_lt(s[i], s[j])
}

/// `order` lists exactly the cues of `g`, each once, as the cue list shows
/// them: by start tick, then cue number.
pub open spec fn in_cue_list_order(m: Map<u64, ClipView>, g: CaptionGroupId, order: Seq<u64>) -> bool {
    &&& forall|i: int, j: int| 0 <= i < j < order.len() ==> row_lt(row_key(m, order[i]), row_key(m, order[j]))
    &&& forall|i: int|
        0 <= i < order.len() ==> m.dom().contains(#[trigger] order[i]) && is_cue_in(m[order[i]], g)
    &&& forall|k: u64| m.dom().contains(k) && #[trigger] is_cue_in(m[k], g) ==> order.contains(k)
}

fn row_lt_exec(x: (i64, u32, u64), y: (i64, u32, u64)) -> (r: bool)
    ensures
        r == row_lt(x, y),
{
    x.0 < y.0 || (x.0 == y.0 && (x.1 < y.1 || (x.1 == y.1 && x.2 < y.2)))
}

/// Insert `x` into ascending row keys, keeping them ascending.
fn insert_row(v: &mut Vec<(i64, u32, u64)>, x: (i64, u32, u64)) -> (p: usize)
    requires
        rows_sorted(old(v)@),
        forall|a: int| 0 <= a < old(v)@.len() ==> #[trigger] old(v)@[a].2 != x.2,
    ensures
        rows_sorted(final(v)@),
        p <= old(v)@.len(),
        final(v)@ == old(v)@.insert(p as int, x),
{
    let mut p: usize = 0;
    while p < v.len() && row_lt_exec(v[p], x)
        invariant
            p <= v@.len(),
            v@ == old(v)@,
            forall|a: int| 0 <= a < p ==> row_lt(#[trigger] v@[a], x),
        decreases v@.len() - p,
    {
        p += 1;
    }
    let ghost o = v@;
    v.insert(p, x);
    proof {
        assert forall|i: int, j: int| 0 <= i < j < v@.len() implies row_lt(v@[i], v@[j]) by {
            if p < o.len() {
                assert(!row_lt(o[p as int], x));
                assert(o[p as int].2 != x.2);
            }
            if i < p && j == p {
            } else if i == p && j > p {
                assert(v@[j] == o[j - 1]);
                if j - 1 > p {
                    assert(row_lt(o[p as int], o[j - 1]));
                }
            } else if i < p && j > p {
                assert(v@[j] == o[j - 1]);
            } else if i > p {
                assert(v@[i] == o[i - 1] && v@[j] == o[j - 1]);
            }
        }
    }
    p
}

/// The cues of `group` as the cue list shows them: by start tick, then by
/// cue number (then by id, for cues that tie on both).
pub fn cue_list(timeline: &Timeline, group: CaptionGroupId) -> (r: Vec<ClipId>)
    requires
        timeline.wf(),
    ensures
        in_cue_list_order(timeline.clips_view(), group, raw_ids(r@)),
{
    let ghost m = timeline.clips_view();
    let mut keys: Vec<(i64, u32, u64)> = Vec::new();
    let ghost mut src: Seq<int> = Seq::empty();
    let mut i: usize = 0;
    while i < timeline.clips.len()
        invariant
            timeline.wf(),
            m == timeline.clips_view(),
            i <= timeline.clips@.len(),
            rows_sorted(keys@),
            src.len() == keys@.len(),
            forall|a: int|
                0 <= a < keys@.len() ==> 0 <= #[trigger] src[a] < i && is_cue_in(
                    clip_view(timeline.clips@[src[a]]),
                    group,
                ) && keys@[a] == row_key(m, timeline.clips@[src[a]].id.0),
            forall|j: int| 0 <= j < i && is_cue_in(clip_view(timeline.clips@[j]), group) ==> src.contains(j),
        decreases timeline.clips@.len() - i,
    {
        let c = &timeline.clips[i];
        let number: Option<u32> = match &c.caption {
            Some(cue) => if cue.group == group {
                Some(cue.index)
            } else {
                None
            },
            None => None,
        };
        assert(number is Some == is_cue_in(clip_view(timeline.clips@[i as int]), group));
        if let Some(n) = number {
            let key = (c.timeline.start.value, n, c.id.0);
            proof {
                timeline.lemma_clip_at(i as int);
                assert(key == row_key(m, timeline.clips@[i as int].id.0));
                assert forall|a: int| 0 <= a < keys@.len() implies #[trigger] keys@[a].2 != key.2 by {
                    assert(timeline.clips@[src[a]].id != timeline.clips@[i as int].id);
                }
            }
            let ghost old_src = src;
            let p = insert_row(&mut keys, key);
            proof {
                src = old_src.insert(p as int, i as int);
                assert forall|a: int| 0 <= a < keys@.len() implies 0 <= #[trigger] src[a] < i + 1 && is_cue_in(
                    clip_view(timeline.clips@[src[a]]),
                    group,
                ) && keys@[a] == row_key(m, timeline.clips@[src[a]].id.0) by {
                    if a < p {
                        assert(src[a] == old_src[a]);
                    } else if a > p {
                        assert(src[a] == old_src[a - 1]);
                    }
                }
                assert forall|j: int|
                    0 <= j < i + 1 && is_cue_in(clip_view(timeline.clips@[j]), group) implies src.contains(j) by {
                    if j == i {
                        assert(src[p as int] == j);
                    } else {
                        assert(old_src.contains(j));
                        let b = choose|b: int| 0 <= b < old_src.len() && old_src[b] == j;
                        if b < p {
                            assert(src[b] == j);
                        } else {
                            assert(src[b + 1] == j);
                        }
                    }
                }
            }
        }
        i += 1;
    }
    let mut out: Vec<ClipId> = Vec::new();
    let mut a: usize = 0;
    while a < keys.len()
        invariant
            a <= keys@.len(),
            out@.len() == a,
            forall|b: int| 0 <= b < a ==> #[trigger] out@[b].0 == keys@[b].2,
        decreases keys@.len() - a,
    {
        out.push(ClipId(keys[a].2));
        a += 1;
    }
    proof {
        let ids = raw_ids(out@);
        assert forall|b: int| 0 <= b < ids.len() implies m.dom().contains(#[trigger] ids[b]) && is_cue_in(
            m[ids[b]],
            group,
        ) && row_key(m, ids[b]) == keys@[b] by {
            timeline.lemma_clip_at(src[b]);
        }
        assert forall|b: int, c: int| 0 <= b < c < ids.len() implies row_lt(row_key(m, ids[b]), row_key(m, ids[c])) by {
            assert(row_lt(keys@[b], keys@[c]));
            assert(row_key(m, ids[b]) == keys@[b]);
            assert(row_key(m, ids[c]) == keys@[c]);
        }
        assert forall|k: u64| m.dom().contains(k) && #[trigger] is_cue_in(m[k], group) implies ids.contains(k) by {
            let j = choose|j: int| 0 <= j < timeline.clips@.len() && #[trigger] timeline.clips@[j].id.0 == k;
            timeline.lemma_clip_at(j);
            assert(src.contains(j));
            let b = choose|b: int| 0 <= b < src.len() && src[b] == j;
            assert(ids[b] == k);
        }
    }
    out
}

} // verus!
