//! Undo for caption edits.
//!
//! Every caption edit but creating and ungrouping shares one inverse: a
//! snapshot of the group and its cue clips ([`RestoreCaptionGroupAction`]).
//! A restyle, a split and a merge can each add, remove or reshape any subset
//! of a group's cues, so a snapshot is both the simplest exact inverse and
//! the only one that stays correct as caption editing grows. Cue ids are
//! kept, so selections and deeper history entries keep resolving across undo
//! and redo. Applying an action hands back the action that reverses it, so
//! undo and redo oscillate.

use vstd::prelude::*;

use crate::caption::cue::CaptionCue;
use crate::timeline::cue_view;
use crate::caption::highlight::CaptionHighlightMode;
use crate::caption::layout::CaptionLayout;
use crate::error::ModelError;
use crate::ids::{CaptionGroupId, ClipId, TrackId};
use crate::project::{
    clip_addable, clips_addable, cue_edit_error, cue_edit_fault, edited_clip, group_valid, member_fault, merge_error,
    merge_fault, merge_group, placed_cues, resolved_view, ungroup_fault, ungrouped, merge_outcome, merged_into, merged_map, new_words, opt_words, sat_diff, split_error,
    split_fault, split_halves, split_into, split_outcome, override_cleared, overrides_cleared, relabeled, with_clips, without_cues,
    group_addable, CaptionGroupSpec, Project,
};
use crate::caption::layout::layout_valid;
use crate::caption::template::{template_index, template_layout, template_rules};
use crate::caption::spec::CaptionCueSpec;
use crate::caption::cue::CaptionWord;
use crate::time::RationalTime;
use crate::timing::spec_ms;
use crate::timeline::{
    clip_ids, clip_ids_unique, clip_view, group_in_use, opt_view, raw_ids, cue_before, cue_order, group_view, is_cue_in, reindexed, with_index,
    CaptionGroup, Clip, ClipView, GroupView, Timeline, TrackKind,
};

verus! {

/// `cues` are exactly the cues of group `g` in `m`, each once, as they are
/// there.
pub open spec fn captures(m: Map<u64, ClipView>, g: CaptionGroupId, cues: Seq<Clip>) -> bool {
    &&& clip_ids_unique(cues)
    &&& forall|i: int|
        0 <= i < cues.len() ==> m.dom().contains((#[trigger] cues[i]).id.0) && clip_view(cues[i])
            == m[cues[i].id.0] && is_cue_in(m[cues[i].id.0], g)
    &&& forall|k: u64|
        m.dom().contains(k) && #[trigger] is_cue_in(m[k], g) ==> exists|i: int|
            0 <= i < cues.len() && (#[trigger] cues[i]).id.0 == k
}

/// Going from `before` to `after` touched only cues of group `g`: every other
/// clip is still there as it was, and nothing else appeared.
pub open spec fn touched_only(before: Map<u64, ClipView>, after: Map<u64, ClipView>, g: CaptionGroupId) -> bool {
    &&& forall|k: u64|
        #[trigger] before.dom().contains(k) && !is_cue_in(before[k], g) ==> after.dom().contains(k) && after[k]
            == before[k]
    &&& forall|k: u64|
        #[trigger] after.dom().contains(k) && !is_cue_in(after[k], g) ==> before.dom().contains(k) && !is_cue_in(
            before[k],
            g,
        )
}

/// Touching only the cues of one group goes both ways.
pub proof fn lemma_touched_only_symmetric(before: Map<u64, ClipView>, after: Map<u64, ClipView>, g: CaptionGroupId)
    requires
        touched_only(before, after, g),
    ensures
        touched_only(after, before, g),
{
    assert forall|k: u64| #[trigger] after.dom().contains(k) && !is_cue_in(after[k], g) implies before.dom().contains(k)
        && before[k] == after[k] by {
        assert(before.dom().contains(k));
    }
    assert forall|k: u64| #[trigger] before.dom().contains(k) && !is_cue_in(before[k], g) implies after.dom().contains(k)
        && !is_cue_in(after[k], g) by {
        assert(after.dom().contains(k));
    }
}

/// What filing clips one after another gives: the first `n` of `cs` under
/// their ids, over `m`.
pub proof fn lemma_with_clips(m: Map<u64, ClipView>, cs: Seq<Clip>, n: int)
    requires
        clip_ids_unique(cs),
        0 <= n <= cs.len(),
    ensures
        forall|k: u64|
            #[trigger] with_clips(m, cs, n).dom().contains(k) <==> (m.dom().contains(k) || exists|i: int|
                0 <= i < n && (#[trigger] cs[i]).id.0 == k),
        forall|i: int| 0 <= i < n ==> with_clips(m, cs, n)[(#[trigger] cs[i]).id.0] == clip_view(cs[i]),
        forall|k: u64|
            m.dom().contains(k) && (forall|i: int| 0 <= i < n ==> (#[trigger] cs[i]).id.0 != k) ==> #[trigger] with_clips(
                m,
                cs,
                n,
            )[k] == m[k],
    decreases n,
{
    if n > 0 {
        lemma_with_clips(m, cs, n - 1);
        let w = with_clips(m, cs, n);
        assert forall|k: u64| #[trigger] w.dom().contains(k) <==> (m.dom().contains(k) || exists|i: int|
            0 <= i < n && (#[trigger] cs[i]).id.0 == k) by {
            if exists|i: int| 0 <= i < n && (#[trigger] cs[i]).id.0 == k {
                let i = choose|i: int| 0 <= i < n && (#[trigger] cs[i]).id.0 == k;
                if i < n - 1 {
                    assert(exists|j: int| 0 <= j < n - 1 && (#[trigger] cs[j]).id.0 == k);
                }
            }
            if with_clips(m, cs, n - 1).dom().contains(k) && !m.dom().contains(k) {
                let i = choose|i: int| 0 <= i < n - 1 && (#[trigger] cs[i]).id.0 == k;
                assert(0 <= i < n && cs[i].id.0 == k);
            }
        }
        assert forall|i: int| 0 <= i < n implies w[(#[trigger] cs[i]).id.0] == clip_view(cs[i]) by {
            if i < n - 1 {
                assert(cs[i].id != cs[n - 1].id);
            }
        }
    }
}

/// Restoring a snapshot undoes an edit.
///
/// Take a snapshot of group `g` (its record and exactly its cue clips) in a
/// timeline whose clips are `before` and groups `groups_before`. Let an edit
/// touch only cues of `g` and only `g`'s record, giving clips `after` and
/// groups `groups_after`. Then taking out what `g` holds now and filing the
/// snapshot back succeeds at every step, and gives back exactly the clips
/// and groups from before the edit.
pub proof fn law_restore_undoes(
    before: Map<u64, ClipView>,
    groups_before: Map<u64, GroupView>,
    after: Map<u64, ClipView>,
    groups_after: Map<u64, GroupView>,
    tracks: Map<u64, TrackKind>,
    group: CaptionGroup,
    cues: Seq<Clip>,
)
    requires
        captures(before, group.id, cues),
        groups_before.dom().contains(group.id.0),
        group_view(group) == groups_before[group.id.0],
        touched_only(before, after, group.id),
        groups_after.remove(group.id.0) == groups_before.remove(group.id.0),
        forall|i: int| 0 <= i < cues.len() ==> tracks.dom().contains((#[trigger] cues[i]).track.0) && cues[i].id.0
            < u64::MAX,
    ensures
        clips_addable(without_cues(after, group.id), tracks, cues, cues.len() as int),
        with_clips(without_cues(after, group.id), cues, cues.len() as int) == before,
        groups_after.remove(group.id.0).insert(group.id.0, group_view(group)) == groups_before,
{
    let g = group.id;
    let w = without_cues(after, g);
    let n = cues.len() as int;
    lemma_with_clips(w, cues, n);
    assert forall|i: int| 0 <= i < n implies clip_addable(with_clips(w, cues, i), tracks, #[trigger] cues[i]) by {
        lemma_with_clips(w, cues, i);
        let k = cues[i].id.0;
        if w.dom().contains(k) {
            assert(after.dom().contains(k) && !is_cue_in(after[k], g));
            assert(before.dom().contains(k) && !is_cue_in(before[k], g));
        }
        if exists|j: int| 0 <= j < i && (#[trigger] cues[j]).id.0 == k {
            let j = choose|j: int| 0 <= j < i && (#[trigger] cues[j]).id.0 == k;
            assert(cues[j].id == cues[i].id);
        }
    }
    let r = with_clips(w, cues, n);
    assert forall|k: u64| #[trigger] r.dom().contains(k) <==> before.dom().contains(k) by {
        if before.dom().contains(k) {
            if is_cue_in(before[k], g) {
                let i = choose|i: int| 0 <= i < cues.len() && (#[trigger] cues[i]).id.0 == k;
                assert(exists|j: int| 0 <= j < n && (#[trigger] cues[j]).id.0 == k);
            } else {
                assert(after.dom().contains(k) && after[k] == before[k]);
                assert(w.dom().contains(k));
            }
        }
        if r.dom().contains(k) && !before.dom().contains(k) {
            if w.dom().contains(k) {
                assert(before.dom().contains(k));
            } else {
                let i = choose|i: int| 0 <= i < n && (#[trigger] cues[i]).id.0 == k;
            }
        }
    }
    assert forall|k: u64| #[trigger] r.dom().contains(k) implies r[k] == before[k] by {
        if exists|i: int| 0 <= i < n && (#[trigger] cues[i]).id.0 == k {
            let i = choose|i: int| 0 <= i < n && (#[trigger] cues[i]).id.0 == k;
        } else {
            assert(w.dom().contains(k));
            assert(after.dom().contains(k) && !is_cue_in(after[k], g));
            assert(before.dom().contains(k) && !is_cue_in(before[k], g));
            assert(after[k] == before[k]);
        }
    }
    assert(r =~= before);
    assert(groups_after.remove(g.0).insert(g.0, group_view(group)) =~= groups_before) by {
        assert forall|k: u64| k != g.0 implies (#[trigger] groups_after.remove(g.0).dom().contains(k)
            == groups_before.remove(g.0).dom().contains(k)) by {}
        assert forall|k: u64| k != g.0 && groups_before.dom().contains(k) implies #[trigger] groups_after[k]
            == groups_before[k] by {
            assert(groups_after.remove(g.0)[k] == groups_before.remove(g.0)[k]);
        }
    }
}

/// Applying a snapshot taken in `before` to `after` undoes the change: the
/// preconditions of [`law_restore_undoes`] for a snapshot action.
pub open spec fn undoes(before: Project, after: Project, undo: RestoreCaptionGroupAction) -> bool {
    let g = undo.group.id;
    &&& captures(before.timeline.clips_view(), g, undo.cues@)
    &&& before.timeline.groups_view().dom().contains(g.0)
    &&& group_view(undo.group) == before.timeline.groups_view()[g.0]
    &&& touched_only(before.timeline.clips_view(), after.timeline.clips_view(), g)
    &&& after.timeline.groups_view().dom().contains(g.0)
    &&& after.timeline.groups_view().remove(g.0) == before.timeline.groups_view().remove(g.0)
    &&& after.timeline.tracks_view() == before.timeline.tracks_view()
    &&& forall|i: int|
        0 <= i < undo.cues@.len() ==> before.timeline.tracks_view().dom().contains(
            (#[trigger] undo.cues@[i]).track.0,
        ) && undo.cues@[i].id.0 < u64::MAX
    &&& before.timeline.tracks_view().dom().contains(undo.group.track.0)
    &&& g.0 < u64::MAX
}

/// Touching only one group's cues composes.
pub proof fn lemma_touched_only_trans(
    a: Map<u64, ClipView>,
    b: Map<u64, ClipView>,
    c: Map<u64, ClipView>,
    g: CaptionGroupId,
)
    requires
        touched_only(a, b, g),
        touched_only(b, c, g),
    ensures
        touched_only(a, c, g),
{
    assert forall|k: u64| #[trigger] a.dom().contains(k) && !is_cue_in(a[k], g) implies c.dom().contains(k) && c[k]
        == a[k] by {
        assert(b.dom().contains(k));
        assert(b[k] == a[k]);
    }
    assert forall|k: u64| #[trigger] c.dom().contains(k) && !is_cue_in(c[k], g) implies a.dom().contains(k) && !is_cue_in(
        a[k],
        g,
    ) by {
        assert(b.dom().contains(k));
        assert(!is_cue_in(b[k], g));
    }
}

/// Renumbering a group touches only its cues.
pub proof fn lemma_reindexed_touches_only(
    mid: Map<u64, ClipView>,
    after: Map<u64, ClipView>,
    order: Seq<u64>,
    g: CaptionGroupId,
)
    requires
        cue_order(mid, g, order),
        reindexed(mid, after, order),
    ensures
        touched_only(mid, after, g),
{
    assert forall|k: u64| #[trigger] mid.dom().contains(k) && !is_cue_in(mid[k], g) implies after.dom().contains(k)
        && after[k] == mid[k] by {
        if order.contains(k) {
            let i = choose|i: int| 0 <= i < order.len() && order[i] == k;
            assert(is_cue_in(mid[order[i]], g));
        }
    }
    assert forall|k: u64| #[trigger] after.dom().contains(k) && !is_cue_in(after[k], g) implies mid.dom().contains(k)
        && !is_cue_in(mid[k], g) by {
        if order.contains(k) {
            let i = choose|i: int| 0 <= i < order.len() && order[i] == k;
            assert(is_cue_in(mid[order[i]], g));
            assert(after[order[i]] == with_index(mid[order[i]], i));
        }
    }
}

/// A timeline-ordered list of a group's cue clips, as they are, captures
/// the group.
pub proof fn lemma_order_captures(m: Map<u64, ClipView>, g: CaptionGroupId, cues: Seq<Clip>)
    requires
        cue_order(m, g, clip_ids(cues)),
        forall|i: int| 0 <= i < cues.len() ==> clip_view(#[trigger] cues[i]) == m[cues[i].id.0],
    ensures
        captures(m, g, cues),
{
    let ids = clip_ids(cues);
    assert forall|i: int, j: int|
        0 <= i < cues.len() && 0 <= j < cues.len() && #[trigger] cues[i].id == #[trigger] cues[j].id implies i
        == j by {
        if i < j {
            assert(cue_before(m, ids[i], ids[j]));
        } else if j < i {
            assert(cue_before(m, ids[j], ids[i]));
        }
    }
    assert forall|i: int| 0 <= i < cues.len() implies m.dom().contains((#[trigger] cues[i]).id.0) && clip_view(cues[i])
        == m[cues[i].id.0] && is_cue_in(m[cues[i].id.0], g) by {
        assert(ids[i] == cues[i].id.0);
    }
    assert forall|k: u64| m.dom().contains(k) && #[trigger] is_cue_in(m[k], g) implies exists|i: int|
        0 <= i < cues.len() && (#[trigger] cues[i]).id.0 == k by {
        assert(ids.contains(k));
        let i = choose|i: int| 0 <= i < ids.len() && ids[i] == k;
        assert(cues[i].id.0 == k);
    }
}

/// Remove a caption group and its cues; applying it hands back the restore.
#[derive(Debug)]
pub struct RemoveCaptionGroupAction {
    pub group: CaptionGroupId,
}

/// Restore a caption group and its cue clips exactly as captured, replacing
/// whatever the group holds now.
#[derive(Debug)]
pub struct RestoreCaptionGroupAction {
    pub group: CaptionGroup,
    pub cues: Vec<Clip>,
}

/// An undoable caption edit: what undo or redo applies next.
#[derive(Debug)]
pub enum CaptionAction {
    Remove(RemoveCaptionGroupAction),
    Restore(RestoreCaptionGroupAction),
    Regroup(RegroupCaptionCuesAction),
    Ungroup(UngroupCaptionCuesAction),
}

/// Re-attach caption metadata to clips that were ungrouped, restoring their
/// groups if the last member leaving dropped them.
#[derive(Debug)]
pub struct RegroupCaptionCuesAction {
    pub groups: Vec<CaptionGroup>,
    pub cues: Vec<(ClipId, CaptionCue)>,
}

/// Ungroup these clips again (the redo of an ungroup).
#[derive(Debug)]
pub struct UngroupCaptionCuesAction {
    pub clips: Vec<ClipId>,
}

impl RemoveCaptionGroupAction {
    /// Remove the group and its cues; the inverse restores both.
    pub fn apply(self, project: &mut Project) -> (r: Result<CaptionAction, ModelError>)
        requires
            old(project).wf(),
        ensures
            final(project).wf(),
            remove_applied(*old(project), *final(project), self, r),
    {
        match project.remove_caption_group(self.group) {
            Ok((group, cues)) => {
                proof {
                    lemma_order_captures(old(project).timeline.clips_view(), self.group, cues@);
                }
                Ok(CaptionAction::Restore(RestoreCaptionGroupAction { group, cues }))
            },
            Err(e) => Err(e),
        }
    }
}

impl RestoreCaptionGroupAction {
    /// Put the captured group and cues back. When the group exists, what it
    /// holds now is captured first and taken out, so the returned action
    /// puts that back (undo and redo oscillate); otherwise the returned
    /// action removes the group again.
    pub fn apply(self, project: &mut Project) -> (r: Result<CaptionAction, ModelError>)
        requires
            old(project).wf(),
        ensures
            final(project).wf(),
            restore_applied(*old(project), *final(project), self, r),
    {
        let id = self.group.id;
        let ghost cues_v = self.cues@;
        let ghost before_clips = project.timeline.clips_view();
        let present = project.timeline.caption_group(id).is_some();
        if present {
            let (group, cues) = match project.remove_caption_group(id) {
                Ok(captured) => captured,
                Err(e) => {
                    assert(false);
                    return Err(e);
                },
            };
            proof {
                lemma_order_captures(old(project).timeline.clips_view(), id, cues@);
            }
            let ghost mid = project.timeline.clips_view();
            match project.restore_caption_group(self.group, self.cues) {
                Ok(_) => {},
                Err(e) => {
                    proof {
                        assert(mid == without_cues(before_clips, id));
                        if exists|k: int| 0 <= k < cues_v.len() && project.timeline.clips_view() == #[trigger] with_clips(mid, cues_v, k) {
                            let k = choose|k: int| 0 <= k < cues_v.len() && project.timeline.clips_view() == #[trigger] with_clips(mid, cues_v, k);
                            assert(project.timeline.clips_view() == with_clips(mid, cues_v, k));
                        } else {
                            assert(project.timeline.clips_view() == with_clips(mid, cues_v, 0));
                        }
                        assert(partly_restored(project.timeline.clips_view(), mid, cues_v));
                    }
                    return Err(e);
                },
            }
            proof {
                assert(project.timeline.groups_view() =~= old(project).timeline.groups_view().remove(id.0).insert(
                    id.0,
                    group_view(self.group),
                ));
            }
            Ok(CaptionAction::Restore(RestoreCaptionGroupAction { group, cues }))
        } else {
            match project.restore_caption_group(self.group, self.cues) {
                Ok(_) => {},
                Err(e) => {
                    proof {
                        if exists|k: int| 0 <= k < cues_v.len() && project.timeline.clips_view() == #[trigger] with_clips(before_clips, cues_v, k) {
                            let k = choose|k: int| 0 <= k < cues_v.len() && project.timeline.clips_view() == #[trigger] with_clips(before_clips, cues_v, k);
                            assert(project.timeline.clips_view() == with_clips(before_clips, cues_v, k));
                        } else {
                            assert(project.timeline.clips_view() == with_clips(before_clips, cues_v, 0));
                        }
                        assert(partly_restored(project.timeline.clips_view(), before_clips, cues_v));
                    }
                    return Err(e);
                },
            }
            proof {
                assert(old(project).timeline.groups_view().remove(id.0) =~= old(project).timeline.groups_view());
            }
            Ok(CaptionAction::Remove(RemoveCaptionGroupAction { group: id }))
        }
    }
}

/// Capture group `group` and its cue clips as an undo action.
pub fn snapshot(project: &Project, group: CaptionGroupId) -> (r: Result<RestoreCaptionGroupAction, ModelError>)
    requires
        project.wf(),
    ensures
        r is Ok <==> project.timeline.groups_view().dom().contains(group.0),
        r is Err ==> r == Err::<RestoreCaptionGroupAction, ModelError>(ModelError::UnknownCaptionGroup(group)),
        r matches Ok(a) ==> {
            &&& a.group.id == group
            &&& group_view(a.group) == project.timeline.groups_view()[group.0]
            &&& captures(project.timeline.clips_view(), group, a.cues@)
            &&& project.timeline.tracks_view().dom().contains(a.group.track.0)
            &&& forall|i: int|
                0 <= i < a.cues@.len() ==> project.timeline.tracks_view().dom().contains(
                    (#[trigger] a.cues@[i]).track.0,
                ) && a.cues@[i].id.0 < u64::MAX
            &&& group.0 < u64::MAX
        },
{
    let captured = match project.timeline.caption_group(group) {
        Some(g) => g.copy(),
        None => {
            return Err(ModelError::UnknownCaptionGroup(group));
        },
    };
    let cues = project.timeline.caption_cues(group);
    proof {
        lemma_order_captures(project.timeline.clips_view(), group, cues@);
        project.timeline.lemma_ids_below();
        let i = project.timeline.group_slot(group);
        project.timeline.lemma_group_placed(i);
        assert forall|i: int| 0 <= i < cues@.len() implies project.timeline.tracks_view().dom().contains(
            (#[trigger] cues@[i]).track.0,
        ) && cues@[i].id.0 < u64::MAX by {
            let k = cues@[i].id.0;
            let j = project.timeline.clip_slot(k);
            project.timeline.lemma_clip_placed(j);
        }
    }
    Ok(RestoreCaptionGroupAction { group: captured, cues })
}

/// Rename a group; undo restores the snapshot.
pub fn set_label(project: &mut Project, group: CaptionGroupId, label: String) -> (r: Result<CaptionAction, ModelError>)
    requires
        old(project).wf(),
    ensures
        final(project).wf(),
        ({
            let t = old(project).timeline;
            &&& r is Ok <==> t.groups_view().dom().contains(group.0) && group_valid(
                relabeled(t.groups_view()[group.0], label@),
            )
            &&& !t.groups_view().dom().contains(group.0) ==> r == Err::<CaptionAction, ModelError>(
                ModelError::UnknownCaptionGroup(group),
            )
            &&& r is Err ==> final(project).same_timeline(old(project))
            &&& r is Ok ==> final(project).timeline.clips_view() == t.clips_view()
                && final(project).timeline.groups_view() == t.groups_view().insert(
                group.0,
                relabeled(t.groups_view()[group.0], label@),
            )
            &&& r matches Ok(undo) ==> (undo matches CaptionAction::Restore(a) && undoes(
                *old(project),
                *final(project),
                a,
            ))
        }),
{
    let undo = match snapshot(project, group) {
        Ok(a) => a,
        Err(e) => {
            return Err(e);
        },
    };
    match project.set_caption_group_label(group, label) {
        Ok(()) => {},
        Err(e) => {
            return Err(e);
        },
    }
    proof {
        assert(project.timeline.groups_view().remove(group.0) =~= old(project).timeline.groups_view().remove(group.0));
    }
    Ok(CaptionAction::Restore(undo))
}

/// Set (or clear) a group's highlighting; undo restores the snapshot.
pub fn set_highlight(project: &mut Project, group: CaptionGroupId, highlight: Option<CaptionHighlightMode>) -> (r: Result<
    CaptionAction,
    ModelError,
>)
    requires
        old(project).wf(),
    ensures
        final(project).wf(),
        ({
            let t = old(project).timeline;
            &&& r is Ok <==> t.groups_view().dom().contains(group.0)
            &&& r is Err ==> r == Err::<CaptionAction, ModelError>(ModelError::UnknownCaptionGroup(group))
                && final(project).same_timeline(old(project))
            &&& r is Ok ==> final(project).timeline.clips_view() == t.clips_view()
                && final(project).timeline.groups_view() == t.groups_view().insert(
                group.0,
                GroupView { highlight, ..t.groups_view()[group.0] },
            )
            &&& r matches Ok(undo) ==> (undo matches CaptionAction::Restore(a) && undoes(
                *old(project),
                *final(project),
                a,
            ))
        }),
{
    let undo = match snapshot(project, group) {
        Ok(a) => a,
        Err(e) => {
            return Err(e);
        },
    };
    match project.set_caption_highlight(group, highlight) {
        Ok(()) => {},
        Err(e) => {
            return Err(e);
        },
    }
    proof {
        assert(project.timeline.groups_view().remove(group.0) =~= old(project).timeline.groups_view().remove(group.0));
    }
    Ok(CaptionAction::Restore(undo))
}

/// Replace a group's segmentation rules; undo restores the snapshot.
pub fn set_layout(project: &mut Project, group: CaptionGroupId, layout: CaptionLayout) -> (r: Result<CaptionAction, ModelError>)
    requires
        old(project).wf(),
    ensures
        final(project).wf(),
        ({
            let t = old(project).timeline;
            &&& r is Ok <==> t.groups_view().dom().contains(group.0) && layout_valid(layout)
            &&& !t.groups_view().dom().contains(group.0) ==> r == Err::<CaptionAction, ModelError>(
                ModelError::UnknownCaptionGroup(group),
            )
            &&& t.groups_view().dom().contains(group.0) && !layout_valid(layout) ==> (r matches Err(e)
                && e is InvalidParam)
            &&& r is Err ==> final(project).same_timeline(old(project))
            &&& r is Ok ==> final(project).timeline.clips_view() == t.clips_view()
                && final(project).timeline.groups_view() == t.groups_view().insert(
                group.0,
                GroupView { layout, ..t.groups_view()[group.0] },
            )
            &&& r matches Ok(undo) ==> (undo matches CaptionAction::Restore(a) && undoes(
                *old(project),
                *final(project),
                a,
            ))
        }),
{
    let undo = match snapshot(project, group) {
        Ok(a) => a,
        Err(e) => {
            return Err(e);
        },
    };
    match project.set_caption_group_layout(group, layout) {
        Ok(()) => {},
        Err(e) => {
            return Err(e);
        },
    }
    proof {
        assert(project.timeline.groups_view().remove(group.0) =~= old(project).timeline.groups_view().remove(group.0));
    }
    Ok(CaptionAction::Restore(undo))
}

/// Apply a caption template to a group; undo restores the snapshot.
pub fn set_template(project: &mut Project, group: CaptionGroupId, template: &str) -> (r: Result<CaptionAction, ModelError>)
    requires
        old(project).wf(),
    ensures
        final(project).wf(),
        ({
            let t = old(project).timeline;
            &&& r is Ok <==> t.groups_view().dom().contains(group.0) && template_index(template@) is Some
            &&& !t.groups_view().dom().contains(group.0) ==> r == Err::<CaptionAction, ModelError>(
                ModelError::UnknownCaptionGroup(group),
            )
            &&& t.groups_view().dom().contains(group.0) && template_index(template@) is None ==> (r matches Err(e)
                && e is InvalidParam)
            &&& r is Err ==> final(project).same_timeline(old(project))
            &&& r is Ok ==> {
                let i = template_index(template@)->Some_0;
                &&& final(project).timeline.groups_view() == t.groups_view().insert(
                    group.0,
                    GroupView {
                        layout: template_layout(i),
                        highlight: template_rules(i).2,
                        template: Some(template@),
                        ..t.groups_view()[group.0]
                    },
                )
                &&& final(project).timeline.clips_view() == overrides_cleared(t.clips_view(), group)
            }
            &&& r matches Ok(undo) ==> (undo matches CaptionAction::Restore(a) && undoes(
                *old(project),
                *final(project),
                a,
            ))
        }),
{
    let undo = match snapshot(project, group) {
        Ok(a) => a,
        Err(e) => {
            return Err(e);
        },
    };
    match project.set_caption_group_template(group, template) {
        Ok(()) => {},
        Err(e) => {
            return Err(e);
        },
    }
    proof {
        assert(project.timeline.groups_view().remove(group.0) =~= old(project).timeline.groups_view().remove(group.0));
        let m = old(project).timeline.clips_view();
        let n = project.timeline.clips_view();
        assert forall|k: u64| #[trigger] n.dom().contains(k) && !is_cue_in(n[k], group) implies m.dom().contains(k)
            && !is_cue_in(m[k], group) by {
            if is_cue_in(m[k], group) {
                assert(is_cue_in(override_cleared(m[k]), group));
            }
        }
        assert(touched_only(m, n, group));
    }
    Ok(CaptionAction::Restore(undo))
}

/// The group clip `clip` is a cue of, or why it is none.
pub fn group_of(project: &Project, clip: ClipId) -> (r: Result<CaptionGroupId, ModelError>)
    requires
        project.wf(),
    ensures
        ({
            let m = project.timeline.clips_view();
            &&& !m.dom().contains(clip.0) ==> r == Err::<CaptionGroupId, ModelError>(ModelError::UnknownClip(clip))
            &&& m.dom().contains(clip.0) && m[clip.0].caption is None ==> r == Err::<CaptionGroupId, ModelError>(
                ModelError::NotACaptionCue(clip),
            )
            &&& m.dom().contains(clip.0) && m[clip.0].caption is Some ==> r == Ok::<CaptionGroupId, ModelError>(
                m[clip.0].caption->Some_0.group,
            )
        }),
{
    match project.timeline.clip(clip) {
        Some(c) => match c.caption_group() {
            Some(g) => Ok(g),
            None => Err(ModelError::NotACaptionCue(clip)),
        },
        None => Err(ModelError::UnknownClip(clip)),
    }
}

/// Whether clip `clip` is a cue whose group record exists, so a cue edit can
/// take its undo snapshot.
pub open spec fn cue_snapshot_ok(t: Timeline, clip: ClipId) -> bool {
    let m = t.clips_view();
    &&& m.dom().contains(clip.0)
    &&& m[clip.0].caption is Some
    &&& t.groups_view().dom().contains(m[clip.0].caption->Some_0.group.0)
}

/// The error a cue edit reports when it cannot take its snapshot.
pub open spec fn cue_snapshot_error(t: Timeline, clip: ClipId, e: ModelError) -> bool {
    let m = t.clips_view();
    if !m.dom().contains(clip.0) {
        e == ModelError::UnknownClip(clip)
    } else if m[clip.0].caption is None {
        e == ModelError::NotACaptionCue(clip)
    } else {
        e == ModelError::UnknownCaptionGroup(m[clip.0].caption->Some_0.group)
    }
}

/// Edit one cue's text, word timings and speaker; undo restores the
/// snapshot of its group.
pub fn set_cue(
    project: &mut Project,
    clip: ClipId,
    text: String,
    words: Option<Vec<CaptionWord>>,
    speaker: Option<String>,
) -> (r: Result<CaptionAction, ModelError>)
    requires
        old(project).wf(),
    ensures
        final(project).wf(),
        ({
            let t = old(project).timeline;
            let m = t.clips_view();
            let kind = cue_edit_fault(m, clip, text@, opt_words(words));
            &&& r is Ok <==> cue_snapshot_ok(t, clip) && kind == 0
            &&& r is Err ==> final(project).same_timeline(old(project))
            &&& !cue_snapshot_ok(t, clip) ==> (r matches Err(e) && cue_snapshot_error(t, clip, e))
            &&& cue_snapshot_ok(t, clip) ==> (r matches Err(e) ==> cue_edit_error(e, kind, clip))
            &&& r is Ok ==> final(project).timeline.groups_view() == t.groups_view()
                && final(project).timeline.clips_view() == m.insert(
                clip.0,
                edited_clip(m[clip.0], text@, new_words(m[clip.0].caption->Some_0.words, text@, opt_words(words)), opt_view(speaker)),
            )
            &&& r matches Ok(undo) ==> (undo matches CaptionAction::Restore(a) && undoes(
                *old(project),
                *final(project),
                a,
            ))
        }),
{
    let group = match group_of(project, clip) {
        Ok(g) => g,
        Err(e) => {
            return Err(e);
        },
    };
    let undo = match snapshot(project, group) {
        Ok(a) => a,
        Err(e) => {
            return Err(e);
        },
    };
    match project.set_caption_cue(clip, text, words, speaker) {
        Ok(()) => {},
        Err(e) => {
            return Err(e);
        },
    }
    proof {
        let m = old(project).timeline.clips_view();
        let n = project.timeline.clips_view();
        assert forall|k: u64| #[trigger] n.dom().contains(k) && !is_cue_in(n[k], group) implies m.dom().contains(k)
            && !is_cue_in(m[k], group) by {
            if k == clip.0 {
                assert(is_cue_in(n[k], group));
            }
        }
        assert(touched_only(m, n, group));
        assert(project.timeline.groups_view().remove(group.0) =~= old(project).timeline.groups_view().remove(group.0));
    }
    Ok(CaptionAction::Restore(undo))
}

/// Split a cue at `at`; returns the second half and the undo, which restores
/// the snapshot of its group.
pub fn split_cue(project: &mut Project, clip: ClipId, at: RationalTime) -> (r: Result<(ClipId, CaptionAction), ModelError>)
    requires
        old(project).wf(),
    ensures
        final(project).wf(),
        ({
            let t = old(project).timeline;
            let m = t.clips_view();
            let kind = split_fault(t, clip, at);
            let v = m[clip.0];
            let cut = spec_ms(v.timeline.start.rate, sat_diff(at.value as int, v.timeline.start.value as int)) as u32;
            &&& r is Ok <==> cue_snapshot_ok(t, clip) && kind == 0
            &&& r is Err ==> final(project).same_timeline(old(project))
            &&& !cue_snapshot_ok(t, clip) ==> (r matches Err(e) && cue_snapshot_error(t, clip, e))
            &&& cue_snapshot_ok(t, clip) ==> (r matches Err(e) ==> split_error(e, kind, clip))
            &&& r matches Ok((right, undo)) ==> {
                &&& right.0 == t.next_id
                &&& final(project).timeline.groups_view() == t.groups_view()
                &&& split_into(m, clip, at.value as int, right, cut, final(project).timeline.clips_view())
                &&& undo matches CaptionAction::Restore(a) && undoes(*old(project), *final(project), a)
            }
        }),
{
    let group = match group_of(project, clip) {
        Ok(g) => g,
        Err(e) => {
            return Err(e);
        },
    };
    let undo = match snapshot(project, group) {
        Ok(a) => a,
        Err(e) => {
            return Err(e);
        },
    };
    let right = match project.split_caption_cue(clip, at) {
        Ok(id) => id,
        Err(e) => {
            return Err(e);
        },
    };
    proof {
        let m = old(project).timeline.clips_view();
        let n = project.timeline.clips_view();
        let v = m[clip.0];
        let cut = spec_ms(v.timeline.start.rate, sat_diff(at.value as int, v.timeline.start.value as int)) as u32;
        let (nn, order) = choose|nn: int, order: Seq<u64>| #[trigger] split_outcome(m, clip, at.value as int, right, cut, nn, order, n);
        let halves = split_halves(v, at.value as int, nn, cut);
        let mid = m.insert(clip.0, halves.0).insert(right.0, halves.1);
        assert(touched_only(m, mid, group)) by {
            assert forall|k: u64| #[trigger] mid.dom().contains(k) && !is_cue_in(mid[k], group) implies m.dom().contains(k)
                && !is_cue_in(m[k], group) by {
                if k == clip.0 || k == right.0 {
                    assert(is_cue_in(mid[k], group));
                }
            }
            assert forall|k: u64| #[trigger] m.dom().contains(k) && !is_cue_in(m[k], group) implies mid.dom().contains(k)
                && mid[k] == m[k] by {
                assert(k != right.0);
            }
        }
        lemma_reindexed_touches_only(mid, n, order, group);
        lemma_touched_only_trans(m, mid, n, group);
        assert(project.timeline.groups_view().remove(group.0) =~= old(project).timeline.groups_view().remove(group.0));
        assert(split_into(m, clip, at.value as int, right, cut, n));
    }
    Ok((right, CaptionAction::Restore(undo)))
}

/// Merge cues into the earliest of them; returns the survivor and the undo,
/// which restores the snapshot of their group.
pub fn merge_cues(project: &mut Project, clips: &[ClipId]) -> (r: Result<(ClipId, CaptionAction), ModelError>)
    requires
        old(project).wf(),
    ensures
        final(project).wf(),
        ({
            let t = old(project).timeline;
            let m = t.clips_view();
            let kind = merge_fault(m, clips@);
            &&& r is Ok <==> clips@.len() > 0 && cue_snapshot_ok(t, clips@[0]) && kind == 0
            &&& r is Err ==> final(project).same_timeline(old(project))
            &&& clips@.len() == 0 ==> (r matches Err(e) && e is InvalidParam)
            &&& clips@.len() > 0 && !cue_snapshot_ok(t, clips@[0]) ==> (r matches Err(e) && cue_snapshot_error(
                t,
                clips@[0],
                e,
            ))
            &&& clips@.len() > 0 && cue_snapshot_ok(t, clips@[0]) ==> (r matches Err(e) ==> merge_error(m, clips@, kind, e))
            &&& r matches Ok((target, undo)) ==> {
                &&& final(project).timeline.groups_view() == t.groups_view()
                &&& merged_into(m, clips@, target, final(project).timeline.clips_view())
                &&& undo matches CaptionAction::Restore(a) && undoes(*old(project), *final(project), a)
            }
        }),
{
    if clips.len() == 0 {
        return Err(ModelError::invalid(crate::text::chars_of("merging captions needs at least two cues")));
    }
    let group = match group_of(project, clips[0]) {
        Ok(g) => g,
        Err(e) => {
            return Err(e);
        },
    };
    let undo = match snapshot(project, group) {
        Ok(a) => a,
        Err(e) => {
            return Err(e);
        },
    };
    let merged = match project.merge_caption_cues(clips) {
        Ok(id) => id,
        Err(e) => {
            return Err(e);
        },
    };
    proof {
        let m = old(project).timeline.clips_view();
        let n = project.timeline.clips_view();
        let (ord, order) = choose|ord: Seq<u64>, order: Seq<u64>| #[trigger] merge_outcome(m, clips@, merged, ord, order, n);
        let mid = merged_map(m, ord);
        assert(merge_group(m, clips@) == group);
        assert(touched_only(m, mid, group)) by {
            assert forall|k: u64| #[trigger] mid.dom().contains(k) && !is_cue_in(mid[k], group) implies m.dom().contains(k)
                && !is_cue_in(m[k], group) by {
                if k == ord[0] {
                    assert(raw_ids(clips@).contains(ord[0]));
                    let i = choose|i: int| 0 <= i < clips@.len() && raw_ids(clips@)[i] == ord[0];
                    assert(member_fault(m, clips@, i) == 0);
                    assert(is_cue_in(mid[k], group));
                }
            }
            assert forall|k: u64| #[trigger] m.dom().contains(k) && !is_cue_in(m[k], group) implies mid.dom().contains(k)
                && mid[k] == m[k] by {
                if ord.contains(k) {
                    let j = choose|j: int| 0 <= j < ord.len() && ord[j] == k;
                    assert(raw_ids(clips@).contains(ord[j]));
                    let i = choose|i: int| 0 <= i < clips@.len() && raw_ids(clips@)[i] == ord[j];
                    assert(member_fault(m, clips@, i) == 0);
                }
            }
        }
        lemma_reindexed_touches_only(mid, n, order, group);
        lemma_touched_only_trans(m, mid, n, group);
        assert(project.timeline.groups_view().remove(group.0) =~= old(project).timeline.groups_view().remove(group.0));
    }
    Ok((merged, CaptionAction::Restore(undo)))
}

/// Undo, then redo, of a snapshot edit.
///
/// Undo applies the snapshot `undo` taken before the edit, and captures the
/// group as the edit left it (`redo`). Applied to the undone timeline, that
/// capture gives back exactly the clips and groups the edit produced, so undo
/// and redo oscillate.
pub proof fn law_undo_redo(
    before: Map<u64, ClipView>,
    groups_before: Map<u64, GroupView>,
    after: Map<u64, ClipView>,
    groups_after: Map<u64, GroupView>,
    tracks: Map<u64, TrackKind>,
    undo_group: CaptionGroup,
    undo_cues: Seq<Clip>,
    redo_group: CaptionGroup,
    redo_cues: Seq<Clip>,
)
    requires
        captures(before, undo_group.id, undo_cues),
        groups_before.dom().contains(undo_group.id.0),
        group_view(undo_group) == groups_before[undo_group.id.0],
        touched_only(before, after, undo_group.id),
        groups_after.remove(undo_group.id.0) == groups_before.remove(undo_group.id.0),
        forall|i: int| 0 <= i < undo_cues.len() ==> tracks.dom().contains((#[trigger] undo_cues[i]).track.0)
            && undo_cues[i].id.0 < u64::MAX,
        redo_group.id == undo_group.id,
        captures(after, redo_group.id, redo_cues),
        groups_after.dom().contains(redo_group.id.0),
        group_view(redo_group) == groups_after[redo_group.id.0],
        forall|i: int| 0 <= i < redo_cues.len() ==> tracks.dom().contains((#[trigger] redo_cues[i]).track.0)
            && redo_cues[i].id.0 < u64::MAX,
    ensures
        with_clips(without_cues(after, undo_group.id), undo_cues, undo_cues.len() as int) == before,
        groups_after.remove(undo_group.id.0).insert(undo_group.id.0, group_view(undo_group)) == groups_before,
        clips_addable(without_cues(before, redo_group.id), tracks, redo_cues, redo_cues.len() as int),
        with_clips(without_cues(before, redo_group.id), redo_cues, redo_cues.len() as int) == after,
        groups_before.remove(redo_group.id.0).insert(redo_group.id.0, group_view(redo_group)) == groups_after,
{
    law_restore_undoes(before, groups_before, after, groups_after, tracks, undo_group, undo_cues);
    lemma_touched_only_symmetric(before, after, undo_group.id);
    law_restore_undoes(after, groups_after, before, groups_before, tracks, redo_group, redo_cues);
}

/// Undo and redo of a snapshot edit oscillate, through the actions
/// themselves.
///
/// Let an edit take project `p0` to `p1` and hand back its undo `undo`, as
/// every snapshot edit here does ([`undoes`]). Applying `undo` to `p1`
/// (giving `p2`) succeeds, gives back `p0`'s clips and groups, and hands back
/// a redo; applying that redo to `p2` (giving `p3`) succeeds and gives back
/// `p1`'s clips and groups.
pub proof fn law_edit_undo_redo(
    p0: Project,
    p1: Project,
    undo: RestoreCaptionGroupAction,
    p2: Project,
    r2: Result<CaptionAction, ModelError>,
    p3: Project,
    r3: Result<CaptionAction, ModelError>,
)
    requires
        p1.wf(),
        undoes(p0, p1, undo),
        restore_applied(p1, p2, undo, r2),
        r2 matches Ok(CaptionAction::Restore(redo)) ==> restore_applied(p2, p3, redo, r3),
    ensures
        r2 matches Ok(CaptionAction::Restore(redo)) && redo.group.id == undo.group.id,
        p2.timeline.clips_view() == p0.timeline.clips_view(),
        p2.timeline.groups_view() == p0.timeline.groups_view(),
        r3 is Ok,
        p3.timeline.clips_view() == p1.timeline.clips_view(),
        p3.timeline.groups_view() == p1.timeline.groups_view(),
{
    let g = undo.group.id;
    let c0 = p0.timeline.clips_view();
    let c1 = p1.timeline.clips_view();
    let g0 = p0.timeline.groups_view();
    let g1 = p1.timeline.groups_view();
    let tracks = p0.timeline.tracks_view();
    law_restore_undoes(c0, g0, c1, g1, tracks, undo.group, undo.cues@);
    let redo = r2->Ok_0->Restore_0;
    p1.timeline.lemma_views_placed();
    assert forall|i: int| 0 <= i < redo.cues@.len() implies tracks.dom().contains((#[trigger] redo.cues@[i]).track.0)
        && redo.cues@[i].id.0 < u64::MAX by {
        let k = redo.cues@[i].id.0;
        assert(c1.dom().contains(k) && clip_view(redo.cues@[i]) == c1[k]);
    }
    lemma_touched_only_symmetric(c0, c1, g);
    assert(g1.dom().contains(g.0));
    assert(g1[g.0].track == group_view(redo.group).track);
    law_restore_undoes(c1, g1, c0, g0, tracks, redo.group, redo.cues@);
    assert(g0.remove(g.0) == g1.remove(g.0));
}

/// Adding cues `0..n` of a batch as clips `first..first + n` in group
/// `group` files each under its new id and leaves every earlier clip alone.
proof fn lemma_placed_cues(
    m: Map<u64, ClipView>,
    track: TrackId,
    group: CaptionGroupId,
    first: int,
    cues: Seq<CaptionCueSpec>,
    n: int,
)
    requires
        0 <= n <= cues.len(),
        forall|k: u64| #[trigger] m.dom().contains(k) ==> k < first,
        0 <= first,
        first + n <= u64::MAX,
    ensures
        forall|k: u64|
            #[trigger] placed_cues(m, track, group, first, cues, n).dom().contains(k) <==> (m.dom().contains(k) || (
            first <= k < first + n)),
        forall|k: u64| m.dom().contains(k) ==> #[trigger] placed_cues(m, track, group, first, cues, n)[k] == m[k],
        forall|k: u64|
            first <= k < first + n ==> is_cue_in(#[trigger] placed_cues(m, track, group, first, cues, n)[k], group),
        forall|k: u64| first <= k < first + n ==> (#[trigger] placed_cues(m, track, group, first, cues, n)[k]).track == track,
    decreases n,
{
    if n > 0 {
        lemma_placed_cues(m, track, group, first, cues, n - 1);
        let key = (first + n - 1) as u64;
        assert(key == first + n - 1);
        let prev = placed_cues(m, track, group, first, cues, n - 1);
        let cur = placed_cues(m, track, group, first, cues, n);
        assert(cur == prev.insert(key, cur[key]));
        assert forall|k: u64| #[trigger] cur.dom().contains(k) <==> (m.dom().contains(k) || (first <= k < first + n)) by {
            if k != key {
                assert(cur.dom().contains(k) == prev.dom().contains(k));
            }
        }
        assert forall|k: u64| m.dom().contains(k) implies #[trigger] cur[k] == m[k] by {
            assert(k != key);
        }
        assert forall|k: u64| first <= k < first + n implies is_cue_in(#[trigger] cur[k], group) by {
            if k != key {
                assert(cur[k] == prev[k]);
            }
        }
    } else {
        assert forall|k: u64| #[trigger] placed_cues(m, track, group, first, cues, n).dom().contains(k) <==> (
            m.dom().contains(k) || (first <= k < first + n)) by {}
    }
}

/// Removing a freshly added group undoes adding it.
///
/// When no clip already claims the new group's id, taking the group and its
/// cues back out of the timeline `add_caption_group` left gives back exactly
/// the clips and groups from before.
pub proof fn law_remove_undoes_add(
    m: Map<u64, ClipView>,
    groups: Map<u64, GroupView>,
    track: TrackId,
    group: CaptionGroupId,
    view: GroupView,
    first: int,
    cues: Seq<CaptionCueSpec>,
)
    requires
        !groups.dom().contains(group.0),
        forall|k: u64| #[trigger] m.dom().contains(k) ==> k < first,
        0 <= first,
        first + cues.len() <= u64::MAX,
        !group_in_use(m, group.0),
    ensures
        without_cues(placed_cues(m, track, group, first, cues, cues.len() as int), group) == m,
        groups.insert(group.0, view).remove(group.0) == groups,
{
    let n = cues.len() as int;
    lemma_placed_cues(m, track, group, first, cues, n);
    let p = placed_cues(m, track, group, first, cues, n);
    let w = without_cues(p, group);
    assert forall|k: u64| #[trigger] w.dom().contains(k) <==> m.dom().contains(k) by {
        if m.dom().contains(k) {
            assert(CaptionGroupId(group.0) == group);
            if is_cue_in(m[k], group) {
                assert(m.dom().contains(k) && is_cue_in(m[k], CaptionGroupId(group.0)));
            }
        }
    }
    assert(w =~= m);
    assert(groups.insert(group.0, view).remove(group.0) =~= groups);
}

/// Adding a group, removing it, and restoring what the removal handed back
/// round-trips every id.
///
/// Let `add_caption_group` place `cues` as group `group` (record `view`) on
/// `track`, numbering its cues from `first`, into clips `m` and groups
/// `groups`; let `remove_caption_group` then hand back the record `removed`
/// and the group's cue clips `taken` in timeline order. The removal leaves
/// exactly the clips and groups from before the add, the restore accepts
/// every cue, and it gives back exactly the clips and groups the add made:
/// every cue under the id it was placed with.
pub proof fn law_add_remove_restore(
    m: Map<u64, ClipView>,
    groups: Map<u64, GroupView>,
    tracks: Map<u64, TrackKind>,
    track: TrackId,
    group: CaptionGroupId,
    view: GroupView,
    first: int,
    cues: Seq<CaptionCueSpec>,
    removed: CaptionGroup,
    taken: Seq<Clip>,
)
    requires
        !groups.dom().contains(group.0),
        forall|k: u64| #[trigger] m.dom().contains(k) ==> k < first,
        0 <= first,
        first + cues.len() <= u64::MAX,
        !group_in_use(m, group.0),
        tracks.dom().contains(track.0),
        removed.id == group,
        group_view(removed) == view,
        cue_order(placed_cues(m, track, group, first, cues, cues.len() as int), group, clip_ids(taken)),
        forall|i: int|
            0 <= i < taken.len() ==> clip_view(#[trigger] taken[i]) == placed_cues(
                m,
                track,
                group,
                first,
                cues,
                cues.len() as int,
            )[taken[i].id.0],
    ensures
        ({
            let added = placed_cues(m, track, group, first, cues, cues.len() as int);
            &&& without_cues(added, group) == m
            &&& groups.insert(group.0, view).remove(group.0) == groups
            &&& clips_addable(m, tracks, taken, taken.len() as int)
            &&& with_clips(m, taken, taken.len() as int) == added
            &&& groups.insert(group.0, view).remove(group.0).insert(group.0, group_view(removed)) == groups.insert(
                group.0,
                view,
            )
        }),
{
    let n = cues.len() as int;
    let added = placed_cues(m, track, group, first, cues, n);
    law_remove_undoes_add(m, groups, track, group, view, first, cues);
    lemma_placed_cues(m, track, group, first, cues, n);
    lemma_order_captures(added, group, taken);
    let g1 = groups.insert(group.0, view);
    assert forall|i: int| 0 <= i < taken.len() implies tracks.dom().contains((#[trigger] taken[i]).track.0)
        && taken[i].id.0 < u64::MAX by {
        let k = taken[i].id.0;
        assert(added.dom().contains(k) && is_cue_in(added[k], group));
        if m.dom().contains(k) && !(first <= k < first + n) {
            assert(added[k] == m[k]);
            assert(!group_in_use(m, group.0));
        }
    }
    law_restore_undoes(added, g1, added, g1, tracks, removed, taken);
}

/// Adding a group, removing it, and restoring what the removal handed back,
/// through the project calls: every id comes back.
///
/// Let `add_caption_group(spec, cues)` take `p0` to `p1` answering
/// `Ok((g, ids))`, `remove_caption_group(g)` take `p1` to `p2` answering
/// `Ok((removed, taken))`, and `restore_caption_group(removed, taken)` take
/// `p2` to `p3` answering `r3`, each as its contract says. When no clip of
/// `p0` already claims the new group's id, the removal leaves `p0`'s clips
/// and groups, the restore answers `Ok(g)`, and it leaves `p1`'s clips and
/// groups: every cue of the group back under the id it was added with.
pub proof fn law_project_add_remove_restore(
    p0: Project,
    p1: Project,
    spec: CaptionGroupSpec,
    cues: Seq<CaptionCueSpec>,
    g: CaptionGroupId,
    ids: Seq<ClipId>,
    p2: Project,
    removed: CaptionGroup,
    taken: Seq<Clip>,
    p3: Project,
    r3: Result<CaptionGroupId, ModelError>,
)
    requires
        p0.wf(),
        !group_in_use(p0.timeline.clips_view(), g.0),
        p0.add_group_ok(spec, cues),
        g.0 == p0.timeline.next_id,
        ids.len() == cues.len(),
        forall|i: int| 0 <= i < ids.len() ==> (#[trigger] ids[i]).0 == g.0 + 1 + i,
        p1.timeline.tracks_view() == p0.timeline.tracks_view(),
        p1.timeline.groups_view() == p0.timeline.groups_view().insert(g.0, resolved_view(spec)),
        p1.timeline.clips_view() == placed_cues(
            p0.timeline.clips_view(),
            spec.track,
            g,
            g.0 + 1,
            cues,
            cues.len() as int,
        ),
        removed.id == g,
        group_view(removed) == p1.timeline.groups_view()[g.0],
        p2.timeline.tracks_view() == p1.timeline.tracks_view(),
        p2.timeline.groups_view() == p1.timeline.groups_view().remove(g.0),
        p2.timeline.clips_view() == without_cues(p1.timeline.clips_view(), g),
        cue_order(p1.timeline.clips_view(), g, clip_ids(taken)),
        forall|i: int|
            0 <= i < taken.len() ==> clip_view(#[trigger] taken[i]) == p1.timeline.clips_view()[taken[i].id.0],
        r3 is Ok <==> group_addable(p2.timeline, removed) && clips_addable(
            p2.timeline.clips_view(),
            p2.timeline.tracks_view(),
            taken,
            taken.len() as int,
        ),
        r3 matches Ok(id) ==> id == removed.id && p3.timeline.groups_view() == p2.timeline.groups_view().insert(
            removed.id.0,
            group_view(removed),
        ) && p3.timeline.clips_view() == with_clips(p2.timeline.clips_view(), taken, taken.len() as int),
    ensures
        p2.timeline.clips_view() == p0.timeline.clips_view(),
        p2.timeline.groups_view() == p0.timeline.groups_view(),
        r3 == Ok::<CaptionGroupId, ModelError>(g),
        p3.timeline.clips_view() == p1.timeline.clips_view(),
        p3.timeline.groups_view() == p1.timeline.groups_view(),
        forall|i: int|
            0 <= i < ids.len() ==> p3.timeline.clips_view().dom().contains(#[trigger] ids[i].0) && is_cue_in(
                p3.timeline.clips_view()[ids[i].0],
                g,
            ),
{
    let m = p0.timeline.clips_view();
    let n = cues.len() as int;
    p0.timeline.lemma_ids_below();
    law_add_remove_restore(
        m,
        p0.timeline.groups_view(),
        p0.timeline.tracks_view(),
        spec.track,
        g,
        resolved_view(spec),
        g.0 + 1,
        cues,
        removed,
        taken,
    );
    lemma_placed_cues(m, spec.track, g, g.0 + 1, cues, n);
    assert forall|i: int| 0 <= i < ids.len() implies p3.timeline.clips_view().dom().contains(#[trigger] ids[i].0)
        && is_cue_in(p3.timeline.clips_view()[ids[i].0], g) by {
        let k = ids[i].0;
        assert(g.0 + 1 <= k < g.0 + 1 + n);
    }
}

/// Create a caption group and its cues; the undo removes both.
pub fn add(project: &mut Project, spec: &CaptionGroupSpec, cues: &[CaptionCueSpec]) -> (r: Result<(CaptionGroupId, CaptionAction), ModelError>)
    requires
        old(project).wf(),
    ensures
        final(project).wf(),
        r is Ok <==> old(project).add_group_ok(*spec, cues@),
        r matches Err(e) ==> final(project).same_timeline(old(project)) && old(project).add_group_error(*spec, cues@, e),
        r matches Ok((group, undo)) ==> {
            let first = old(project).timeline.next_id;
            &&& group.0 == first
            &&& undo == CaptionAction::Remove(RemoveCaptionGroupAction { group })
            &&& final(project).timeline.groups_view() == old(project).timeline.groups_view().insert(
                group.0,
                resolved_view(*spec),
            )
            &&& final(project).timeline.clips_view() == placed_cues(
                old(project).timeline.clips_view(),
                spec.track,
                group,
                first + 1,
                cues@,
                cues@.len() as int,
            )
            &&& forall|k: u64| #[trigger] old(project).timeline.clips_view().dom().contains(k) ==> k < first + 1
            &&& first + 1 + cues@.len() <= u64::MAX
            &&& !old(project).timeline.groups_view().dom().contains(group.0)
        },
{
    match project.add_caption_group(spec, cues) {
        Ok((group, _)) => Ok((group, CaptionAction::Remove(RemoveCaptionGroupAction { group }))),
        Err(e) => Err(e),
    }
}

/// The clips after re-attaching the first `n` listed cues, each to its
/// clip.
pub open spec fn attached(m: Map<u64, ClipView>, cues: Seq<(ClipId, CaptionCue)>, n: int) -> Map<u64, ClipView>
    decreases n,
{
    if n <= 0 {
        m
    } else {
        let s = attached(m, cues, n - 1);
        let id = cues[n - 1].0.0;
        s.insert(id, ClipView { caption: Some(cue_view(cues[n - 1].1)), ..s[id] })
    }
}

/// The groups after filing the first `n` of `gs`, each only where its id is
/// still free.
pub open spec fn with_groups(m: Map<u64, GroupView>, gs: Seq<CaptionGroup>, n: int) -> Map<u64, GroupView>
    decreases n,
{
    if n <= 0 {
        m
    } else {
        let s = with_groups(m, gs, n - 1);
        if s.dom().contains(gs[n - 1].id.0) {
            s
        } else {
            s.insert(gs[n - 1].id.0, group_view(gs[n - 1]))
        }
    }
}

/// Whether group `i` of `gs` can be filed after those before it: its id is
/// taken already, or its lane exists and its id is usable.
pub open spec fn group_refilable(m: Map<u64, GroupView>, tracks: Map<u64, TrackKind>, gs: Seq<CaptionGroup>, i: int) -> bool {
    with_groups(m, gs, i).dom().contains(gs[i].id.0) || (tracks.dom().contains(gs[i].track.0) && gs[i].id.0 < u64::MAX)
}

/// The groups named by the listed cues.
pub open spec fn cue_groups(cues: Seq<(ClipId, CaptionCue)>) -> Set<CaptionGroupId> {
    Set::new(|g: CaptionGroupId| exists|i: int| 0 <= i < cues.len() && (#[trigger] cues[i]).1.group == g)
}

/// Whether a clip is a cue of one of the groups in `gs`.
pub open spec fn cue_of_any(v: ClipView, gs: Set<CaptionGroupId>) -> bool {
    v.caption matches Some(c) && gs.contains(c.group)
}

/// `after` is `before` with the cues of every group in `gs` numbered 0, 1,
/// 2, … in timeline order, and nothing else changed.
pub open spec fn renumbered(before: Map<u64, ClipView>, after: Map<u64, ClipView>, gs: Set<CaptionGroupId>) -> bool {
    &&& after.dom() == before.dom()
    &&& forall|k: u64| #[trigger] before.dom().contains(k) && !cue_of_any(before[k], gs) ==> after[k] == before[k]
    &&& forall|g: CaptionGroupId|
        #[trigger] gs.contains(g) ==> exists|order: Seq<u64>|
            cue_order(before, g, order) && (forall|i: int| 0 <= i < order.len() ==> after[#[trigger] order[i]] == with_index(before[order[i]], i))
}

/// Two clip maps agree on everything but cue numbers.
pub open spec fn same_but_numbers(a: Map<u64, ClipView>, b: Map<u64, ClipView>) -> bool {
    &&& b.dom() == a.dom()
    &&& forall|k: u64|
        #[trigger] a.dom().contains(k) ==> b[k].timeline == a[k].timeline && (b[k].caption is Some <==> a[k].caption is Some)
            && (a[k].caption is Some ==> b[k].caption->Some_0.group == a[k].caption->Some_0.group)
}

/// A group's timeline order only depends on which clips are its cues and
/// where they start.
pub proof fn lemma_cue_order_same(a: Map<u64, ClipView>, b: Map<u64, ClipView>, g: CaptionGroupId, order: Seq<u64>)
    requires
        same_but_numbers(a, b),
        cue_order(a, g, order),
    ensures
        cue_order(b, g, order),
{
    assert forall|k: u64| #[trigger] b.dom().contains(k) implies is_cue_in(b[k], g) == is_cue_in(a[k], g) by {
        assert(a.dom().contains(k));
    }
    assert forall|i: int, j: int| 0 <= i < j < order.len() implies cue_before(b, order[i], order[j]) by {
        assert(cue_before(a, order[i], order[j]));
        assert(a.dom().contains(order[i]) && a.dom().contains(order[j]));
    }
    assert forall|i: int| 0 <= i < order.len() implies b.dom().contains(#[trigger] order[i]) && is_cue_in(b[order[i]], g) by {
        assert(a.dom().contains(order[i]));
    }
    assert forall|k: u64| b.dom().contains(k) && #[trigger] is_cue_in(b[k], g) implies order.contains(k) by {
        assert(a.dom().contains(k));
        assert(is_cue_in(a[k], g));
    }
}

/// The groups listed in `gs`, as a set.
pub open spec fn group_set(gs: Seq<CaptionGroupId>) -> Set<CaptionGroupId> {
    Set::new(|g: CaptionGroupId| gs.contains(g))
}

/// Renumber the cues of each listed group (each listed once).
fn reindex_groups(project: &mut Project, gs: &Vec<CaptionGroupId>)
    requires
        old(project).wf(),
        forall|i: int, j: int| 0 <= i < j < gs@.len() ==> gs@[i] != gs@[j],
    ensures
        final(project).wf(),
        final(project).timeline.same_except_clips(&old(project).timeline),
        renumbered(old(project).timeline.clips_view(), final(project).timeline.clips_view(), group_set(gs@)),
{
    let ghost a = project.timeline.clips_view();
    let mut j: usize = 0;
    proof {
        assert(project.timeline.clips_view() =~= a);
        assert(group_set(gs@.take(0)) =~= Set::<CaptionGroupId>::empty());
    }
    while j < gs.len()
        invariant
            project.wf(),
            project.timeline.same_except_clips(&old(project).timeline),
            a == old(project).timeline.clips_view(),
            forall|i: int, k: int| 0 <= i < k < gs@.len() ==> gs@[i] != gs@[k],
            j <= gs@.len(),
            same_but_numbers(a, project.timeline.clips_view()),
            renumbered(a, project.timeline.clips_view(), group_set(gs@.take(j as int))),
        decreases gs@.len() - j,
    {
        let g = gs[j];
        let ghost c = project.timeline.clips_view();
        let ghost done = group_set(gs@.take(j as int));
        project.timeline.reindex_caption_group(g);
        proof {
            let c2 = project.timeline.clips_view();
            let order2 = choose|order: Seq<u64>| cue_order(c, g, order) && reindexed(c, c2, order);
            assert(!done.contains(g)) by {
                let t0 = gs@.take(j as int);
                if done.contains(g) {
                    let i = choose|i: int| 0 <= i < j && t0[i] == g;
                    assert(gs@[i] == gs@[j as int]);
                }
            }
            // The new numbering only touches cue numbers.
            assert forall|k: u64| #[trigger] c.dom().contains(k) implies c2[k].timeline == c[k].timeline && (c2[k].caption is Some
                <==> c[k].caption is Some) && (c[k].caption is Some ==> c2[k].caption->Some_0.group
                == c[k].caption->Some_0.group) by {
                if order2.contains(k) {
                    let i = choose|i: int| 0 <= i < order2.len() && order2[i] == k;
                    assert(c2[order2[i]] == with_index(c[order2[i]], i));
                }
            }
            assert(same_but_numbers(a, c2)) by {
                assert forall|k: u64| #[trigger] a.dom().contains(k) implies c2[k].timeline == a[k].timeline && (c2[k].caption is Some
                    <==> a[k].caption is Some) && (a[k].caption is Some ==> c2[k].caption->Some_0.group
                    == a[k].caption->Some_0.group) by {
                    assert(c.dom().contains(k));
                }
            }
            let order_a = order2;
            lemma_cue_order_same(c, a, g, order2);
            assert(same_but_numbers(c, a)) by {
                assert forall|k: u64| #[trigger] c.dom().contains(k) implies a[k].timeline == c[k].timeline && (a[k].caption is Some
                    <==> c[k].caption is Some) && (c[k].caption is Some ==> a[k].caption->Some_0.group
                    == c[k].caption->Some_0.group) by {
                    assert(a.dom().contains(k));
                }
            }
            lemma_cue_order_same(c, a, g, order2);
            let t1 = gs@.take(j + 1);
            let t0 = gs@.take(j as int);
            let done2 = group_set(t1);
            assert forall|h: CaptionGroupId| #[trigger] done2.contains(h) <==> (done.contains(h) || h == g) by {
                assert(t1[j as int] == g);
                if done2.contains(h) {
                    let i = choose|i: int| 0 <= i < j + 1 && t1[i] == h;
                    if i < j {
                        assert(t0[i] == h);
                    }
                }
                if done.contains(h) {
                    let i = choose|i: int| 0 <= i < j && t0[i] == h;
                    assert(t1[i] == h);
                }
            }
            assert forall|k: u64| #[trigger] a.dom().contains(k) && !cue_of_any(a[k], done2) implies c2[k] == a[k] by {
                assert(!cue_of_any(a[k], done));
                assert(c[k] == a[k]);
                if order2.contains(k) {
                    let i = choose|i: int| 0 <= i < order2.len() && order2[i] == k;
                    assert(is_cue_in(c[order2[i]], g));
                }
            }
            assert forall|h: CaptionGroupId| #[trigger] done2.contains(h) implies exists|order: Seq<u64>|
                cue_order(a, h, order) && (forall|i: int| 0 <= i < order.len() ==> c2[#[trigger] order[i]] == with_index(a[order[i]], i)) by {
                if h == g {
                    assert forall|i: int| 0 <= i < order2.len() implies c2[#[trigger] order2[i]] == with_index(a[order2[i]], i) by {
                        assert(is_cue_in(a[order2[i]], g));
                        assert(!cue_of_any(a[order2[i]], done));
                        assert(c[order2[i]] == a[order2[i]]);
                    }
                } else {
                    assert(done.contains(h));
                    let order = choose|order: Seq<u64>|
                        cue_order(a, h, order) && (forall|i: int| 0 <= i < order.len() ==> c[#[trigger] order[i]] == with_index(a[order[i]], i));
                    assert forall|i: int| 0 <= i < order.len() implies c2[#[trigger] order[i]] == with_index(a[order[i]], i) by {
                        assert(is_cue_in(a[order[i]], h));
                        if order2.contains(order[i]) {
                            let i2 = choose|i2: int| 0 <= i2 < order2.len() && order2[i2] == order[i];
                            assert(is_cue_in(c[order2[i2]], g));
                            assert(a.dom().contains(order[i]));
                        }
                    }
                }
            }
            assert(c2.dom() =~= a.dom());
        }
        j += 1;
    }
    proof {
        assert(gs@.take(gs@.len() as int) =~= gs@);
    }
}

/// The clip ids of a list of re-attachments.
pub open spec fn attach_ids(cues: Seq<(ClipId, CaptionCue)>) -> Seq<ClipId> {
    Seq::new(cues.len(), |i: int| cues[i].0)
}

/// Re-attaching the first `n` cues to clips that exist keeps the same clips.
proof fn lemma_attached_dom(m: Map<u64, ClipView>, cues: Seq<(ClipId, CaptionCue)>, n: int)
    requires
        0 <= n <= cues.len(),
        forall|i: int| 0 <= i < n ==> m.dom().contains((#[trigger] cues[i]).0.0),
    ensures
        attached(m, cues, n).dom() == m.dom(),
    decreases n,
{
    if n > 0 {
        lemma_attached_dom(m, cues, n - 1);
        assert(attached(m, cues, n).dom() =~= m.dom());
    }
}

impl RegroupCaptionCuesAction {
    /// File back the captured groups that are gone, re-attach each captured
    /// cue to its clip, and renumber the groups involved. The returned
    /// action ungroups the clips again.
    ///
    /// A group that cannot be filed stops before any cue is touched (the
    /// groups before it stay filed); a clip that no longer exists stops the
    /// re-attaching, with the cues before it attached and their groups
    /// renumbered.
    pub fn apply(self, project: &mut Project) -> (r: Result<CaptionAction, ModelError>)
        requires
            old(project).wf(),
        ensures
            final(project).wf(),
            regroup_applied(*old(project), *final(project), self, r),
    {
        let ghost t0 = project.timeline;
        let ghost gm = project.timeline.groups_view();
        let ghost m = project.timeline.clips_view();
        let ghost tracks = project.timeline.tracks_view();
        let ghost gs = self.groups@;
        let ghost cs = self.cues@;
        let mut i: usize = 0;
        while i < self.groups.len()
            invariant
                project.wf(),
                gs == self.groups@,
                project.timeline.tracks_view() == tracks,
                tracks == old(project).timeline.tracks_view(),
                gm == old(project).timeline.groups_view(),
                m == old(project).timeline.clips_view(),
                project.timeline.clips_view() == m,
                project.timeline.frame_rate == old(project).timeline.frame_rate,
                project.timeline.next_id >= old(project).timeline.next_id,
                i <= gs.len(),
                forall|k: int| 0 <= k < i ==> #[trigger] group_refilable(gm, tracks, gs, k),
                project.timeline.groups_view() == with_groups(gm, gs, i as int),
            decreases gs.len() - i,
        {
            let present = project.timeline.caption_group(self.groups[i].id).is_some();
            if !present {
                let g = self.groups[i].copy();
                match project.timeline.add_caption_group(g) {
                    Ok(_) => {},
                    Err(e) => {
                        assert(!group_refilable(gm, tracks, gs, i as int));
                        return Err(e);
                    },
                }
            }
            proof {
                assert(project.timeline.groups_view() =~= with_groups(gm, gs, i + 1));
            }
            i += 1;
        }
        let mut touched: Vec<CaptionGroupId> = Vec::new();
        let mut ids: Vec<ClipId> = Vec::new();
        let mut j: usize = 0;
        proof {
            assert(group_set(touched@) =~= cue_groups(cs.take(0)));
        }
        while j < self.cues.len()
            invariant
                project.wf(),
                cs == self.cues@,
                gs == self.groups@,
                project.timeline.tracks_view() == tracks,
                project.timeline.frame_rate == old(project).timeline.frame_rate,
                project.timeline.next_id >= old(project).timeline.next_id,
                tracks == old(project).timeline.tracks_view(),
                m == old(project).timeline.clips_view(),
                gm == old(project).timeline.groups_view(),
                forall|k: int| 0 <= k < gs.len() ==> #[trigger] group_refilable(gm, tracks, gs, k),
                project.timeline.groups_view() == with_groups(gm, gs, gs.len() as int),
                j <= cs.len(),
                forall|k: int| 0 <= k < j ==> m.dom().contains((#[trigger] cs[k]).0.0),
                project.timeline.clips_view() == attached(m, cs, j as int),
                forall|a: int, b: int| 0 <= a < b < touched@.len() ==> touched@[a] != touched@[b],
                group_set(touched@) == cue_groups(cs.take(j as int)),
                ids@ == attach_ids(cs).take(j as int),
            decreases cs.len() - j,
        {
            let id = self.cues[j].0;
            proof {
                lemma_attached_dom(m, cs, j as int);
            }
            let idx = match project.timeline.clip_index(id) {
                Some(idx) => idx,
                None => {
                    let ghost before = project.timeline.clips_view();
                    reindex_groups(project, &touched);
                    proof {
                        assert(!m.dom().contains(cs[j as int].0.0));
                        assert(renumbered(attached(m, cs, j as int), project.timeline.clips_view(), cue_groups(cs.take(j as int))));
                        assert(project.timeline.groups_view() == with_groups(gm, gs, gs.len() as int));
                        assert(id == cs[j as int].0);
                        assert(0 <= j < cs.len() && !m.dom().contains(cs[j as int].0.0)
                            && (forall|i: int| 0 <= i < j ==> m.dom().contains((#[trigger] cs[i]).0.0))
                            && project.timeline.groups_view() == with_groups(gm, gs, gs.len() as int)
                            && renumbered(attached(m, cs, j as int), project.timeline.clips_view(), cue_groups(cs.take(j as int))));
                    }
                    return Err(ModelError::UnknownClip(id));
                },
            };
            proof {
                project.timeline.lemma_clip_at(idx as int);
                project.timeline.lemma_clip_placed(idx as int);
            }
            let mut clip = project.timeline.clips[idx].copy();
            let cue = crate::timeline::copy_cue(&self.cues[j].1);
            let group = cue.group;
            clip.caption = Some(cue);
            project.timeline.put_clip(idx, clip);
            proof {
                assert(project.timeline.clips_view() =~= attached(m, cs, j + 1));
            }
            let mut seen = false;
            let mut a: usize = 0;
            while a < touched.len()
                invariant
                    a <= touched@.len(),
                    seen ==> touched@.contains(group),
                    !seen ==> forall|b: int| 0 <= b < a ==> touched@[b] != group,
                decreases touched@.len() - a,
            {
                if touched[a] == group {
                    seen = true;
                }
                a += 1;
            }
            let ghost before_touched = touched@;
            if !seen {
                touched.push(group);
            }
            ids.push(id);
            proof {
                assert(cs[j as int].1.group == group);
                let c1 = cs.take(j + 1);
                let c0 = cs.take(j as int);
                assert forall|h: CaptionGroupId| #[trigger] group_set(touched@).contains(h) <==> cue_groups(c1).contains(h) by {
                    assert(c1[j as int] == cs[j as int]);
                    if cue_groups(c1).contains(h) {
                        let i = choose|i: int| 0 <= i < c1.len() && (#[trigger] c1[i]).1.group == h;
                        if i < j {
                            assert(c0[i] == c1[i]);
                            assert(cue_groups(c0).contains(h));
                            assert(group_set(before_touched).contains(h));
                            let b = choose|b: int| 0 <= b < before_touched.len() && before_touched[b] == h;
                            assert(touched@[b] == h);
                        } else {
                            if seen {
                                assert(before_touched.contains(group));
                            } else {
                                assert(touched@[before_touched.len() as int] == group);
                            }
                        }
                    }
                    if group_set(touched@).contains(h) {
                        let b = choose|b: int| 0 <= b < touched@.len() && touched@[b] == h;
                        if b < before_touched.len() {
                            assert(group_set(before_touched).contains(h));
                            assert(cue_groups(c0).contains(h));
                            let i = choose|i: int| 0 <= i < c0.len() && (#[trigger] c0[i]).1.group == h;
                            assert(c1[i] == c0[i]);
                        } else {
                            assert(c1[j as int].1.group == h);
                        }
                    }
                }
                assert(group_set(touched@) =~= cue_groups(c1));
                assert(ids@ =~= attach_ids(cs).take(j + 1));
            }
            j += 1;
        }
        reindex_groups(project, &touched);
        proof {
            assert(cs.take(cs.len() as int) =~= cs);
            assert(attach_ids(cs).take(cs.len() as int) =~= attach_ids(cs));
        }
        Ok(CaptionAction::Ungroup(UngroupCaptionCuesAction { clips: ids }))
    }
}

/// What stops capturing listed clip `i` before an ungroup: `0` nothing, `1`
/// no such clip, `2` it is no cue, `3` its group record is gone.
pub open spec fn capture_fault(t: Timeline, clips: Seq<ClipId>, i: int) -> int {
    let m = t.clips_view();
    let k = clips[i].0;
    if !m.dom().contains(k) {
        1
    } else if m[k].caption is None {
        2
    } else if !t.groups_view().dom().contains(m[k].caption->Some_0.group.0) {
        3
    } else {
        0
    }
}

/// The error a capture fault of kind `kind` at clip `id` reports.
pub open spec fn capture_error(t: Timeline, id: ClipId, kind: int, e: ModelError) -> bool {
    if kind == 1 {
        e == ModelError::UnknownClip(id)
    } else if kind == 2 {
        e == ModelError::NotACaptionCue(id)
    } else {
        e == ModelError::UnknownCaptionGroup(t.clips_view()[id.0].caption->Some_0.group)
    }
}

/// `a` captures the listed clips' cues as they are in `t`, and each of
/// their groups once.
pub open spec fn regroup_captures(t: Timeline, clips: Seq<ClipId>, a: RegroupCaptionCuesAction) -> bool {
    let m = t.clips_view();
    let gm = t.groups_view();
    &&& a.cues@.len() == clips.len()
    &&& forall|i: int|
        0 <= i < clips.len() ==> (#[trigger] a.cues@[i]).0 == clips[i] && Some(cue_view(a.cues@[i].1))
            == m[clips[i].0].caption
    &&& forall|i: int|
        0 <= i < a.groups@.len() ==> gm.dom().contains((#[trigger] a.groups@[i]).id.0) && group_view(a.groups@[i])
            == gm[a.groups@[i].id.0] && t.tracks_view().dom().contains(a.groups@[i].track.0) && a.groups@[i].id.0
            < u64::MAX
    &&& forall|i: int|
        0 <= i < clips.len() ==> exists|j: int|
            0 <= j < a.groups@.len() && (#[trigger] a.groups@[j]).id == (#[trigger] a.cues@[i]).1.group
}

/// Detach cues from their groups; the undo re-attaches them (and files back
/// groups the last leaving member dropped).
pub fn ungroup(project: &mut Project, clips: &[ClipId]) -> (r: Result<CaptionAction, ModelError>)
    requires
        old(project).wf(),
    ensures
        final(project).wf(),
        ({
            let t = old(project).timeline;
            let m = t.clips_view();
            let capture_ok = forall|i: int| 0 <= i < clips@.len() ==> #[trigger] capture_fault(t, clips@, i) == 0;
            let ungroup_ok = forall|i: int| 0 <= i < clips@.len() ==> #[trigger] ungroup_fault(m, clips@, i) == 0;
            &&& r is Ok <==> capture_ok && ungroup_ok
            &&& !capture_ok ==> final(project).same_timeline(old(project)) && exists|k: int|
                0 <= k < clips@.len() && #[trigger] capture_fault(t, clips@, k) != 0 && (forall|i: int|
                    0 <= i < k ==> #[trigger] capture_fault(t, clips@, i) == 0) && (r matches Err(e) && capture_error(
                    t,
                    clips@[k],
                    capture_fault(t, clips@, k),
                    e,
                ))
            &&& r is Ok ==> {
                let after = ungrouped(m, clips@, clips@.len() as int);
                &&& final(project).timeline.clips_view() == after
                &&& final(project).timeline.groups_view() == t.groups_view().restrict(
                    Set::new(|g: u64| group_in_use(after, g)),
                )
                &&& final(project).timeline.tracks_view() == t.tracks_view()
                &&& r->Ok_0 matches CaptionAction::Regroup(a) && regroup_captures(t, clips@, a)
            }
        }),
{
    let ghost t = project.timeline;
    let mut groups: Vec<CaptionGroup> = Vec::new();
    let mut cues: Vec<(ClipId, CaptionCue)> = Vec::new();
    let mut i: usize = 0;
    while i < clips.len()
        invariant
            project.wf(),
            t == project.timeline,
            i <= clips@.len(),
            forall|k: int| 0 <= k < i ==> #[trigger] capture_fault(t, clips@, k) == 0,
            cues@.len() == i,
            forall|k: int|
                0 <= k < i ==> (#[trigger] cues@[k]).0 == clips@[k] && Some(cue_view(cues@[k].1))
                    == t.clips_view()[clips@[k].0].caption,
            forall|k: int|
                0 <= k < groups@.len() ==> t.groups_view().dom().contains((#[trigger] groups@[k]).id.0) && group_view(groups@[k])
                    == t.groups_view()[groups@[k].id.0] && t.tracks_view().dom().contains(groups@[k].track.0)
                    && groups@[k].id.0 < u64::MAX,
            forall|k: int|
                0 <= k < i ==> exists|j: int|
                    0 <= j < groups@.len() && (#[trigger] groups@[j]).id == (#[trigger] cues@[k]).1.group,
        decreases clips@.len() - i,
    {
        let id = clips[i];
        let ghost gstart = groups@;
        let ghost cstart = cues@;
        let c = match project.timeline.clip(id) {
            Some(c) => c,
            None => {
                assert(capture_fault(t, clips@, i as int) == 1);
                return Err(ModelError::UnknownClip(id));
            },
        };
        let cue = match &c.caption {
            Some(cue) => crate::timeline::copy_cue(cue),
            None => {
                assert(capture_fault(t, clips@, i as int) == 2);
                return Err(ModelError::NotACaptionCue(id));
            },
        };
        let mut found = false;
        let mut a: usize = 0;
        while a < groups.len()
            invariant
                a <= groups@.len(),
                found ==> exists|j: int| 0 <= j < groups@.len() && (#[trigger] groups@[j]).id == cue.group,
            decreases groups@.len() - a,
        {
            if groups[a].id == cue.group {
                found = true;
            }
            a += 1;
        }
        if !found {
            let g = match project.timeline.caption_group(cue.group) {
                Some(g) => g.copy(),
                None => {
                    assert(capture_fault(t, clips@, i as int) == 3);
                    return Err(ModelError::UnknownCaptionGroup(cue.group));
                },
            };
            proof {
                let gi = project.timeline.group_slot(cue.group);
                project.timeline.lemma_group_placed(gi);
                project.timeline.lemma_ids_below();
            }
            groups.push(g);
        }
        proof {
            if found {
                let j = choose|j: int| 0 <= j < groups@.len() && (#[trigger] groups@[j]).id == cue.group;
                assert(project.timeline.groups_view().dom().contains(groups@[j].id.0));
            }
            assert(capture_fault(t, clips@, i as int) == 0);
        }
        let ghost g0 = groups@;
        cues.push((id, cue));
        proof {
            assert forall|k: int| 0 <= k < i + 1 implies exists|j: int|
                0 <= j < groups@.len() && (#[trigger] groups@[j]).id == (#[trigger] cues@[k]).1.group by {
                if k < i {
                    assert(cues@[k] == cstart[k]);
                    let j = choose|j: int| 0 <= j < gstart.len() && (#[trigger] gstart[j]).id == (#[trigger] cstart[k]).1.group;
                    assert(groups@[j] == gstart[j]);
                } else if !found {
                    assert(groups@[groups@.len() - 1].id == cue.group);
                }
            }
        }
        i += 1;
    }
    match project.ungroup_caption_cues(clips) {
        Ok(()) => {},
        Err(e) => {
            return Err(e);
        },
    }
    let a = RegroupCaptionCuesAction { groups, cues };
    assert(regroup_captures(t, clips@, a));
    Ok(CaptionAction::Regroup(a))
}

impl UngroupCaptionCuesAction {
    /// Ungroup the clips again; the inverse re-attaches them.
    pub fn apply(self, project: &mut Project) -> (r: Result<CaptionAction, ModelError>)
        requires
            old(project).wf(),
        ensures
            final(project).wf(),
            ungroup_applied(*old(project), *final(project), self, r),
    {
        ungroup(project, self.clips.as_slice())
    }
}

/// What removing `act.group` from `before` leaves, and the action that
/// puts it back.
pub open spec fn remove_applied(
    before: Project,
    after: Project,
    act: RemoveCaptionGroupAction,
    r: Result<CaptionAction, ModelError>,
) -> bool {
    &&& after.timeline.tracks_view() == before.timeline.tracks_view()
    &&& r is Ok <==> before.timeline.groups_view().dom().contains(act.group.0)
    &&& r is Err ==> r == Err::<CaptionAction, ModelError>(ModelError::UnknownCaptionGroup(act.group))
        && after.same_timeline(&before)
    &&& r is Ok ==> {
        &&& after.timeline.clips_view() == without_cues(before.timeline.clips_view(), act.group)
        &&& after.timeline.groups_view() == before.timeline.groups_view().remove(act.group.0)
    }
    &&& r matches Ok(CaptionAction::Restore(a)) ==> a.group.id == act.group && group_view(a.group)
        == before.timeline.groups_view()[act.group.0] && captures(before.timeline.clips_view(), act.group, a.cues@)
    &&& r is Ok ==> r matches Ok(CaptionAction::Restore(_))
}

/// `m` is `base` with the first few of `cues` filed back (a restore that
/// stopped at a clip it could not file).
pub open spec fn partly_restored(m: Map<u64, ClipView>, base: Map<u64, ClipView>, cues: Seq<Clip>) -> bool {
    exists|k: int| 0 <= k <= cues.len() && m == #[trigger] with_clips(base, cues, k)
}

/// What putting `act`'s group and cues back into `before` leaves, and the
/// action that reverses it.
pub open spec fn restore_applied(
    before: Project,
    after: Project,
    act: RestoreCaptionGroupAction,
    r: Result<CaptionAction, ModelError>,
) -> bool {
    &&& after.timeline.tracks_view() == before.timeline.tracks_view()
    &&& {
        let t = before.timeline;
        let id = act.group.id;
        let present = t.groups_view().dom().contains(id.0);
        let base = if present {
            without_cues(t.clips_view(), id)
        } else {
            t.clips_view()
        };
        &&& r is Ok <==> (t.tracks_view().dom().contains(act.group.track.0) && id.0 < u64::MAX
            && (!present ==> !t.groups_view().dom().contains(id.0)) && clips_addable(
            base,
            t.tracks_view(),
            act.cues@,
            act.cues@.len() as int,
        ))
        &&& r is Ok ==> after.timeline.clips_view() == with_clips(
            base,
            act.cues@,
            act.cues@.len() as int,
        ) && after.timeline.groups_view() == t.groups_view().remove(id.0).insert(
            id.0,
            group_view(act.group),
        )
        &&& present && r is Ok ==> (r matches Ok(CaptionAction::Restore(a)) && a.group.id == id
            && group_view(a.group) == t.groups_view()[id.0] && captures(t.clips_view(), id, a.cues@))
        &&& !present && r is Ok ==> r == Ok::<CaptionAction, ModelError>(
            CaptionAction::Remove(RemoveCaptionGroupAction { group: id }),
        )
        &&& r is Err ==> after.timeline.groups_view() == (if present {
            t.groups_view().remove(id.0)
        } else {
            t.groups_view()
        }) && partly_restored(after.timeline.clips_view(), base, act.cues@)
    }
}

/// What re-attaching `act`'s cues in `before` leaves, and the action that
/// ungroups them again.
pub open spec fn regroup_applied(
    before: Project,
    after: Project,
    act: RegroupCaptionCuesAction,
    r: Result<CaptionAction, ModelError>,
) -> bool {
    &&& after.timeline.tracks_view() == before.timeline.tracks_view()
    &&& {
        let t = before.timeline;
        let gm = t.groups_view();
        let m = t.clips_view();
        let gs = act.groups@;
        let cs = act.cues@;
        let groups_ok = forall|i: int| 0 <= i < gs.len() ==> #[trigger] group_refilable(gm, t.tracks_view(), gs, i);
        let attach_ok = forall|i: int| 0 <= i < cs.len() ==> m.dom().contains((#[trigger] cs[i]).0.0);
        &&& r is Ok <==> groups_ok && attach_ok
        &&& r is Ok ==> {
            &&& r == Ok::<CaptionAction, ModelError>(CaptionAction::Ungroup(UngroupCaptionCuesAction { clips: r->Ok_0->Ungroup_0.clips }))
            &&& r->Ok_0->Ungroup_0.clips@ == attach_ids(cs)
            &&& after.timeline.groups_view() == with_groups(gm, gs, gs.len() as int)
            &&& renumbered(attached(m, cs, cs.len() as int), after.timeline.clips_view(), cue_groups(cs))
        }
        &&& !groups_ok ==> (r is Err && exists|k: int|
            0 <= k < gs.len() && !#[trigger] group_refilable(gm, t.tracks_view(), gs, k)
                && (forall|i: int| 0 <= i < k ==> #[trigger] group_refilable(gm, t.tracks_view(), gs, i))
                && after.timeline.groups_view() == with_groups(gm, gs, k)
                && after.timeline.clips_view() == m)
        &&& groups_ok && !attach_ok ==> exists|k: int|
            0 <= k < cs.len() && !m.dom().contains((#[trigger] cs[k]).0.0)
                && (forall|i: int| 0 <= i < k ==> m.dom().contains((#[trigger] cs[i]).0.0))
                && r == Err::<CaptionAction, ModelError>(ModelError::UnknownClip(cs[k].0))
                && after.timeline.groups_view() == with_groups(gm, gs, gs.len() as int)
                && renumbered(attached(m, cs, k), after.timeline.clips_view(), cue_groups(cs.take(k)))
    }
}

/// What ungrouping `act.clips` in `before` leaves, and the action that
/// re-attaches them.
pub open spec fn ungroup_applied(
    before: Project,
    after: Project,
    act: UngroupCaptionCuesAction,
    r: Result<CaptionAction, ModelError>,
) -> bool {
    &&& {
        let t = before.timeline;
        let m = t.clips_view();
        let clips = act.clips@;
        let capture_ok = forall|i: int| 0 <= i < clips.len() ==> #[trigger] capture_fault(t, clips, i) == 0;
        let ungroup_ok = forall|i: int| 0 <= i < clips.len() ==> #[trigger] ungroup_fault(m, clips, i) == 0;
        &&& r is Ok <==> capture_ok && ungroup_ok
        &&& !capture_ok ==> after.same_timeline(&before)
        &&& r is Ok ==> {
            let left = ungrouped(m, clips, clips.len() as int);
            &&& after.timeline.clips_view() == left
            &&& after.timeline.groups_view() == t.groups_view().restrict(
                Set::new(|g: u64| group_in_use(left, g)),
            )
            &&& r->Ok_0 matches CaptionAction::Regroup(a) && regroup_captures(t, clips, a)
        }
    }
}

impl CaptionAction {
    /// Apply the action; the result is the action that reverses it.
    pub fn apply(self, project: &mut Project) -> (r: Result<CaptionAction, ModelError>)
        requires
            old(project).wf(),
        ensures
            final(project).wf(),
            match self {
                CaptionAction::Remove(a) => remove_applied(*old(project), *final(project), a, r),
                CaptionAction::Restore(a) => restore_applied(*old(project), *final(project), a, r),
                CaptionAction::Regroup(a) => regroup_applied(*old(project), *final(project), a, r),
                CaptionAction::Ungroup(a) => ungroup_applied(*old(project), *final(project), a, r),
            },
    {
        match self {
            CaptionAction::Remove(a) => a.apply(project),
            CaptionAction::Restore(a) => a.apply(project),
            CaptionAction::Regroup(a) => a.apply(project),
            CaptionAction::Ungroup(a) => a.apply(project),
        }
    }
}

/// Detaching the listed clips one after another (none refused) clears
/// exactly their captions; no clip is listed twice.
proof fn lemma_ungrouped(m: Map<u64, ClipView>, ids: Seq<ClipId>, n: int)
    requires
        0 <= n <= ids.len(),
        forall|i: int| 0 <= i < n ==> #[trigger] ungroup_fault(m, ids, i) == 0,
    ensures
        ungrouped(m, ids, n).dom() == m.dom(),
        forall|i: int| 0 <= i < n ==> m.dom().contains((#[trigger] ids[i]).0) && m[ids[i].0].caption is Some,
        forall|i: int, j: int| 0 <= i < j < n ==> (#[trigger] ids[i]).0 != (#[trigger] ids[j]).0,
        forall|k: u64|
            #[trigger] m.dom().contains(k) ==> ungrouped(m, ids, n)[k] == if exists|i: int| 0 <= i < n && (#[trigger] ids[i]).0 == k {
                ClipView { caption: None, ..m[k] }
            } else {
                m[k]
            },
    decreases n,
{
    if n > 0 {
        lemma_ungrouped(m, ids, n - 1);
        let prev = ungrouped(m, ids, n - 1);
        let cur = ungrouped(m, ids, n);
        let key = ids[n - 1].0;
        assert(ungroup_fault(m, ids, n - 1) == 0);
        assert(prev.dom().contains(key) && prev[key].caption is Some);
        assert(cur.dom() =~= m.dom());
        if exists|i: int| 0 <= i < n - 1 && (#[trigger] ids[i]).0 == key {
            let i = choose|i: int| 0 <= i < n - 1 && (#[trigger] ids[i]).0 == key;
            assert(prev[key].caption is None);
        }
        assert(prev[key] == m[key]);
        assert forall|i: int, j: int| 0 <= i < j < n implies (#[trigger] ids[i]).0 != (#[trigger] ids[j]).0 by {
            if j == n - 1 {
                if ids[i].0 == key {
                    assert(exists|i2: int| 0 <= i2 < n - 1 && (#[trigger] ids[i2]).0 == key);
                }
            }
        }
        assert forall|k: u64| #[trigger] m.dom().contains(k) implies cur[k] == if exists|i: int|
            0 <= i < n && (#[trigger] ids[i]).0 == k {
            ClipView { caption: None, ..m[k] }
        } else {
            m[k]
        } by {
            if k == key {
                assert(ids[n - 1].0 == k);
            } else {
                if exists|i: int| 0 <= i < n && (#[trigger] ids[i]).0 == k {
                    let i = choose|i: int| 0 <= i < n && (#[trigger] ids[i]).0 == k;
                    assert(i < n - 1);
                    assert(exists|i2: int| 0 <= i2 < n - 1 && (#[trigger] ids[i2]).0 == k);
                } else {
                    assert(!exists|i2: int| 0 <= i2 < n - 1 && (#[trigger] ids[i2]).0 == k);
                }
            }
        }
    }
}

/// Re-attaching cues to distinct existing clips sets exactly their
/// captions.
proof fn lemma_attached(m: Map<u64, ClipView>, cues: Seq<(ClipId, CaptionCue)>, n: int)
    requires
        0 <= n <= cues.len(),
        forall|i: int| 0 <= i < n ==> m.dom().contains((#[trigger] cues[i]).0.0),
        forall|i: int, j: int| 0 <= i < j < n ==> (#[trigger] cues[i]).0.0 != (#[trigger] cues[j]).0.0,
    ensures
        attached(m, cues, n).dom() == m.dom(),
        forall|i: int|
            0 <= i < n ==> attached(m, cues, n)[(#[trigger] cues[i]).0.0] == (ClipView {
                caption: Some(cue_view(cues[i].1)),
                ..m[cues[i].0.0]
            }),
        forall|k: u64|
            #[trigger] m.dom().contains(k) && (forall|i: int| 0 <= i < n ==> (#[trigger] cues[i]).0.0 != k) ==> attached(
                m,
                cues,
                n,
            )[k] == m[k],
    decreases n,
{
    lemma_attached_dom(m, cues, n);
    if n > 0 {
        lemma_attached(m, cues, n - 1);
    }
}

/// Filing groups back over a subset of `gm` gives part of `gm` again.
proof fn lemma_with_groups(base: Map<u64, GroupView>, gm: Map<u64, GroupView>, gs: Seq<CaptionGroup>, n: int)
    requires
        0 <= n <= gs.len(),
        forall|k: u64| #[trigger] base.dom().contains(k) ==> gm.dom().contains(k) && base[k] == gm[k],
        forall|i: int| 0 <= i < gs.len() ==> gm.dom().contains((#[trigger] gs[i]).id.0) && group_view(gs[i]) == gm[gs[i].id.0],
    ensures
        forall|k: u64|
            #[trigger] with_groups(base, gs, n).dom().contains(k) <==> (base.dom().contains(k) || exists|i: int|
                0 <= i < n && (#[trigger] gs[i]).id.0 == k),
        forall|k: u64| #[trigger] with_groups(base, gs, n).dom().contains(k) ==> with_groups(base, gs, n)[k] == gm[k],
    decreases n,
{
    if n > 0 {
        lemma_with_groups(base, gm, gs, n - 1);
        let prev = with_groups(base, gs, n - 1);
        let cur = with_groups(base, gs, n);
        assert forall|k: u64| #[trigger] cur.dom().contains(k) <==> (base.dom().contains(k) || exists|i: int|
            0 <= i < n && (#[trigger] gs[i]).id.0 == k) by {
            if exists|i: int| 0 <= i < n && (#[trigger] gs[i]).id.0 == k {
                let i = choose|i: int| 0 <= i < n && (#[trigger] gs[i]).id.0 == k;
                if i < n - 1 {
                    assert(exists|i2: int| 0 <= i2 < n - 1 && (#[trigger] gs[i2]).id.0 == k);
                }
            }
            if prev.dom().contains(k) && !base.dom().contains(k) {
                let i = choose|i: int| 0 <= i < n - 1 && (#[trigger] gs[i]).id.0 == k;
                assert(0 <= i < n && gs[i].id.0 == k);
            }
        }
    }
}

/// Ungroup's undo re-attaches exactly what was there.
///
/// Ungroup clips of a timeline (clips `m`, groups `gm`) where every group
/// still has a cue and every group involved is numbered in timeline order,
/// capturing as `ungroup` does. Then the captured groups can all be filed
/// back and every captured clip still exists, so the regroup succeeds; it
/// files back exactly the groups there were, and whatever renumbering of the
/// re-attached cues it makes gives back exactly the clips there were.
pub proof fn law_regroup_undoes_ungroup(
    t: Timeline,
    clips: Seq<ClipId>,
    a: RegroupCaptionCuesAction,
    after: Map<u64, ClipView>,
)
    requires
        forall|i: int| 0 <= i < clips.len() ==> #[trigger] ungroup_fault(t.clips_view(), clips, i) == 0,
        regroup_captures(t, clips, a),
        forall|g: u64| #[trigger] t.groups_view().dom().contains(g) ==> group_in_use(t.clips_view(), g),
        forall|g: CaptionGroupId, order: Seq<u64>|
            #[trigger] cue_groups(a.cues@).contains(g) && #[trigger] cue_order(t.clips_view(), g, order) ==> forall|i: int|
                0 <= i < order.len() ==> with_index(t.clips_view()[#[trigger] order[i]], i) == t.clips_view()[order[i]],
        renumbered(
            attached(ungrouped(t.clips_view(), clips, clips.len() as int), a.cues@, a.cues@.len() as int),
            after,
            cue_groups(a.cues@),
        ),
    ensures
        ({
            let m = t.clips_view();
            let u = ungrouped(m, clips, clips.len() as int);
            let ug = t.groups_view().restrict(Set::new(|g: u64| group_in_use(u, g)));
            &&& forall|i: int| 0 <= i < a.groups@.len() ==> #[trigger] group_refilable(ug, t.tracks_view(), a.groups@, i)
            &&& forall|i: int| 0 <= i < a.cues@.len() ==> u.dom().contains((#[trigger] a.cues@[i]).0.0)
            &&& with_groups(ug, a.groups@, a.groups@.len() as int) == t.groups_view()
            &&& after == m
        }),
{
    let m = t.clips_view();
    let gm = t.groups_view();
    let n = clips.len() as int;
    let cs = a.cues@;
    let gs = a.groups@;
    lemma_ungrouped(m, clips, n);
    let u = ungrouped(m, clips, n);
    let ug = gm.restrict(Set::new(|g: u64| group_in_use(u, g)));
    assert forall|i: int| 0 <= i < cs.len() implies u.dom().contains((#[trigger] cs[i]).0.0) by {
        assert(cs[i].0 == clips[i]);
    }
    assert forall|i: int, j: int| 0 <= i < j < cs.len() implies (#[trigger] cs[i]).0.0 != (#[trigger] cs[j]).0.0 by {
        assert(cs[i].0 == clips[i] && cs[j].0 == clips[j]);
    }
    lemma_attached(u, cs, cs.len() as int);
    let r = attached(u, cs, cs.len() as int);
    // The captions come back: attaching undoes ungrouping.
    assert forall|k: u64| #[trigger] m.dom().contains(k) implies r[k] == m[k] by {
        if exists|i: int| 0 <= i < cs.len() && (#[trigger] cs[i]).0.0 == k {
            let i = choose|i: int| 0 <= i < cs.len() && (#[trigger] cs[i]).0.0 == k;
            assert(cs[i].0 == clips[i]);
            assert(exists|i2: int| 0 <= i2 < n && (#[trigger] clips[i2]).0 == k);
            assert(u[k] == ClipView { caption: None, ..m[k] });
        } else {
            assert forall|i: int| 0 <= i < n implies (#[trigger] clips[i]).0 != k by {
                assert(cs[i].0 == clips[i]);
            }
        }
    }
    assert(r =~= m);
    // The renumbering changes nothing, as the groups were numbered already.
    let gset = cue_groups(cs);
    assert forall|k: u64| #[trigger] m.dom().contains(k) implies after[k] == m[k] by {
        if cue_of_any(m[k], gset) {
            let g = m[k].caption->Some_0.group;
            let order = choose|order: Seq<u64>|
                cue_order(r, g, order) && (forall|i: int| 0 <= i < order.len() ==> after[#[trigger] order[i]] == with_index(r[order[i]], i));
            assert(is_cue_in(m[k], g));
            assert(order.contains(k));
            let i = choose|i: int| 0 <= i < order.len() && order[i] == k;
            assert(after[order[i]] == with_index(m[order[i]], i));
        }
    }
    assert(after =~= m);
    // The groups come back.
    assert forall|k: u64| #[trigger] ug.dom().contains(k) implies gm.dom().contains(k) && ug[k] == gm[k] by {}
    lemma_with_groups(ug, gm, gs, gs.len() as int);
    let w = with_groups(ug, gs, gs.len() as int);
    assert forall|k: u64| #[trigger] w.dom().contains(k) <==> gm.dom().contains(k) by {
        if gm.dom().contains(k) && !ug.dom().contains(k) {
            assert(group_in_use(m, k));
            let c = choose|c: u64| m.dom().contains(c) && #[trigger] is_cue_in(m[c], CaptionGroupId(k));
            if exists|i: int| 0 <= i < n && (#[trigger] clips[i]).0 == c {
                let i = choose|i: int| 0 <= i < n && (#[trigger] clips[i]).0 == c;
                assert(cs[i].0 == clips[i]);
                assert(Some(cue_view(cs[i].1)) == m[c].caption);
                let j = choose|j: int| 0 <= j < gs.len() && (#[trigger] gs[j]).id == (#[trigger] cs[i]).1.group;
                assert(gs[j].id.0 == k);
            } else {
                assert(u[c] == m[c]);
                assert(u.dom().contains(c) && is_cue_in(u[c], CaptionGroupId(k)));
                assert(group_in_use(u, k));
            }
        }
        if w.dom().contains(k) && !ug.dom().contains(k) {
            let i = choose|i: int| 0 <= i < gs.len() && (#[trigger] gs[i]).id.0 == k;
        }
    }
    assert(w =~= gm);
}

} // verus!
