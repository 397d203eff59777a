//! The caption tools an assistant may call, and how a call turns into one
//! caption edit or a refusal that says what was wrong.
//!
//! A caption cue *is* a text clip, so trimming or moving one needs no tool of
//! its own; what needs its own vocabulary is the group, and the few cue edits
//! that must keep word timings and group numbering intact.

use vstd::prelude::*;

use crate::caption::highlight::CaptionHighlightMode;
use crate::caption::template::{caption_template_catalog, caption_template_spec, template_id, template_index};
use crate::format::{dec, padded, push_padded};
use crate::caption::group::CaptionSource;
use crate::caption::spec::CaptionCueSpec;
use crate::ids::{CaptionGroupId, ClipId, TrackId};
use crate::project::{CaptionGroupSpec, Project};
use crate::time::{RationalTime, TimeRange};
use crate::projection::{ascending, caption_group_ids, group_raws};
use crate::text::{blank, chars_of, is_blank, push_str, string_of};
use crate::timeline::{clip_view, copy_opt, group_view, opt_view, raw_ids, CaptionGroup, Clip, ClipView, TrackKind};

verus! {

/// Remove a caption group and every line it owns.
#[derive(Debug, Clone, PartialEq, Eq)]
pub struct RemoveCaptions {
    /// Caption group id.
    pub group: u64,
}

/// Restyle a whole caption group from the template catalog.
#[derive(Debug, Clone, PartialEq, Eq)]
pub struct SetCaptionTemplate {
    pub group: u64,
    /// Template id: clean, bold_box, karaoke_pop, glow, outline, multiline.
    pub template: String,
}

/// How a caption group picks out the word being spoken.
#[derive(Debug, Clone, Copy, PartialEq, Eq, Structural)]
pub enum WireCaptionHighlightMode {
    /// No highlight; every line renders in one color.
    Off,
    /// Recolor the word being spoken (karaoke).
    Word,
    /// Recolor every word up to the one being spoken (progressive fill).
    Line,
}

impl WireCaptionHighlightMode {
    /// The highlight a group gets: none for `Off`, which clears it rather
    /// than storing a disabled one.
    pub fn mode(self) -> (r: Option<CaptionHighlightMode>)
        ensures
            r == match self {
                WireCaptionHighlightMode::Off => None,
                WireCaptionHighlightMode::Word => Some(CaptionHighlightMode::Word),
                WireCaptionHighlightMode::Line => Some(CaptionHighlightMode::Line),
            },
    {
        match self {
            WireCaptionHighlightMode::Off => None,
            WireCaptionHighlightMode::Word => Some(CaptionHighlightMode::Word),
            WireCaptionHighlightMode::Line => Some(CaptionHighlightMode::Line),
        }
    }
}

/// Reword one caption line. Word timings ride along, remapped onto the new
/// text.
#[derive(Debug, Clone, PartialEq, Eq)]
pub struct SetCaptionText {
    /// The caption cue clip to edit.
    pub clip: u64,
    /// The corrected line.
    pub text: String,
    /// Speaker label for the line.
    pub speaker: Option<String>,
}

/// Merge caption lines of one group into the earliest, joining their text.
#[derive(Debug, Clone, PartialEq, Eq)]
pub struct MergeCaptions {
    /// Two or more cue clips of the same caption group.
    pub clips: Vec<u64>,
}

/// A caption edit a tool call lowers to.
#[derive(Debug)]
pub enum CaptionEdit {
    /// Replace a cue's text (and speaker); the cue's word timings are
    /// remapped onto the new text rather than dropped.
    SetCaptionCue { clip: ClipId, text: String, speaker: Option<String> },
    /// Merge these cues of one group into the earliest.
    MergeCaptionCues { clips: Vec<ClipId> },
    /// Split a caption cue, dividing its text and word timings.
    SplitCaptionCue { clip: ClipId, at: RationalTime },
    /// Split an ordinary clip.
    SplitClip { clip: ClipId, at: RationalTime },
}

/// Why a tool call was refused.
#[derive(Debug)]
pub enum Rejection {
    /// No caption group has this id; `existing` lists, in id order, the ids
    /// that do.
    UnknownGroup { group: u64, existing: Vec<u64> },
    /// No clip has this id.
    UnknownClip { clip: u64 },
    /// The clip is an ordinary title, not a caption cue.
    NotACue { clip: u64 },
    /// No catalog template has this id.
    UnknownTemplate { template: String },
    /// A cue edit with nothing to show.
    BlankText { clip: u64 },
    /// A merge naming fewer than two cues.
    TooFewClips,
    /// A merge naming more cues than one call may.
    TooManyClips { count: usize, max: usize },
    /// A merge reaching into a second group.
    CrossGroup { clip: u64, group: u64, first: u64 },
    /// A merge naming the same cue twice.
    Repeated { clip: u64 },
    /// No track has this id.
    UnknownTrack { track: u64 },
    /// Captions asked for on a lane that is not a text lane.
    NotTextLane { track: u64, kind: TrackKind },
    /// An `add_captions` call with no cues.
    NoCues,
    /// An `add_captions` call with more cues than one call may carry.
    TooManyCues { count: usize, max: usize },
    /// A cue of an `add_captions` call with nothing to show.
    NoText { index: usize },
    /// A cue of an `add_captions` call starting before the previous one ends.
    OutOfOrder { index: usize, start: i64, previous_end: i64 },
}

/// The most cues one `add_captions` call may carry.
pub const MAX_WIRE_CAPTION_CUES: usize = 200;

/// A lane kind as the caller names it.
pub open spec fn kind_name(kind: TrackKind) -> Seq<char> {
    match kind {
        TrackKind::Video => "video"@,
        TrackKind::Audio => "audio"@,
        TrackKind::Text => "text"@,
    }
}

/// `x` in decimal, with a leading `-` when negative.
pub open spec fn signed_dec(x: int) -> Seq<char> {
    if x < 0 {
        seq!['-'] + dec((-x) as nat)
    } else {
        dec(x as nat)
    }
}

/// `ids` in decimal, separated by `", "`.
pub open spec fn joined_ids(ids: Seq<u64>) -> Seq<char>
    decreases ids.len(),
{
    if ids.len() == 0 {
        Seq::empty()
    } else if ids.len() == 1 {
        dec(ids[0] as nat)
    } else {
        joined_ids(ids.drop_last()) + seq![',', ' '] + dec(ids.last() as nat)
    }
}

/// The first `n` catalog ids, separated by `", "`.
pub open spec fn template_ids_upto(n: int) -> Seq<char>
    decreases n,
{
    if n <= 0 {
        Seq::empty()
    } else if n == 1 {
        template_id(0)
    } else {
        template_ids_upto(n - 1) + seq![',', ' '] + template_id(n - 1)
    }
}

/// Every catalog id, in catalog order, separated by `", "`.
pub open spec fn template_ids_text() -> Seq<char> {
    template_ids_upto(6)
}

impl Rejection {
    /// What the caller is told.
    pub open spec fn message_spec(self) -> Seq<char> {
        match self {
            Rejection::UnknownGroup { group, existing } => "caption group "@ + dec(group as nat)
                + " does not exist; caption groups: "@ + joined_ids(existing@),
            Rejection::UnknownClip { clip } => "clip "@ + dec(clip as nat) + " does not exist"@,
            Rejection::NotACue { clip } => "clip "@ + dec(clip as nat)
                + " is not a caption cue; caption tools only work on clips in a caption group (see describe_project). Use set_generator to edit a plain title"@,
            Rejection::UnknownTemplate { template } => "unknown caption template '"@ + template@
                + "'; available templates: "@ + template_ids_text(),
            Rejection::BlankText { clip } => "caption cue "@ + dec(clip as nat)
                + " needs text; remove the line with remove_clip instead"@,
            Rejection::TooFewClips => "merge_captions needs at least two cue clips"@,
            Rejection::TooManyClips { count, max } => "merge_captions accepts at most "@ + dec(max as nat)
                + " cue clips (got "@ + dec(count as nat) + ")"@,
            Rejection::CrossGroup { clip, group, first } => "cue "@ + dec(clip as nat)
                + " belongs to caption group "@ + dec(group as nat) + " but the first cue belongs to group "@
                + dec(first as nat) + "; merging across groups has no meaning"@,
            Rejection::Repeated { clip } => "merge_captions lists cue "@ + dec(clip as nat)
                + " twice; list each cue once"@,
            Rejection::UnknownTrack { track } => "track "@ + dec(track as nat) + " does not exist"@,
            Rejection::NotTextLane { track, kind } => "track "@ + dec(track as nat) + " is a "@ + kind_name(kind)
                + " lane; captions need a text track \u{2014} call add_track with kind \"text\" first"@,
            Rejection::NoCues => "add_captions needs at least one cue"@,
            Rejection::TooManyCues { count, max } => "add_captions accepts at most "@ + dec(max as nat)
                + " cues per call (got "@ + dec(count as nat) + "); split a long script across several calls"@,
            Rejection::NoText { index } => "caption cue "@ + dec(index as nat)
                + " has no text; every line needs something to show"@,
            Rejection::OutOfOrder { index, start, previous_end } => "caption cue "@ + dec(index as nat)
                + " starts at tick "@ + signed_dec(start as int) + ", before the previous line ends at tick "@
                + signed_dec(previous_end as int) + "; cues must be in order and must not overlap"@,
        }
    }

    /// What the caller is told, as text.
    pub fn message(&self) -> (m: String)
        ensures
            m@ == self.message_spec(),
    {
        let mut out: Vec<char> = Vec::new();
        match self {
            Rejection::UnknownGroup { group, existing } => {
                push_str(&mut out, "caption group ");
                push_number(&mut out, *group);
                push_str(&mut out, " does not exist; caption groups: ");
                push_ids(&mut out, existing);
            },
            Rejection::UnknownClip { clip } => {
                push_str(&mut out, "clip ");
                push_number(&mut out, *clip);
                push_str(&mut out, " does not exist");
            },
            Rejection::NotACue { clip } => {
                push_str(&mut out, "clip ");
                push_number(&mut out, *clip);
                push_str(
                    &mut out,
                    " is not a caption cue; caption tools only work on clips in a caption group (see describe_project). Use set_generator to edit a plain title",
                );
            },
            Rejection::UnknownTemplate { template } => {
                push_str(&mut out, "unknown caption template '");
                push_str(&mut out, template.as_str());
                push_str(&mut out, "'; available templates: ");
                let ids = caption_template_ids();
                push_str(&mut out, ids.as_str());
            },
            Rejection::BlankText { clip } => {
                push_str(&mut out, "caption cue ");
                push_number(&mut out, *clip);
                push_str(&mut out, " needs text; remove the line with remove_clip instead");
            },
            Rejection::TooFewClips => {
                push_str(&mut out, "merge_captions needs at least two cue clips");
            },
            Rejection::TooManyClips { count, max } => {
                push_str(&mut out, "merge_captions accepts at most ");
                push_number(&mut out, *max as u64);
                push_str(&mut out, " cue clips (got ");
                push_number(&mut out, *count as u64);
                push_str(&mut out, ")");
            },
            Rejection::CrossGroup { clip, group, first } => {
                push_str(&mut out, "cue ");
                push_number(&mut out, *clip);
                push_str(&mut out, " belongs to caption group ");
                push_number(&mut out, *group);
                push_str(&mut out, " but the first cue belongs to group ");
                push_number(&mut out, *first);
                push_str(&mut out, "; merging across groups has no meaning");
            },
            Rejection::Repeated { clip } => {
                push_str(&mut out, "merge_captions lists cue ");
                push_number(&mut out, *clip);
                push_str(&mut out, " twice; list each cue once");
            },
            Rejection::UnknownTrack { track } => {
                push_str(&mut out, "track ");
                push_number(&mut out, *track);
                push_str(&mut out, " does not exist");
            },
            Rejection::NotTextLane { track, kind } => {
                push_str(&mut out, "track ");
                push_number(&mut out, *track);
                push_str(&mut out, " is a ");
                match kind {
                    TrackKind::Video => push_str(&mut out, "video"),
                    TrackKind::Audio => push_str(&mut out, "audio"),
                    TrackKind::Text => push_str(&mut out, "text"),
                }
                push_str(&mut out, " lane; captions need a text track \u{2014} call add_track with kind \"text\" first");
            },
            Rejection::NoCues => {
                push_str(&mut out, "add_captions needs at least one cue");
            },
            Rejection::TooManyCues { count, max } => {
                push_str(&mut out, "add_captions accepts at most ");
                push_number(&mut out, *max as u64);
                push_str(&mut out, " cues per call (got ");
                push_number(&mut out, *count as u64);
                push_str(&mut out, "); split a long script across several calls");
            },
            Rejection::NoText { index } => {
                push_str(&mut out, "caption cue ");
                push_number(&mut out, *index as u64);
                push_str(&mut out, " has no text; every line needs something to show");
            },
            Rejection::OutOfOrder { index, start, previous_end } => {
                push_str(&mut out, "caption cue ");
                push_number(&mut out, *index as u64);
                push_str(&mut out, " starts at tick ");
                push_signed(&mut out, *start);
                push_str(&mut out, ", before the previous line ends at tick ");
                push_signed(&mut out, *previous_end);
                push_str(&mut out, "; cues must be in order and must not overlap");
            },
        }
        string_of(out.as_slice())
    }
}

/// Append `n` in decimal.
pub(crate) fn push_number(out: &mut Vec<char>, n: u64)
    ensures
        final(out)@ == old(out)@ + dec(n as nat),
{
    push_padded(out, n, 0);
    proof {
        assert(padded(n as nat, 0) == dec(n as nat));
    }
}

/// Append `x` in decimal, with a leading `-` when negative.
fn push_signed(out: &mut Vec<char>, x: i64)
    ensures
        final(out)@ == old(out)@ + signed_dec(x as int),
{
    if x < 0 {
        out.push('-');
        let magnitude: u64 = if x == i64::MIN {
            0x8000_0000_0000_0000
        } else {
            (-x) as u64
        };
        push_number(out, magnitude);
        proof {
            assert(out@ =~= old(out)@ + signed_dec(x as int));
        }
    } else {
        push_number(out, x as u64);
    }
}

/// Append `ids` in decimal, separated by `", "`.
fn push_ids(out: &mut Vec<char>, ids: &Vec<u64>)
    ensures
        final(out)@ == old(out)@ + joined_ids(ids@),
{
    let ghost start = out@;
    let mut i: usize = 0;
    while i < ids.len()
        invariant
            i <= ids@.len(),
            out@ == start + joined_ids(ids@.take(i as int)),
        decreases ids@.len() - i,
    {
        let ghost before = out@;
        if i > 0 {
            out.push(',');
            out.push(' ');
        }
        push_number(out, ids[i]);
        proof {
            let t = ids@.take(i + 1);
            assert(t.drop_last() =~= ids@.take(i as int));
            assert(t.last() == ids@[i as int]);
            if i == 0 {
                assert(joined_ids(ids@.take(0)) =~= Seq::<char>::empty());
                assert(out@ =~= start + joined_ids(t));
            } else {
                assert(out@ =~= start + joined_ids(t));
            }
        }
        i += 1;
    }
    proof {
        assert(ids@.take(ids@.len() as int) =~= ids@);
    }
}

/// Every catalog template id, in catalog order, separated by `", "`: what a
/// refusal offers in place of an unknown template.
pub fn caption_template_ids() -> (r: String)
    ensures
        r@ == template_ids_text(),
{
    let catalog = caption_template_catalog();
    let mut out: Vec<char> = Vec::new();
    let mut i: usize = 0;
    while i < catalog.len()
        invariant
            catalog@.len() == 6,
            forall|j: int| 0 <= j < 6 ==> (#[trigger] catalog@[j]).id@ == template_id(j),
            i <= 6,
            out@ == template_ids_upto(i as int),
        decreases 6 - i,
    {
        if i > 0 {
            out.push(',');
            out.push(' ');
        }
        push_str(&mut out, catalog[i].id.as_str());
        proof {
            if i == 0 {
                assert(out@ =~= template_ids_upto(1));
            } else {
                assert(out@ =~= template_ids_upto(i + 1));
            }
        }
        i += 1;
    }
    string_of(out.as_slice())
}

/// Refuse a template id the catalog does not hold.
pub fn require_caption_template(id: &str) -> (r: Result<(), Rejection>)
    ensures
        r is Ok <==> template_index(id@) is Some,
        r matches Err(Rejection::UnknownTemplate { template }) ==> template@ == id@,
        r is Err ==> r matches Err(Rejection::UnknownTemplate { .. }),
{
    match caption_template_spec(id) {
        Some(_) => Ok(()),
        None => Err(Rejection::UnknownTemplate { template: string_of(chars_of(id).as_slice()) }),
    }
}

/// The caption group with raw id `raw`, or a refusal that lists, in id
/// order, the groups that do exist.
pub fn caption_group_ref(project: &Project, raw: u64) -> (r: Result<&CaptionGroup, Rejection>)
    requires
        project.wf(),
    ensures
        ({
            let groups = project.timeline.groups_view();
            match r {
                Ok(g) => groups.dom().contains(raw) && g.id.0 == raw && group_view(*g) == groups[raw],
                Err(e) => !groups.dom().contains(raw) && (e matches Rejection::UnknownGroup { group, existing }
                    && group == raw && ascending(existing@) && forall|k: u64|
                    groups.dom().contains(k) <==> existing@.contains(k)),
            }
        }),
{
    match project.timeline().caption_group(CaptionGroupId(raw)) {
        Some(g) => Ok(g),
        None => {
            let ids = caption_group_ids(project.timeline());
            let mut existing: Vec<u64> = Vec::new();
            let mut i: usize = 0;
            while i < ids.len()
                invariant
                    i <= ids@.len(),
                    existing@ == group_raws(ids@).take(i as int),
                decreases ids@.len() - i,
            {
                existing.push(ids[i].0);
                i += 1;
                proof {
                    assert(existing@ =~= group_raws(ids@).take(i as int));
                }
            }
            proof {
                assert(group_raws(ids@).take(i as int) =~= group_raws(ids@));
            }
            Err(Rejection::UnknownGroup { group: raw, existing })
        },
    }
}

/// Why clip `raw` cannot be edited as a caption cue: `0` it can, `1` there is
/// no such clip, `2` it is not a cue.
pub open spec fn cue_ref_fault(m: Map<u64, ClipView>, raw: u64) -> int {
    if !m.dom().contains(raw) {
        1
    } else if m[raw].caption is None {
        2
    } else {
        0
    }
}

/// The caption cue clip with raw id `raw`, refusing a missing clip or an
/// ordinary title by name.
pub fn caption_cue_ref(project: &Project, raw: u64) -> (r: Result<&Clip, Rejection>)
    requires
        project.wf(),
    ensures
        ({
            let m = project.timeline.clips_view();
            match r {
                Ok(c) => cue_ref_fault(m, raw) == 0 && c.id.0 == raw && clip_view(*c) == m[raw],
                Err(e) => if cue_ref_fault(m, raw) == 1 {
                    e matches Rejection::UnknownClip { clip } && clip == raw
                } else {
                    cue_ref_fault(m, raw) == 2 && (e matches Rejection::NotACue { clip } && clip == raw)
                },
            }
        }),
{
    match project.timeline().clip(ClipId(raw)) {
        None => Err(Rejection::UnknownClip { clip: raw }),
        Some(c) => {
            if c.caption.is_none() {
                Err(Rejection::NotACue { clip: raw })
            } else {
                Ok(c)
            }
        },
    }
}

/// Lower a split: a caption cue splits through the caption-aware edit, which
/// divides its text and word timings; any other clip splits generically.
/// Refused for a clip that does not exist.
pub fn split_clip(project: &Project, clip: u64, at: RationalTime) -> (r: Result<CaptionEdit, Rejection>)
    requires
        project.wf(),
    ensures
        ({
            let m = project.timeline.clips_view();
            if !m.dom().contains(clip) {
                r matches Err(Rejection::UnknownClip { clip: c }) && c == clip
            } else if m[clip].caption is Some {
                r matches Ok(CaptionEdit::SplitCaptionCue { clip: c, at: t }) && c == ClipId(clip) && t == at
            } else {
                r matches Ok(CaptionEdit::SplitClip { clip: c, at: t }) && c == ClipId(clip) && t == at
            }
        }),
{
    match project.timeline().clip(ClipId(clip)) {
        None => Err(Rejection::UnknownClip { clip }),
        Some(c) => {
            if c.caption.is_some() {
                Ok(CaptionEdit::SplitCaptionCue { clip: ClipId(clip), at })
            } else {
                Ok(CaptionEdit::SplitClip { clip: ClipId(clip), at })
            }
        },
    }
}

/// Lower a cue text edit. The cue keeps its speaker unless the call names
/// one, and its word timings are remapped onto the new text, not dropped.
pub fn set_caption_text(project: &Project, args: &SetCaptionText) -> (r: Result<CaptionEdit, Rejection>)
    requires
        project.wf(),
    ensures
        ({
            let m = project.timeline.clips_view();
            let fault = cue_ref_fault(m, args.clip);
            if fault == 1 {
                r matches Err(Rejection::UnknownClip { clip }) && clip == args.clip
            } else if fault == 2 {
                r matches Err(Rejection::NotACue { clip }) && clip == args.clip
            } else if is_blank(args.text@) {
                r matches Err(Rejection::BlankText { clip }) && clip == args.clip
            } else {
                r matches Ok(CaptionEdit::SetCaptionCue { clip, text, speaker }) && clip.0 == args.clip
                    && text@ == args.text@ && opt_view(speaker) == (match args.speaker {
                    Some(s) => Some(s@),
                    None => m[args.clip].caption->0.speaker,
                })
            }
        }),
{
    let clip = caption_cue_ref(project, args.clip)?;
    let text = chars_of(args.text.as_str());
    if blank(&text) {
        return Err(Rejection::BlankText { clip: args.clip });
    }
    let speaker = match &args.speaker {
        Some(s) => Some(string_of(chars_of(s.as_str()).as_slice())),
        None => match &clip.caption {
            Some(cue) => copy_opt(&cue.speaker),
            None => None,
        },
    };
    Ok(CaptionEdit::SetCaptionCue { clip: clip.id, text: string_of(text.as_slice()), speaker })
}

/// The group of cue clip `raw`.
pub open spec fn cue_group(m: Map<u64, ClipView>, raw: u64) -> CaptionGroupId {
    m[raw].caption->0.group
}

/// What stops entry `i` of a merge list: `0` nothing, `1` no such clip, `2`
/// not a cue, `3` a cue of another group than the first entry's, `4` named
/// earlier in the list.
pub open spec fn merge_fault(m: Map<u64, ClipView>, raws: Seq<u64>, i: int) -> int {
    let f = cue_ref_fault(m, raws[i]);
    if f != 0 {
        f
    } else if cue_group(m, raws[i]) != cue_group(m, raws[0]) {
        3
    } else if raws.take(i).contains(raws[i]) {
        4
    } else {
        0
    }
}

/// Entries `0..n` of a merge list all pass.
pub open spec fn merge_clear(m: Map<u64, ClipView>, raws: Seq<u64>, n: int) -> bool {
    forall|j: int| 0 <= j < n ==> #[trigger] merge_fault(m, raws, j) == 0
}

/// `e` is the refusal for entry `i` of a merge list.
pub open spec fn merge_refusal(m: Map<u64, ClipView>, raws: Seq<u64>, i: int, e: Rejection) -> bool {
    let raw = raws[i];
    let f = merge_fault(m, raws, i);
    if f == 1 {
        e matches Rejection::UnknownClip { clip } && clip == raw
    } else if f == 2 {
        e matches Rejection::NotACue { clip } && clip == raw
    } else if f == 3 {
        e matches Rejection::CrossGroup { clip, group, first } && clip == raw && group == cue_group(m, raw).0
            && first == cue_group(m, raws[0]).0
    } else {
        f == 4 && (e matches Rejection::Repeated { clip } && clip == raw)
    }
}

/// `e` refuses the first bad entry of a merge list.
pub open spec fn merge_refused(m: Map<u64, ClipView>, raws: Seq<u64>, e: Rejection) -> bool {
    exists|i: int|
        0 <= i < raws.len() && merge_clear(m, raws, i) && #[trigger] merge_fault(m, raws, i) != 0
            && merge_refusal(m, raws, i, e)
}

/// Lower a merge: two to `max_clips` cues of one group, each named once.
/// The list is checked entry by entry, and the first bad entry is the one
/// refused.
pub fn merge_captions(project: &Project, args: &MergeCaptions, max_clips: usize) -> (r: Result<
    CaptionEdit,
    Rejection,
>)
    requires
        project.wf(),
    ensures
        ({
            let m = project.timeline.clips_view();
            let raws = args.clips@;
            if raws.len() < 2 {
                r matches Err(Rejection::TooFewClips)
            } else if raws.len() > max_clips {
                r matches Err(Rejection::TooManyClips { count, max }) && count == raws.len() && max
                    == max_clips
            } else {
                match r {
                    Ok(e) => merge_clear(m, raws, raws.len() as int) && (e matches CaptionEdit::MergeCaptionCues {
                        clips,
                    } && raw_ids(clips@) == raws),
                    Err(e) => merge_refused(m, raws, e),
                }
            }
        }),
{
    let n = args.clips.len();
    if n < 2 {
        return Err(Rejection::TooFewClips);
    }
    if n > max_clips {
        return Err(Rejection::TooManyClips { count: n, max: max_clips });
    }
    let ghost m = project.timeline.clips_view();
    let ghost raws = args.clips@;
    let mut clips: Vec<ClipId> = Vec::new();
    let mut first: Option<CaptionGroupId> = None;
    let mut i: usize = 0;
    while i < n
        invariant
            project.wf(),
            m == project.timeline.clips_view(),
            raws == args.clips@,
            n == raws.len(),
            2 <= n <= max_clips,
            i <= n,
            merge_clear(m, raws, i as int),
            raw_ids(clips@) == raws.take(i as int),
            i == 0 ==> first is None,
            i > 0 ==> first == Some(cue_group(m, raws[0])),
        decreases n - i,
    {
        let raw = args.clips[i];
        let clip = match caption_cue_ref(project, raw) {
            Ok(c) => c,
            Err(e) => {
                proof {
                    assert(merge_fault(m, raws, i as int) != 0);
                    assert(merge_refusal(m, raws, i as int, e));
                    assert(merge_refused(m, raws, e));
                }
                return Err(e);
            },
        };
        let group = match clip.caption_group() {
            Some(g) => g,
            None => {
                proof {
                    assert(false);
                }
                return Err(Rejection::NotACue { clip: raw });
            },
        };
        match first {
            None => {
                first = Some(group);
            },
            Some(f) => {
                if group.0 != f.0 {
                    let e = Rejection::CrossGroup { clip: raw, group: group.0, first: f.0 };
                    proof {
                        assert(cue_group(m, raws[i as int]) != cue_group(m, raws[0]));
                        assert(merge_fault(m, raws, i as int) == 3);
                        assert(merge_refusal(m, raws, i as int, e));
                        assert(merge_refused(m, raws, e));
                    }
                    return Err(e);
                }
            },
        }
        let mut seen = false;
        let mut k: usize = 0;
        while k < clips.len()
            invariant
                k <= clips@.len(),
                seen == exists|j: int| 0 <= j < k && #[trigger] clips@[j].0 == raw,
            decreases clips@.len() - k,
        {
            if clips[k].0 == raw {
                seen = true;
            }
            k += 1;
        }
        proof {
            assert(raws.take(i as int) == raw_ids(clips@));
            if seen {
                let j = choose|j: int| 0 <= j < clips@.len() && #[trigger] clips@[j].0 == raw;
                assert(raws.take(i as int)[j] == raw);
                assert(raws.take(i as int).contains(raw));
            } else {
                if raws.take(i as int).contains(raw) {
                    let j = choose|j: int| 0 <= j < raws.take(i as int).len() && raws.take(i as int)[j] == raw;
                    assert(clips@[j].0 == raw);
                }
            }
        }
        if seen {
            let e = Rejection::Repeated { clip: raw };
            proof {
                assert(merge_fault(m, raws, i as int) == 4);
                assert(merge_refusal(m, raws, i as int, e));
                assert(merge_refused(m, raws, e));
            }
            return Err(e);
        }
        proof {
            assert(merge_fault(m, raws, i as int) == 0);
        }
        let ghost before = clips@;
        clips.push(clip.id);
        proof {
            assert(clips@ == before.push(clip.id));
            assert(clip.id.0 == raw);
            assert(raws[i as int] == raw);
            assert(raw_ids(before).len() == before.len());
            assert(before.len() == i);
            assert forall|j: int| 0 <= j < i + 1 implies raw_ids(clips@)[j] == raws.take(i + 1)[j] by {
                if j < i {
                    assert(raw_ids(before)[j] == raws.take(i as int)[j]);
                    assert(clips@[j] == before[j]);
                }
            }
            assert(raw_ids(clips@) =~= raws.take(i + 1));
        }
        i += 1;
    }
    proof {
        assert(raws.take(n as int) =~= raws);
    }
    Ok(CaptionEdit::MergeCaptionCues { clips })
}


// --- add_captions ------------------------------------------------------------

/// Where cue `i` of an `add_captions` list may not start before: the end of
/// cue `i - 1`.
pub open spec fn listed_prev_end(cues: Seq<(String, TimeRange)>, i: int) -> int {
    if i == 0 {
        i64::MIN as int
    } else {
        cues[i - 1].1.spec_end()
    }
}

/// What is wrong with cue `i` of an `add_captions` list: `0` nothing, `1`
/// no text, `2` starting before the previous cue ends.
pub open spec fn listed_fault(cues: Seq<(String, TimeRange)>, i: int) -> int {
    if is_blank(cues[i].0@) {
        1
    } else if cues[i].1.start.value < listed_prev_end(cues, i) {
        2
    } else {
        0
    }
}

/// `e` reports cue `i` of the list, whose fault is `kind`.
pub open spec fn listed_refusal(cues: Seq<(String, TimeRange)>, i: int, kind: int, e: Rejection) -> bool {
    if kind == 1 {
        e matches Rejection::NoText { index } && index == i
    } else {
        e matches Rejection::OutOfOrder { index, start, previous_end } && index == i && start
            == cues[i].1.start.value && previous_end == listed_prev_end(cues, i)
    }
}

/// `e` reports the first cue of the list that is refused.
pub open spec fn first_listed_refusal(cues: Seq<(String, TimeRange)>, e: Rejection) -> bool {
    exists|i: int|
        0 <= i < cues.len() && #[trigger] listed_fault(cues, i) != 0 && (forall|j: int|
            0 <= j < i ==> #[trigger] listed_fault(cues, j) == 0) && listed_refusal(cues, i, listed_fault(cues, i), e)
}

/// The label a group of added captions gets: the one given, unless blank,
/// else "Captions".
pub open spec fn added_label(label: Option<String>) -> Seq<char> {
    match label {
        Some(l) => if is_blank(l@) {
            "Captions"@
        } else {
            l@
        },
        None => "Captions"@,
    }
}

/// What `add_captions` answers: the first check that fails, in the order
/// track, lane kind, list size, template, then each cue in turn; else the
/// group of hand-typed captions and one plain cue per line.
pub open spec fn add_captions_answer(
    tracks: Map<u64, TrackKind>,
    track: u64,
    cues: Seq<(String, TimeRange)>,
    label: Option<String>,
    template: Option<String>,
    r: Result<(CaptionGroupSpec, Vec<CaptionCueSpec>), Rejection>,
) -> bool {
    if !tracks.dom().contains(track) {
        r matches Err(Rejection::UnknownTrack { track: t }) && t == track
    } else if tracks[track] != TrackKind::Text {
        r matches Err(Rejection::NotTextLane { track: t, kind }) && t == track && kind == tracks[track]
    } else if cues.len() == 0 {
        r matches Err(Rejection::NoCues)
    } else if cues.len() > MAX_WIRE_CAPTION_CUES {
        r matches Err(Rejection::TooManyCues { count, max }) && count == cues.len() && max == MAX_WIRE_CAPTION_CUES
    } else if template matches Some(t) && template_index(t@) is None {
        r matches Err(Rejection::UnknownTemplate { template: u }) && u@ == template->0@
    } else if exists|i: int| 0 <= i < cues.len() && #[trigger] listed_fault(cues, i) != 0 {
        r is Err && first_listed_refusal(cues, r->Err_0)
    } else {
        r matches Ok((spec, specs)) && {
            &&& spec.track == TrackId(track)
            &&& spec.label@ == added_label(label)
            &&& spec.source == CaptionSource::Manual
            &&& opt_view(spec.template) == opt_view(template)
            &&& spec.layout is None
            &&& spec.highlight is None
            &&& specs@.len() == cues.len()
            &&& forall|i: int|
                0 <= i < cues.len() ==> {
                    &&& (#[trigger] specs@[i]).text@ == cues[i].0@
                    &&& specs@[i].timeline == cues[i].1
                    &&& specs@[i].words@.len() == 0
                    &&& specs@[i].speaker is None
                }
        }
    }
}

/// Lower an `add_captions` call, whose cues were already turned into
/// frame-snapped ranges at the timeline rate, into the group and cue specs
/// the timeline places atomically.
///
/// Refused, naming the first problem, for a missing or non-text lane, an
/// empty or over-long list, an unknown template, a blank line, or a line
/// that starts before the previous one ends. A blank or missing label reads
/// "Captions".
pub fn add_captions(
    project: &Project,
    track: u64,
    cues: &[(String, TimeRange)],
    label: Option<String>,
    template: Option<String>,
) -> (r: Result<(CaptionGroupSpec, Vec<CaptionCueSpec>), Rejection>)
    requires
        project.wf(),
    ensures
        add_captions_answer(project.timeline.tracks_view(), track, cues@, label, template, r),
{
    let ghost tracks = project.timeline.tracks_view();
    match project.timeline.track_kind(TrackId(track)) {
        None => {
            return Err(Rejection::UnknownTrack { track });
        },
        Some(kind) => {
            if kind != TrackKind::Text {
                return Err(Rejection::NotTextLane { track, kind });
            }
        },
    }
    if cues.len() == 0 {
        return Err(Rejection::NoCues);
    }
    if cues.len() > MAX_WIRE_CAPTION_CUES {
        return Err(Rejection::TooManyCues { count: cues.len(), max: MAX_WIRE_CAPTION_CUES });
    }
    match &template {
        Some(t) => {
            match require_caption_template(t.as_str()) {
                Ok(()) => {},
                Err(e) => {
                    return Err(e);
                },
            }
        },
        None => {},
    }
    let mut specs: Vec<CaptionCueSpec> = Vec::new();
    let mut previous_end: i64 = i64::MIN;
    let mut i: usize = 0;
    while i < cues.len()
        invariant
            project.timeline.tracks_view().dom().contains(track),
            project.timeline.tracks_view()[track] == TrackKind::Text,
            0 < cues@.len() <= MAX_WIRE_CAPTION_CUES,
            template matches Some(t) ==> template_index(t@) is Some,
            i <= cues@.len(),
            previous_end == listed_prev_end(cues@, i as int),
            forall|j: int| 0 <= j < i ==> #[trigger] listed_fault(cues@, j) == 0,
            specs@.len() == i,
            forall|j: int|
                0 <= j < i ==> {
                    &&& (#[trigger] specs@[j]).text@ == cues@[j].0@
                    &&& specs@[j].timeline == cues@[j].1
                    &&& specs@[j].words@.len() == 0
                    &&& specs@[j].speaker is None
                },
        decreases cues@.len() - i,
    {
        let (text, range) = &cues[i];
        let chars = chars_of(text.as_str());
        if blank(&chars) {
            let e = Rejection::NoText { index: i };
            proof {
                assert(listed_fault(cues@, i as int) == 1);
                assert(listed_refusal(cues@, i as int, 1, e));
                assert(first_listed_refusal(cues@, e));
            }
            return Err(e);
        }
        if range.start.value < previous_end {
            let e = Rejection::OutOfOrder { index: i, start: range.start.value, previous_end };
            proof {
                assert(listed_fault(cues@, i as int) == 2);
                assert(listed_refusal(cues@, i as int, 2, e));
                assert(first_listed_refusal(cues@, e));
            }
            return Err(e);
        }
        previous_end = range.end_tick();
        specs.push(CaptionCueSpec::new(text.as_str(), *range));
        i += 1;
    }
    let name = match label {
        Some(l) => {
            let chars = chars_of(l.as_str());
            if blank(&chars) {
                string_of(chars_of("Captions").as_slice())
            } else {
                l
            }
        },
        None => string_of(chars_of("Captions").as_slice()),
    };
    let spec = CaptionGroupSpec {
        track: TrackId(track),
        label: name,
        source: CaptionSource::Manual,
        template,
        layout: None,
        highlight: None,
    };
    Ok((spec, specs))
}

} // verus!
