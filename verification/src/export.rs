//! A caption group written back out as a subtitle file: its cues' text and
//! placement in timeline order, timed from the start of the sequence.

use vstd::prelude::*;

use crate::caption::group::CaptionFileFormat;
use crate::ids::CaptionGroupId;
use crate::srt::{srt_text, write_srt};
use crate::subtitle::{clip_cue, clips_view, cues_view, sort_cues, subtitles_from_clips, SubtitleCue};
use crate::text::string_of;
use crate::time::{Rational, TimeRange};
use crate::timeline::{clip_ids, clip_view, cue_order, ClipView, Timeline};
use crate::timing::Placement;
use crate::vtt::{vtt_text, write_vtt};

verus! {

/// The placement and text of cues `order`; a cue without text exports an
/// empty line.
pub open spec fn cue_pairs(m: Map<u64, ClipView>, order: Seq<u64>) -> Seq<(TimeRange, Seq<char>)> {
    Seq::new(
        order.len(),
        |i: int|
            (m[order[i]].timeline, match m[order[i]].text {
                Some(t) => t,
                None => Seq::empty(),
            }),
    )
}

/// The subtitle cues of `order`, timed at `rate` from the sequence start and
/// sorted by time.
pub open spec fn subtitles_of(m: Map<u64, ClipView>, order: Seq<u64>, rate: Rational) -> Seq<(u32, u32, Seq<char>)> {
    let pairs = cue_pairs(m, order);
    sort_cues(Seq::new(pairs.len(), |i: int| clip_cue(pairs[i], Placement { rate, offset_ticks: 0 })))
}

/// `cues` are the subtitles of group `group`.
pub open spec fn exported(m: Map<u64, ClipView>, group: CaptionGroupId, rate: Rational, cues: Seq<(u32, u32, Seq<char>)>) -> bool {
    exists|order: Seq<u64>| cue_order(m, group, order) && cues == subtitles_of(m, order, rate)
}

/// The cues of `group` as subtitle cues, in time order, timed at the
/// timeline's rate from the start of the sequence.
pub fn group_subtitles(timeline: &Timeline, group: CaptionGroupId) -> (cues: Vec<SubtitleCue>)
    requires
        timeline.wf(),
    ensures
        exported(timeline.clips_view(), group, timeline.frame_rate, cues_view(cues@)),
{
    let clips = timeline.caption_cues(group);
    let ghost m = timeline.clips_view();
    let ghost order = clip_ids(clips@);
    let mut pairs: Vec<(TimeRange, String)> = Vec::new();
    let mut a: usize = 0;
    while a < clips.len()
        invariant
            a <= clips@.len(),
            order == clip_ids(clips@),
            forall|b: int| 0 <= b < clips@.len() ==> clip_view(#[trigger] clips@[b]) == m[clips@[b].id.0],
            pairs@.len() == a,
            clips_view(pairs@) == cue_pairs(m, order).take(a as int),
        decreases clips@.len() - a,
    {
        let c = &clips[a];
        let text = match c.text_content() {
            Some(t) => string_of(crate::text::chars_of(t).as_slice()),
            None => string_of(Vec::<char>::new().as_slice()),
        };
        proof {
            assert(clip_view(*c) == m[c.id.0]);
        }
        pairs.push((c.timeline, text));
        proof {
            assert(clips_view(pairs@) =~= cue_pairs(m, order).take(a + 1));
        }
        a += 1;
    }
    proof {
        assert(cue_pairs(m, order).take(a as int) =~= cue_pairs(m, order));
    }
    let placement = Placement::at_rate(timeline.frame_rate);
    let cues = subtitles_from_clips(pairs, placement);
    proof {
        assert(cue_order(m, group, order));
        assert(cues_view(cues@) == subtitles_of(m, order, timeline.frame_rate));
    }
    cues
}

/// The subtitle file text of `cues` in `format`.
pub open spec fn file_text(format: CaptionFileFormat, cues: Seq<(u32, u32, Seq<char>)>) -> Seq<char> {
    match format {
        CaptionFileFormat::Srt => srt_text(cues),
        CaptionFileFormat::Vtt => vtt_text(cues),
    }
}

/// `text` is group `group` written as a `format` file.
pub open spec fn exported_text(m: Map<u64, ClipView>, group: CaptionGroupId, rate: Rational, format: CaptionFileFormat, text: Seq<char>) -> bool {
    exists|cues: Seq<(u32, u32, Seq<char>)>| exported(m, group, rate, cues) && text == file_text(format, cues)
}

/// Group `group` as SubRip or WebVTT text.
pub fn write_group(timeline: &Timeline, group: CaptionGroupId, format: CaptionFileFormat) -> (text: String)
    requires
        timeline.wf(),
    ensures
        exported_text(timeline.clips_view(), group, timeline.frame_rate, format, text@),
{
    let cues = group_subtitles(timeline, group);
    let text = match format {
        CaptionFileFormat::Srt => write_srt(cues.as_slice()),
        CaptionFileFormat::Vtt => write_vtt(cues.as_slice()),
    };
    proof {
        assert(exported(timeline.clips_view(), group, timeline.frame_rate, cues_view(cues@)));
        assert(text@ == file_text(format, cues_view(cues@)));
    }
    text
}

} // verus!
