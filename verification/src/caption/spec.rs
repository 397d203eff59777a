//! Caption creation specs: one cue to place, before the timeline gives it a
//! clip.

use vstd::prelude::*;

use crate::error::ModelError;
use crate::ids::CaptionGroupId;
use crate::text::{blank, chars_of, is_blank, string_of};
use crate::time::TimeRange;

use super::cue::{
    copy_words, lemma_fault_text_same_view, views_valid, words_fault_text, words_view, CaptionCue, CaptionWord,
};

verus! {

/// How many cues one caption group may hold. A feature-length transcript is a
/// few thousand lines; the ceiling exists so a malformed import can't try to
/// place a million clips in one command.
pub const MAX_CAPTION_CUES: usize = 5_000;

/// One caption cue to create: its text, timeline placement, and the metadata
/// that recognition or a subtitle file supplied.
#[derive(Debug, Clone, PartialEq)]
pub struct CaptionCueSpec {
    /// The line's text, newlines included for a multi-line cue.
    pub text: String,
    /// Where the cue sits on the timeline (at the timeline rate).
    pub timeline: TimeRange,
    /// Per-word timings for highlight rendering, clip-relative.
    pub words: Vec<CaptionWord>,
    pub speaker: Option<String>,
}

/// Why a cue spec is refused, if it is: an empty or negative placement first,
/// then blank text, then a bad word table.
pub open spec fn cue_spec_error(text: Seq<char>, timeline: TimeRange, words: Seq<(u32, u32, u32, u32)>) -> Option<
    bool,
> {
    if timeline.duration.value <= 0 || timeline.start.value < 0 {
        Some(true)
    } else if is_blank(text) {
        Some(false)
    } else if !views_valid(words, text) {
        Some(false)
    } else {
        None
    }
}

impl CaptionCueSpec {
    pub fn new(text: &str, timeline: TimeRange) -> (s: CaptionCueSpec)
        ensures
            s.text@ == text@,
            s.timeline == timeline,
            s.words@.len() == 0,
            s.speaker is None,
    {
        CaptionCueSpec {
            text: string_of(chars_of(text).as_slice()),
            timeline,
            words: Vec::new(),
            speaker: None,
        }
    }

    pub fn with_words(self, words: Vec<CaptionWord>) -> (s: CaptionCueSpec)
        ensures
            s.text@ == self.text@,
            s.timeline == self.timeline,
            s.words@ == words@,
            s.speaker == self.speaker,
    {
        CaptionCueSpec { words, ..self }
    }

    /// The cue metadata this spec describes, bound to `group` at `index`.
    pub fn cue(&self, group: CaptionGroupId, index: u32) -> (c: CaptionCue)
        ensures
            c.group == group,
            c.index == index,
            words_view(c.words@) == words_view(self.words@),
            c.speaker matches Some(s) ==> self.speaker matches Some(t) && s@ == t@,
            c.speaker is None <==> self.speaker is None,
            !c.text_edited,
            !c.style_override,
    {
        let speaker = match &self.speaker {
            Some(s) => Some(s.clone()),
            None => None,
        };
        CaptionCue {
            group,
            index,
            words: copy_words(&self.words),
            speaker,
            text_edited: false,
            style_override: false,
        }
    }

    /// Validate the spec's own contents. Placement against the lane is the
    /// timeline's job; here an empty or negative range gives
    /// `InvalidRange`, and blank text or a bad word table `InvalidParam`.
    pub fn validate(&self) -> (r: Result<(), ModelError>)
        ensures
            r is Ok <==> cue_spec_error(self.text@, self.timeline, words_view(self.words@)) is None,
            r matches Err(e) ==> (e is InvalidRange <==> cue_spec_error(
                self.text@,
                self.timeline,
                words_view(self.words@),
            ) == Some(true)),
            r matches Err(e) ==> (e is InvalidRange || e is InvalidParam),
            r matches Err(ModelError::InvalidParam(m)) ==> if is_blank(self.text@) {
                m@ == "a caption cue needs text"@
            } else {
                words_fault_text(self.words@, self.text@, m@)
            },
    {
        if self.timeline.is_empty() || self.timeline.start.value < 0 {
            return Err(ModelError::InvalidRange);
        }
        if blank(&chars_of(self.text.as_str())) {
            return Err(ModelError::invalid(chars_of("a caption cue needs text")));
        }
        let cue = self.cue(CaptionGroupId::from_raw(0), 0);
        let r = cue.validate(self.text.as_str());
        proof {
            if r is Err && r->Err_0 is InvalidParam {
                lemma_fault_text_same_view(cue.words@, self.words@, self.text@, r->Err_0->InvalidParam_0@);
            }
        }
        r
    }
}

/// A cue spec as plain values: its text, placement and word table (the
/// speaker aside).
pub open spec fn cue_spec_view(c: CaptionCueSpec) -> (Seq<char>, TimeRange, Seq<(u32, u32, u32, u32)>) {
    (c.text@, c.timeline, words_view(c.words@))
}

/// The plain values of a list of cue specs.
pub open spec fn cue_specs_view(cs: Seq<CaptionCueSpec>) -> Seq<(Seq<char>, TimeRange, Seq<(u32, u32, u32, u32)>)> {
    Seq::new(cs.len(), |i: int| cue_spec_view(cs[i]))
}

} // verus!
