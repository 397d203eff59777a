//! Everything that can go wrong turning words or a subtitle file into cues.

use vstd::prelude::*;

use crate::ids::{CaptionGroupId, ClipId, MediaId, TrackId};
use crate::timeline::TrackKind;

verus! {

/// Why words or a subtitle file could not become cues.
#[derive(Debug, Clone, PartialEq, Eq)]
pub enum CaptionError {
    /// The segmentation rules were unusable (see [`CaptionLayout::validate`]).
    ///
    /// [`CaptionLayout::validate`]: crate::caption::layout::CaptionLayout::validate
    Rules(String),
    /// A subtitle file could not be read. `line` is 1-based, as an editor shows
    /// it, so the message can be pointed straight at the offending line.
    Parse { line: usize, message: String },
    /// The input would produce more cues than one group may hold.
    TooManyCues { count: usize, max: usize },
}

impl CaptionError {
    /// A parse error at 1-based `line`.
    pub fn parse(line: usize, message: String) -> (e: CaptionError)
        ensures
            e matches CaptionError::Parse { line: l, message: m } && l == line && m@ == message@,
    {
        CaptionError::Parse { line, message }
    }

    /// What a parse error says, or nothing for other errors.
    pub open spec fn parse_message(self) -> Seq<char> {
        match self {
            CaptionError::Parse { message, .. } => message@,
            _ => Seq::empty(),
        }
    }

    /// The line a parse error points at, or `None` for other errors.
    pub open spec fn parse_line(self) -> Option<nat> {
        match self {
            CaptionError::Parse { line, .. } => Some(line as nat),
            _ => None,
        }
    }
}

/// Why a model-level caption edit or rule was refused.
#[derive(Debug, Clone, PartialEq, Eq)]
pub enum ModelError {
    /// A parameter is out of its allowed range.
    InvalidParam(String),
    /// A time range is empty or starts before zero.
    InvalidRange,
    /// No caption group has this id.
    UnknownCaptionGroup(CaptionGroupId),
    /// No clip has this id.
    UnknownClip(ClipId),
    /// The clip exists but carries no caption metadata.
    NotACaptionCue(ClipId),
    /// No track has this id.
    UnknownTrack(TrackId),
    /// The track exists but holds another kind of clip.
    IncompatibleTrackKind { track: TrackId, kind: TrackKind },
    /// The placement collides with a clip already on this track.
    Overlap(TrackId),
    /// No media asset in the project's pool has this id.
    UnknownMedia(MediaId),
}

impl ModelError {
    /// An invalid-parameter error with the given message.
    pub fn invalid(message: Vec<char>) -> (e: ModelError)
        ensures
            e matches ModelError::InvalidParam(m) && m@ == message@,
    {
        ModelError::InvalidParam(crate::text::string_of(message.as_slice()))
    }
}

impl ModelError {
    /// What a refused edit says.
    pub open spec fn text_spec(self) -> Seq<char> {
        match self {
            ModelError::InvalidParam(m) => m@,
            ModelError::InvalidRange => "invalid time range"@,
            ModelError::UnknownCaptionGroup(_) => "unknown caption group"@,
            ModelError::UnknownClip(_) => "unknown clip"@,
            ModelError::NotACaptionCue(_) => "not a caption cue"@,
            ModelError::UnknownTrack(_) => "unknown track"@,
            ModelError::IncompatibleTrackKind { .. } => "incompatible track kind"@,
            ModelError::Overlap(_) => "overlapping clips"@,
            ModelError::UnknownMedia(_) => "unknown media"@,
        }
    }
}

impl CaptionError {
    /// A broken rule, as the segmenter reports it: the refusal's text.
    pub fn from_model(error: ModelError) -> (e: CaptionError)
        ensures
            e matches CaptionError::Rules(m) && m@ == error.text_spec(),
    {
        let message = match error {
            ModelError::InvalidParam(m) => m,
            ModelError::InvalidRange => crate::text::string_of(
                crate::text::chars_of("invalid time range").as_slice(),
            ),
            ModelError::UnknownCaptionGroup(_) => crate::text::string_of(
                crate::text::chars_of("unknown caption group").as_slice(),
            ),
            ModelError::UnknownClip(_) => crate::text::string_of(
                crate::text::chars_of("unknown clip").as_slice(),
            ),
            ModelError::NotACaptionCue(_) => crate::text::string_of(
                crate::text::chars_of("not a caption cue").as_slice(),
            ),
            ModelError::UnknownTrack(_) => crate::text::string_of(
                crate::text::chars_of("unknown track").as_slice(),
            ),
            ModelError::IncompatibleTrackKind { .. } => crate::text::string_of(
                crate::text::chars_of("incompatible track kind").as_slice(),
            ),
            ModelError::Overlap(_) => crate::text::string_of(
                crate::text::chars_of("overlapping clips").as_slice(),
            ),
            ModelError::UnknownMedia(_) => crate::text::string_of(
                crate::text::chars_of("unknown media").as_slice(),
            ),
        };
        CaptionError::Rules(message)
    }
}

} // verus!
