//! Caption word highlighting modes.

use vstd::prelude::*;

use crate::text::string_of;

verus! {

/// What a caption group highlights as it plays.
#[derive(Debug, Clone, Copy, PartialEq, Eq, Hash, Structural)]
pub enum CaptionHighlightMode {
    /// No highlight — the whole cue renders in its own style.
    Off,
    /// Emphasize the word being spoken (karaoke). Requires word timings.
    Word,
    /// Emphasize every word up to and including the one being spoken.
    Line,
}

impl CaptionHighlightMode {
    /// The spec value of [`Self::id`].
    pub open spec fn spec_id(self) -> Seq<char> {
        match self {
            CaptionHighlightMode::Off => seq!['o', 'f', 'f'],
            CaptionHighlightMode::Word => seq!['w', 'o', 'r', 'd'],
            CaptionHighlightMode::Line => seq!['l', 'i', 'n', 'e'],
        }
    }

    /// Stable wire/catalog id (the serde name).
    pub fn id(self) -> (r: String)
        ensures
            r@ == self.spec_id(),
    {
        let v = match self {
            CaptionHighlightMode::Off => vec!['o', 'f', 'f'],
            CaptionHighlightMode::Word => vec!['w', 'o', 'r', 'd'],
            CaptionHighlightMode::Line => vec!['l', 'i', 'n', 'e'],
        };
        assert(v@ =~= self.spec_id());
        string_of(v.as_slice())
    }

    /// The spec value of [`Self::label`].
    pub open spec fn spec_label(self) -> Seq<char> {
        match self {
            CaptionHighlightMode::Off => seq!['O', 'f', 'f'],
            CaptionHighlightMode::Word => seq!['W', 'o', 'r', 'd'],
            CaptionHighlightMode::Line => seq!['L', 'i', 'n', 'e'],
        }
    }

    /// The name shown in the inspector.
    pub fn label(self) -> (r: String)
        ensures
            r@ == self.spec_label(),
    {
        let v = match self {
            CaptionHighlightMode::Off => vec!['O', 'f', 'f'],
            CaptionHighlightMode::Word => vec!['W', 'o', 'r', 'd'],
            CaptionHighlightMode::Line => vec!['L', 'i', 'n', 'e'],
        };
        assert(v@ =~= self.spec_label());
        string_of(v.as_slice())
    }

    /// Whether this mode needs per-word timings to render.
    pub fn needs_word_timings(self) -> (r: bool)
        ensures
            r == !(self is Off),
    {
        match self {
            CaptionHighlightMode::Off => false,
            _ => true,
        }
    }

    /// Every mode, in inspector order.
    pub fn all() -> (r: [CaptionHighlightMode; 3])
        ensures
            r@ == seq![
                CaptionHighlightMode::Off,
                CaptionHighlightMode::Word,
                CaptionHighlightMode::Line,
            ],
    {
        let r = [CaptionHighlightMode::Off, CaptionHighlightMode::Word, CaptionHighlightMode::Line];
        assert(r@ =~= seq![
            CaptionHighlightMode::Off,
            CaptionHighlightMode::Word,
            CaptionHighlightMode::Line,
        ]);
        r
    }
}

} // verus!
