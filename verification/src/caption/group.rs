//! Caption groups: provenance and restyle scope.

use vstd::prelude::*;

use crate::ids::MediaId;
use crate::text::chars_of;

verus! {

/// Which cues a group-wide restyle rewrites.
#[derive(Debug, Clone, Copy, PartialEq, Eq, Hash, Structural)]
pub enum CaptionStyleScope {
    /// Rewrite every cue, discarding individual styling ("Apply to all").
    /// Clears each cue's override flag.
    All,
    /// Leave hand-styled cues (`style_override`) untouched.
    KeepOverrides,
}

impl CaptionStyleScope {
    /// The scope a restyle uses unless told otherwise.
    pub fn default_scope() -> (s: CaptionStyleScope)
        ensures
            s == CaptionStyleScope::All,
    {
        CaptionStyleScope::All
    }
}

/// The subtitle file formats captions can be imported from.
#[derive(Debug, Clone, Copy, PartialEq, Eq, Hash, Structural)]
pub enum CaptionFileFormat {
    /// SubRip (`.srt`).
    Srt,
    /// WebVTT (`.vtt`).
    Vtt,
}

/// ASCII lowercase of one character.
pub open spec fn ascii_lower(c: char) -> char {
    if 'A' <= c && c <= 'Z' {
        ((c as u32) + 32) as char
    } else {
        c
    }
}

/// Number of leading `.` characters.
pub open spec fn lead_dots(s: Seq<char>) -> nat
    decreases s.len(),
{
    if s.len() > 0 && s[0] == '.' {
        1 + lead_dots(s.drop_first())
    } else {
        0
    }
}

/// The extension as `from_extension` compares it: leading dots dropped,
/// ASCII-lowercased.
pub open spec fn normalized_extension(s: Seq<char>) -> Seq<char> {
    let t = s.skip(lead_dots(s) as int);
    Seq::new(t.len(), |i: int| ascii_lower(t[i]))
}

impl CaptionFileFormat {
    /// The spec value of [`Self::id`].
    pub open spec fn spec_id(self) -> Seq<char> {
        match self {
            CaptionFileFormat::Srt => seq!['s', 'r', 't'],
            CaptionFileFormat::Vtt => seq!['v', 't', 't'],
        }
    }

    /// Stable wire id (the serde name), also the file extension.
    pub fn id(self) -> (r: String)
        ensures
            r@ == self.spec_id(),
    {
        let v = match self {
            CaptionFileFormat::Srt => vec!['s', 'r', 't'],
            CaptionFileFormat::Vtt => vec!['v', 't', 't'],
        };
        assert(v@ =~= self.spec_id());
        crate::text::string_of(v.as_slice())
    }

    /// The spec value of [`Self::from_extension`].
    pub open spec fn spec_from_extension(extension: Seq<char>) -> Option<CaptionFileFormat> {
        let e = normalized_extension(extension);
        if e == seq!['s', 'r', 't'] {
            Some(CaptionFileFormat::Srt)
        } else if e == seq!['v', 't', 't'] || e == seq!['w', 'e', 'b', 'v', 't', 't'] {
            Some(CaptionFileFormat::Vtt)
        } else {
            None
        }
    }

    /// The format for a file extension, case-insensitively, with or without
    /// its leading dot.
    pub fn from_extension(extension: &str) -> (r: Option<CaptionFileFormat>)
        ensures
            r == Self::spec_from_extension(extension@),
    {
        let v = chars_of(extension);
        let mut a: usize = 0;
        while a < v.len() && v[a] == '.'
            invariant
                a <= v.len(),
                forall|i: int| 0 <= i < a ==> #[trigger] v@[i] == '.',
            decreases v.len() - a,
        {
            a += 1;
        }
        proof {
            lemma_lead_dots(v@, a as int);
        }
        let mut lower: Vec<char> = Vec::new();
        let mut i = a;
        while i < v.len()
            invariant
                a <= i <= v.len(),
                lower@ == Seq::new((i - a) as nat, |j: int| ascii_lower(v@[a + j])),
            decreases v.len() - i,
        {
            let c = v[i];
            let l = if 'A' <= c && c <= 'Z' {
                ((c as u32) + 32) as u8 as char
            } else {
                c
            };
            proof {
                if 'A' <= c && c <= 'Z' {
                    assert(((c as u32) + 32) as u8 as char == ((c as u32) + 32) as char);
                }
            }
            lower.push(l);
            i += 1;
            assert(lower@ =~= Seq::new((i - a) as nat, |j: int| ascii_lower(v@[a + j])));
        }
        let ghost e = normalized_extension(v@);
        assert(lower@ =~= e);
        let srt = vec!['s', 'r', 't'];
        let vtt = vec!['v', 't', 't'];
        let webvtt = vec!['w', 'e', 'b', 'v', 't', 't'];
        if chars_eq(&lower, &srt) {
            assert(srt@ =~= seq!['s', 'r', 't']);
            Some(CaptionFileFormat::Srt)
        } else if chars_eq(&lower, &vtt) || chars_eq(&lower, &webvtt) {
            assert(vtt@ =~= seq!['v', 't', 't']);
            assert(webvtt@ =~= seq!['w', 'e', 'b', 'v', 't', 't']);
            Some(CaptionFileFormat::Vtt)
        } else {
            assert(srt@ =~= seq!['s', 'r', 't']);
            assert(vtt@ =~= seq!['v', 't', 't']);
            assert(webvtt@ =~= seq!['w', 'e', 'b', 'v', 't', 't']);
            None
        }
    }
}

proof fn lemma_lead_dots(s: Seq<char>, k: int)
    requires
        0 <= k <= s.len(),
        forall|i: int| 0 <= i < k ==> #[trigger] s[i] == '.',
        k < s.len() ==> s[k] != '.',
    ensures
        lead_dots(s) == k,
    decreases s.len(),
{
    if k > 0 {
        assert forall|i: int| 0 <= i < k - 1 implies #[trigger] s.drop_first()[i] == '.' by {
            assert(s.drop_first()[i] == s[i + 1]);
        }
        if k < s.len() {
            assert(s.drop_first()[k - 1] == s[k]);
        }
        lemma_lead_dots(s.drop_first(), k - 1);
    }
}

/// Whether two character vectors are equal.
pub fn chars_eq(a: &Vec<char>, b: &Vec<char>) -> (r: bool)
    ensures
        r == (a@ == b@),
{
    if a.len() != b.len() {
        return false;
    }
    let mut i: usize = 0;
    while i < a.len()
        invariant
            i <= a.len() == b.len(),
            forall|j: int| 0 <= j < i ==> a@[j] == b@[j],
        decreases a.len() - i,
    {
        if a[i] != b[i] {
            return false;
        }
        i += 1;
    }
    assert(a@ =~= b@);
    true
}

/// Where a caption group's cues came from — the provenance that decides
/// whether re-running recognition is meaningful and what the UI calls the
/// group.
#[derive(Debug, Clone, PartialEq)]
pub enum CaptionSource {
    /// Typed in the editor.
    Manual,
    /// Parsed from a subtitle file.
    Imported { format: CaptionFileFormat },
    /// Produced by speech recognition over one media asset's audio.
    Auto {
        media: MediaId,
        /// Language tag the recognizer was told to use, or `None` for
        /// auto-detect.
        language: Option<String>,
        /// Recognizer model id, so a re-run can be compared against the
        /// original.
        model: String,
    },
}

impl CaptionSource {
    /// Whether this group's cues can be regenerated from audio.
    pub fn is_auto(&self) -> (r: bool)
        ensures
            r == (self is Auto),
    {
        match self {
            CaptionSource::Auto { .. } => true,
            _ => false,
        }
    }
}

} // verus!
