//! Caption cue metadata: per-word timings and the checks that keep them
//! pointing at the cue's own text.

use std::ops::Range;

use vstd::prelude::*;

use crate::error::ModelError;
use crate::ids::CaptionGroupId;
use crate::text::{byte_len, byte_slice, char_index_of, chars_of, is_boundary, utf8_len};

verus! {

/// Ceiling on per-cue word timings. A caption line is a handful of words; this
/// only exists so a malformed import can't hand the renderer an unbounded
/// table to search every frame.
pub const MAX_CAPTION_WORDS: usize = 512;

/// One word of a caption cue with its own timing, for word-highlight
/// rendering.
///
/// Times are clip-relative milliseconds, so they ride the cue when it moves.
/// The word's text is not duplicated: `range` is a byte range into the cue's
/// text.
#[derive(Debug, PartialEq, Eq)]
pub struct CaptionWord {
    /// Start offset from the cue's start, in milliseconds.
    pub start_ms: u32,
    /// End offset from the cue's start, in milliseconds (`>= start_ms`).
    pub end_ms: u32,
    /// Byte range of this word within the cue's text.
    pub range: Range<u32>,
}

/// A word as plain values: `(start_ms, end_ms, range start, range end)`.
pub open spec fn word_view(w: CaptionWord) -> (u32, u32, u32, u32) {
    (w.start_ms, w.end_ms, w.range.start, w.range.end)
}

/// The plain values of a list of words.
pub open spec fn words_view(words: Seq<CaptionWord>) -> Seq<(u32, u32, u32, u32)> {
    Seq::new(words.len(), |i: int| word_view(words[i]))
}

impl CaptionWord {
    pub fn new(start_ms: u32, end_ms: u32, range: Range<u32>) -> (w: CaptionWord)
        ensures
            w.start_ms == start_ms,
            w.end_ms == end_ms,
            w.range == range,
    {
        CaptionWord { start_ms, end_ms, range }
    }

    /// A word with the same timing and range.
    pub fn copy(&self) -> (w: CaptionWord)
        ensures
            word_view(w) == word_view(*self),
    {
        CaptionWord {
            start_ms: self.start_ms,
            end_ms: self.end_ms,
            range: Range { start: self.range.start, end: self.range.end },
        }
    }

    /// The word's byte range as a `usize` range, for slicing the cue text.
    pub fn byte_range(&self) -> (r: Range<usize>)
        ensures
            r.start == self.range.start,
            r.end == self.range.end,
    {
        Range { start: self.range.start as usize, end: self.range.end as usize }
    }

    /// The word's text, or `""` when the range does not land on character
    /// boundaries of `text` (a defensive read for hand-edited files).
    pub fn text<'a>(&self, text: &'a str) -> (r: &'a str)
        ensures
            r@ == byte_slice(text@, self.range.start as int, self.range.end as int),
    {
        proof {
            reveal_strlit("");
        }
        let chars = chars_of(text);
        if self.range.start > self.range.end {
            return "";
        }
        let from = char_index_of(&chars, self.range.start as usize);
        let to = char_index_of(&chars, self.range.end as usize);
        match (from, to) {
            (Some(a), Some(b)) => {
                proof {
                    if a > b {
                        crate::text::lemma_byte_at_mono(chars@, b as int, a as int);
                    }
                }
                text.substring_char(a, b)
            },
            _ => "",
        }
    }
}

impl Clone for CaptionWord {
    fn clone(&self) -> (w: CaptionWord)
        ensures
            word_view(w) == word_view(*self),
    {
        self.copy()
    }
}

/// Copies of `words`, word for word.
pub fn copy_words(words: &Vec<CaptionWord>) -> (out: Vec<CaptionWord>)
    ensures
        words_view(out@) == words_view(words@),
{
    let mut out: Vec<CaptionWord> = Vec::new();
    let mut i: usize = 0;
    while i < words.len()
        invariant
            i <= words.len(),
            out@.len() == i,
            forall|j: int| 0 <= j < i ==> #[trigger] word_view(out@[j]) == word_view(words@[j]),
        decreases words.len() - i,
    {
        out.push(words[i].copy());
        i += 1;
    }
    assert(words_view(out@) =~= words_view(words@));
    out
}

/// Whether word `i` of `words` is well placed in `text`: its range ascends,
/// ends inside the text, starts and ends on character boundaries, and its
/// times ascend; and it starts no earlier (in bytes and in time) than the
/// previous word ends.
pub open spec fn word_ok(words: Seq<CaptionWord>, i: int, text: Seq<char>) -> bool {
    let w = words[i];
    &&& w.range.start <= w.range.end
    &&& w.range.end <= utf8_len(text)
    &&& is_boundary(text, w.range.start as int)
    &&& is_boundary(text, w.range.end as int)
    &&& w.start_ms <= w.end_ms
    &&& i > 0 ==> words[i - 1].range.end <= w.range.start && words[i - 1].end_ms <= w.start_ms
}

/// Which check word `i` fails first, in the order the validator tries them:
/// `0` none, `1` its range runs backwards or starts before the previous
/// word's ends, `2` it ends past the text, `3` it splits a character, `4` its
/// times run backwards or start before the previous word's end.
pub open spec fn word_fault(words: Seq<CaptionWord>, i: int, text: Seq<char>) -> int {
    let w = words[i];
    let prev_end: u32 = if i > 0 {
        words[i - 1].range.end
    } else {
        0
    };
    let prev_ms: u32 = if i > 0 {
        words[i - 1].end_ms
    } else {
        0
    };
    if w.range.start < prev_end || w.range.end < w.range.start {
        1
    } else if w.range.end > utf8_len(text) {
        2
    } else if !is_boundary(text, w.range.start as int) || !is_boundary(text, w.range.end as int) {
        3
    } else if w.end_ms < w.start_ms || w.start_ms < prev_ms {
        4
    } else {
        0
    }
}

/// What the validator says of a word failing check `f` (see [`word_fault`]).
pub open spec fn word_fault_text(f: int) -> Seq<char> {
    if f == 1 {
        "caption word ranges must be ascending and non-overlapping"@
    } else if f == 2 {
        "caption word range is outside the cue text"@
    } else if f == 3 {
        "caption word range must fall on character boundaries"@
    } else {
        "caption word times must be ascending"@
    }
}

/// What the validator says of a word table that is not valid for `text`:
/// too many words, or the first failing check of the first bad word.
pub open spec fn words_fault_text(words: Seq<CaptionWord>, text: Seq<char>, m: Seq<char>) -> bool {
    if words.len() > MAX_CAPTION_WORDS {
        m == "caption cue has too many word timings (max 512)"@
    } else {
        exists|k: int|
            0 <= k < words.len() && (forall|j: int| 0 <= j < k ==> #[trigger] word_fault(words, j, text) == 0)
                && #[trigger] word_fault(words, k, text) != 0 && m == word_fault_text(word_fault(words, k, text))
    }
}

/// Word tables with the same plain values fail the same way.
pub proof fn lemma_fault_text_same_view(a: Seq<CaptionWord>, b: Seq<CaptionWord>, text: Seq<char>, m: Seq<char>)
    requires
        words_view(a) == words_view(b),
        words_fault_text(a, text, m),
    ensures
        words_fault_text(b, text, m),
{
    assert(a.len() == words_view(a).len());
    assert(b.len() == words_view(b).len());
    assert forall|i: int| 0 <= i < a.len() implies #[trigger] word_fault(a, i, text) == word_fault(b, i, text) by {
        assert(words_view(a)[i] == words_view(b)[i]);
        if i > 0 {
            assert(words_view(a)[i - 1] == words_view(b)[i - 1]);
        }
    }
    if a.len() <= MAX_CAPTION_WORDS {
        let k = choose|k: int|
            0 <= k < a.len() && (forall|j: int| 0 <= j < k ==> #[trigger] word_fault(a, j, text) == 0)
                && #[trigger] word_fault(a, k, text) != 0 && m == word_fault_text(word_fault(a, k, text));
        assert(word_fault(b, k, text) != 0);
        assert forall|j: int| 0 <= j < k implies #[trigger] word_fault(b, j, text) == 0 by {
            assert(word_fault(a, j, text) == 0);
        }
    }
}

/// [`word_ok`] on plain values `(start_ms, end_ms, range start, range end)`.
pub open spec fn view_ok(ws: Seq<(u32, u32, u32, u32)>, i: int, text: Seq<char>) -> bool {
    let w = ws[i];
    &&& w.2 <= w.3
    &&& w.3 <= utf8_len(text)
    &&& is_boundary(text, w.2 as int)
    &&& is_boundary(text, w.3 as int)
    &&& w.0 <= w.1
    &&& i > 0 ==> ws[i - 1].3 <= w.2 && ws[i - 1].1 <= w.0
}

/// Whether a table of plain word values is valid for `text`: at most
/// [`MAX_CAPTION_WORDS`] words, each of them [`view_ok`].
pub open spec fn views_valid(ws: Seq<(u32, u32, u32, u32)>, text: Seq<char>) -> bool {
    &&& ws.len() <= MAX_CAPTION_WORDS
    &&& forall|i: int| 0 <= i < ws.len() ==> #[trigger] view_ok(ws, i, text)
}

/// Whether a word table is valid for `text` ([`views_valid`] of its plain
/// values).
pub open spec fn words_valid(words: Seq<CaptionWord>, text: Seq<char>) -> bool {
    views_valid(words_view(words), text)
}

/// [`word_ok`] is [`view_ok`] of the plain values.
pub proof fn lemma_word_ok_view(words: Seq<CaptionWord>, i: int, text: Seq<char>)
    requires
        0 <= i < words.len(),
    ensures
        word_ok(words, i, text) == view_ok(words_view(words), i, text),
{
    assert(words_view(words)[i] == word_view(words[i]));
    if i > 0 {
        assert(words_view(words)[i - 1] == word_view(words[i - 1]));
    }
}

/// A word table is valid exactly when every word is [`word_ok`].
pub proof fn lemma_words_valid(words: Seq<CaptionWord>, text: Seq<char>)
    ensures
        words_valid(words, text) == (words.len() <= MAX_CAPTION_WORDS && forall|i: int|
            0 <= i < words.len() ==> #[trigger] word_ok(words, i, text)),
{
    assert(words_view(words).len() == words.len());
    assert forall|i: int|
        #![trigger word_ok(words, i, text)]
        #![trigger view_ok(words_view(words), i, text)]
        0 <= i < words.len() implies word_ok(words, i, text) == view_ok(words_view(words), i, text) by {
        lemma_word_ok_view(words, i, text);
    }
}

/// Word start times never go backwards.
pub open spec fn starts_ascending(words: Seq<CaptionWord>) -> bool {
    forall|i: int, j: int| 0 <= i <= j < words.len() ==> words[i].start_ms <= words[j].start_ms
}

/// A valid word table has ascending start times.
pub proof fn lemma_valid_words_ascend(words: Seq<CaptionWord>, text: Seq<char>)
    requires
        words_valid(words, text),
    ensures
        starts_ascending(words),
{
    lemma_words_valid(words, text);
    assert forall|i: int, j: int| 0 <= i <= j < words.len() implies words[i].start_ms
        <= words[j].start_ms by {
        lemma_ascend_between(words, text, i, j);
    }
}

proof fn lemma_ascend_between(words: Seq<CaptionWord>, text: Seq<char>, i: int, j: int)
    requires
        words_valid(words, text),
        0 <= i <= j < words.len(),
    ensures
        words[i].start_ms <= words[j].start_ms,
    decreases j - i,
{
    lemma_words_valid(words, text);
    if i < j {
        lemma_ascend_between(words, text, i, j - 1);
        assert(word_ok(words, j, text));
        assert(word_ok(words, j - 1, text));
    }
}

/// The word active at `ms` in a table whose starts ascend: the last one that
/// has started, or `None` before the first start or without words.
pub open spec fn active_word_ok(words: Seq<CaptionWord>, ms: u32, r: Option<usize>) -> bool {
    match r {
        None => words.len() == 0 || words[0].start_ms > ms,
        Some(i) => i < words.len() && words[i as int].start_ms <= ms && (i + 1 < words.len()
            ==> words[i + 1].start_ms > ms),
    }
}

/// Caption metadata carried by one cue clip: its group, its order in the
/// group, optional word timings and the flags that protect hand edits.
#[derive(Debug, Clone, PartialEq)]
pub struct CaptionCue {
    /// The group this cue belongs to.
    pub group: CaptionGroupId,
    /// Zero-based order within the group, ascending with timeline position.
    pub index: u32,
    /// Per-word timings for highlight rendering. Empty when unknown.
    pub words: Vec<CaptionWord>,
    /// Speaker label from diarization or manual tagging.
    pub speaker: Option<String>,
    /// The user re-worded this line, so re-running recognition must not
    /// silently overwrite it.
    pub text_edited: bool,
    /// The user styled this line individually, so a group restyle that keeps
    /// overrides leaves it alone.
    pub style_override: bool,
}

impl CaptionCue {
    /// A cue with no word timings: the manual-typing and plain-subtitle case.
    pub fn new(group: CaptionGroupId, index: u32) -> (c: CaptionCue)
        ensures
            c.group == group,
            c.index == index,
            c.words@.len() == 0,
            c.speaker is None,
            !c.text_edited,
            !c.style_override,
    {
        CaptionCue {
            group,
            index,
            words: Vec::new(),
            speaker: None,
            text_edited: false,
            style_override: false,
        }
    }

    /// Whether this cue can drive word-level highlighting.
    pub fn has_word_timings(&self) -> (r: bool)
        ensures
            r == (self.words@.len() > 0),
    {
        self.words.len() > 0
    }

    /// Validate the cue's word timings against the text they annotate: `Ok`
    /// exactly when [`words_valid`] holds. Times are not checked against the
    /// cue's duration, so trimming a cue never invalidates them.
    pub fn validate(&self, text: &str) -> (r: Result<(), ModelError>)
        ensures
            r is Ok <==> words_valid(self.words@, text@),
            r matches Err(e) ==> (e matches ModelError::InvalidParam(m) && words_fault_text(self.words@, text@, m@)),
    {
        proof {
            lemma_words_valid(self.words@, text@);
        }
        if self.words.len() > MAX_CAPTION_WORDS {
            return Err(
                ModelError::invalid(chars_of("caption cue has too many word timings (max 512)")),
            );
        }
        let chars = chars_of(text);
        let total = byte_len(text);
        let len: u32 = if total > 0xFFFF_FFFF {
            u32::MAX
        } else {
            total as u32
        };
        let mut prev_end: u32 = 0;
        let mut prev_end_ms: u32 = 0;
        let mut i: usize = 0;
        while i < self.words.len()
            invariant
                i <= self.words@.len() <= MAX_CAPTION_WORDS,
                chars@ == text@,
                utf8_len(chars@) <= usize::MAX,
                total == utf8_len(text@),
                len == (if total > 0xFFFF_FFFF { 0xFFFF_FFFF } else { total as int }),
                i > 0 ==> prev_end == self.words@[i - 1].range.end && prev_end_ms
                    == self.words@[i - 1].end_ms,
                i == 0 ==> prev_end == 0 && prev_end_ms == 0,
                forall|j: int| 0 <= j < i ==> #[trigger] word_ok(self.words@, j, text@),
                forall|j: int| 0 <= j < i ==> #[trigger] word_fault(self.words@, j, text@) == 0,
            decreases self.words@.len() - i,
        {
            let word = &self.words[i];
            let ghost ws = self.words@;
            if word.range.start < prev_end || word.range.end < word.range.start {
                proof {
                    assert(!word_ok(self.words@, i as int, text@));
                    lemma_words_valid(self.words@, text@);
                    assert(word_fault(ws, i as int, text@) == 1);
                    assert(words_fault_text(ws, text@, word_fault_text(1)));
                }
                return Err(
                    ModelError::invalid(
                        chars_of("caption word ranges must be ascending and non-overlapping"),
                    ),
                );
            }
            if word.range.end > len {
                proof {
                    assert(!word_ok(self.words@, i as int, text@));
                    lemma_words_valid(self.words@, text@);
                    assert(word_fault(ws, i as int, text@) == 2);
                    assert(words_fault_text(ws, text@, word_fault_text(2)));
                }
                return Err(
                    ModelError::invalid(chars_of("caption word range is outside the cue text")),
                );
            }
            let from = char_index_of(&chars, word.range.start as usize);
            let to = char_index_of(&chars, word.range.end as usize);
            if from.is_none() || to.is_none() {
                proof {
                    assert(!word_ok(self.words@, i as int, text@));
                    lemma_words_valid(self.words@, text@);
                    assert(word_fault(ws, i as int, text@) == 3);
                    assert(words_fault_text(ws, text@, word_fault_text(3)));
                }
                return Err(
                    ModelError::invalid(
                        chars_of("caption word range must fall on character boundaries"),
                    ),
                );
            }
            if word.end_ms < word.start_ms || word.start_ms < prev_end_ms {
                proof {
                    assert(!word_ok(self.words@, i as int, text@));
                    lemma_words_valid(self.words@, text@);
                    assert(word_fault(ws, i as int, text@) == 4);
                    assert(words_fault_text(ws, text@, word_fault_text(4)));
                }
                return Err(
                    ModelError::invalid(chars_of("caption word times must be ascending")),
                );
            }
            proof {
                assert(word_fault(ws, i as int, text@) == 0);
            }
            prev_end = word.range.end;
            prev_end_ms = word.end_ms;
            i += 1;
        }
        Ok(())
    }

    /// Index of the word active at `ms` (clip-relative milliseconds).
    ///
    /// Inside a gap between words, and past the last one, this holds the most
    /// recently started word so a highlight never flickers off mid-line.
    /// `None` only without timings or before the first word begins. A binary
    /// search, so it is safe to call every frame.
    pub fn active_word_at(&self, ms: u32) -> (r: Option<usize>)
        ensures
            self.words@.len() == 0 ==> r is None,
            r matches Some(i) ==> i < self.words@.len(),
            starts_ascending(self.words@) ==> active_word_ok(self.words@, ms, r),
    {
        if self.words.len() == 0 {
            return None;
        }
        let mut lo: usize = 0;
        let mut hi: usize = self.words.len();
        while lo < hi
            invariant
                lo <= hi <= self.words@.len(),
                starts_ascending(self.words@) ==> forall|j: int|
                    0 <= j < lo ==> #[trigger] self.words@[j].start_ms <= ms,
                starts_ascending(self.words@) ==> forall|j: int|
                    hi <= j < self.words@.len() ==> #[trigger] self.words@[j].start_ms > ms,
            decreases hi - lo,
        {
            let mid = lo + (hi - lo) / 2;
            if self.words[mid].start_ms <= ms {
                lo = mid + 1;
            } else {
                hi = mid;
            }
        }
        if lo == 0 {
            None
        } else {
            Some(lo - 1)
        }
    }
}

} // verus!
