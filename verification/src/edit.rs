//! Cue edits that keep word timings attached to the right text: re-timing
//! words onto edited text, partitioning a cue's words and text at a split,
//! and joining cues into one.

use std::ops::Range;

use vstd::prelude::*;

use crate::caption::cue::{word_view, words_view, CaptionWord};
use crate::reflow::{
    clamp_u32, clamp_u32_spec, lemma_tokens, tokenize, tokens, tokens_match, tokens_ok, Token,
};
use crate::text::{
    byte_at, byte_len, char_index, char_index_of, chars_of, is_boundary, lead_ws,
    lemma_byte_at_mono, string_of, string_of_range, trail_ws, trim_bounds, utf8_len,
};
use crate::segment::sub_floor;

verus! {

/// Word `i` of a re-timed table: the old timing when the word count is
/// unchanged, else an even share of the cue's overall span.
pub open spec fn retimed_word(prev: Seq<(u32, u32, u32, u32)>, text: Seq<char>, i: int) -> (
    u32,
    u32,
    u32,
    u32,
) {
    let ts = tokens(text);
    let count = ts.len();
    let span_start = prev[0].0;
    let span = sub_floor(prev[prev.len() - 1].1, span_start);
    let times: (u32, u32) = if count == prev.len() {
        (prev[i].0, prev[i].1)
    } else {
        (
            (span_start + span * i / count as int) as u32,
            (span_start + span * (i + 1) / count as int) as u32,
        )
    };
    (
        times.0,
        times.1,
        clamp_u32_spec(byte_at(text, ts[i].0) as int),
        clamp_u32_spec(byte_at(text, ts[i].1) as int),
    )
}

/// Word timings remapped onto edited text: nothing when there were no
/// timings or the text has no words; otherwise one word per token of the new
/// text, see [`retimed_word`].
pub open spec fn retime_spec(prev: Seq<(u32, u32, u32, u32)>, text: Seq<char>) -> Seq<
    (u32, u32, u32, u32),
> {
    if prev.len() == 0 || tokens(text).len() == 0 {
        Seq::empty()
    } else {
        Seq::new(tokens(text).len(), |i: int| retimed_word(prev, text, i))
    }
}

/// Editing a cue's text without changing how many words it has keeps every
/// word's timing: word `i` of the new table starts and ends where old word
/// `i` did, and covers the bytes of the `i`-th word of the new text.
pub proof fn law_retime_same_count_keeps_timings(prev: Seq<(u32, u32, u32, u32)>, text: Seq<char>)
    requires
        prev.len() > 0,
        tokens(text).len() == prev.len(),
    ensures
        retime_spec(prev, text).len() == prev.len(),
        forall|i: int|
            0 <= i < prev.len() ==> (#[trigger] retime_spec(prev, text)[i]).0 == prev[i].0 && retime_spec(prev, text)[i].1
                == prev[i].1,
        forall|i: int|
            0 <= i < prev.len() ==> (#[trigger] retime_spec(prev, text)[i]).2 == clamp_u32_spec(
                byte_at(text, tokens(text)[i].0) as int,
            ) && retime_spec(prev, text)[i].3 == clamp_u32_spec(byte_at(text, tokens(text)[i].1) as int),
{
}

/// Editing a cue's text into a different number of words spreads the cue's
/// overall span over the new words: one entry per word, the first starting
/// where the old first word started, the last ending where the old last word
/// ended (or at that start, if the old end came earlier), each starting where
/// the one before ended and none running backwards.
pub proof fn law_retime_new_count_spreads(prev: Seq<(u32, u32, u32, u32)>, text: Seq<char>)
    requires
        prev.len() > 0,
        tokens(text).len() > 0,
        tokens(text).len() != prev.len(),
    ensures
        ({
            let r = retime_spec(prev, text);
            let n = tokens(text).len() as int;
            &&& r.len() == n
            &&& r[0].0 == prev[0].0
            &&& r[n - 1].1 == (if prev[prev.len() - 1].1 >= prev[0].0 {
                prev[prev.len() - 1].1
            } else {
                prev[0].0
            })
            &&& forall|i: int| 0 <= i < n ==> (#[trigger] r[i]).0 <= r[i].1
            &&& forall|i: int| 0 < i < n ==> (#[trigger] r[i]).0 == r[i - 1].1
        }),
{
    let r = retime_spec(prev, text);
    let n = tokens(text).len() as int;
    let start = prev[0].0 as int;
    let span = sub_floor(prev[prev.len() - 1].1, prev[0].0);
    assert forall|i: int| 0 <= i < n implies (#[trigger] r[i]).0 <= r[i].1 && r[i].0 == start + span * i / n && r[i].1
        == start + span * (i + 1) / n by {
        crate::reflow::lemma_est_point(start, span, i, i + 1, n);
        crate::reflow::lemma_est_point(start, span, 0, i, n);
        crate::reflow::lemma_est_point(start, span, i + 1, n, n);
    }
    crate::reflow::lemma_est_point(start, span, 0, 0, n);
    crate::reflow::lemma_est_point(start, span, n, n, n);
}

/// `span_start` plus share `i` of `count` of `span`.
fn even_step(span_start: u32, span: u32, i: u64, count: u32) -> (r: u32)
    requires
        count > 0,
        i <= count,
        span_start as int + span as int <= u32::MAX,
    ensures
        r == span_start + span * i / count as int,
{
    assert(span * i <= span * (count as int)) by (nonlinear_arith)
        requires
            i <= count,
    ;
    assert(span as u64 * i <= 0xFFFF_FFFF * 0xFFFF_FFFF) by (nonlinear_arith)
        requires
            span <= 0xFFFF_FFFF,
            i <= 0xFFFF_FFFF,
    ;
    proof {
        vstd::arithmetic::div_mod::lemma_div_is_ordered(span * i, span * (count as int), count as int);
        vstd::arithmetic::div_mod::lemma_div_by_multiple(span as int, count as int);
        assert(span * (count as int) == (span as int) * (count as int));
    }
    let share = (span as u64 * i) / count as u64;
    span_start + share as u32
}

/// Remap word timings onto edited text.
///
/// Byte ranges cannot survive an arbitrary edit, so the new text is split on
/// whitespace and timings re-attached. Fixing a typo leaves the word count
/// alone and keeps every word's timing exactly; adding or removing words
/// spreads the cue's overall span evenly, which keeps the highlight monotonic
/// and roughly in sync. A cue with no prior timings stays untimed.
pub fn retime_words(previous: &[CaptionWord], text: &str) -> (out: Vec<CaptionWord>)
    requires
        tokens(text@).len() <= u32::MAX,
    ensures
        words_view(out@) == retime_spec(words_view(previous@), text@),
{
    let ghost prev = words_view(previous@);
    if previous.len() == 0 {
        return Vec::new();
    }
    let chars = chars_of(text);
    let pieces = tokenize(&chars);
    proof {
        lemma_tokens(text@);
    }
    if pieces.len() == 0 {
        return Vec::new();
    }
    let first = &previous[0];
    let last = &previous[previous.len() - 1];
    proof {
        assert(prev[0] == word_view(previous@[0]));
        assert(prev[prev.len() - 1] == word_view(previous@[previous@.len() - 1]));
    }
    let span_start = first.start_ms;
    let span: u32 = if last.end_ms >= span_start {
        last.end_ms - span_start
    } else {
        0
    };
    let count = pieces.len() as u32;
    let same = pieces.len() == previous.len();
    let mut out: Vec<CaptionWord> = Vec::new();
    let mut i: usize = 0;
    while i < pieces.len()
        invariant
            prev == words_view(previous@),
            prev.len() > 0,
            chars@ == text@,
            tokens_match(text@, pieces@, tokens(text@)),
            count == pieces@.len(),
            count > 0,
            same == (pieces@.len() == previous@.len()),
            span_start == prev[0].0,
            span == sub_floor(prev[prev.len() - 1].1, span_start),
            span_start as int + span as int <= u32::MAX,
            i <= pieces@.len(),
            out@.len() == i,
            forall|j: int| 0 <= j < i ==> #[trigger] word_view(out@[j]) == retimed_word(prev, text@, j),
        decreases pieces@.len() - i,
    {
        let piece = pieces[i];
        let (start_ms, end_ms) = if same {
            proof {
                assert(prev[i as int] == word_view(previous@[i as int]));
            }
            (previous[i].start_ms, previous[i].end_ms)
        } else {
            (even_step(span_start, span, i as u64, count), even_step(span_start, span, i as u64 + 1, count))
        };
        out.push(
            CaptionWord {
                start_ms,
                end_ms,
                range: Range { start: clamp_u32(piece.start), end: clamp_u32(piece.end) },
            },
        );
        i += 1;
    }
    proof {
        assert(words_view(out@) =~= retime_spec(prev, text@));
    }
    out
}

/// The words that end at or before `cut_ms` stay left; the rest move right
/// with their times moved back by the cut.
pub open spec fn rebase_after(ws: Seq<(u32, u32, u32, u32)>, cut: u32) -> Seq<(u32, u32, u32, u32)> {
    Seq::new(
        ws.len(),
        |j: int| (sub_floor(ws[j].0, cut) as u32, sub_floor(ws[j].1, cut) as u32, ws[j].2, ws[j].3),
    )
}

/// Word end times never go backwards.
pub open spec fn ends_ascending(ws: Seq<CaptionWord>) -> bool {
    forall|i: int, j: int| 0 <= i <= j < ws.len() ==> ws[i].end_ms <= ws[j].end_ms
}

/// Partition word timings at `cut_ms`: words that end at or before the cut
/// stay left, the rest move right with their times rebased to the new cue's
/// start. Found by binary search, so for words whose ends ascend (any valid
/// cue's) the left part is exactly the words ending by the cut.
pub fn split_words(words: &[CaptionWord], cut_ms: u32) -> (r: (Vec<CaptionWord>, Vec<CaptionWord>))
    ensures
        r.0@.len() + r.1@.len() == words@.len(),
        words_view(r.0@) == words_view(words@).take(r.0@.len() as int),
        words_view(r.1@) == rebase_after(words_view(words@).skip(r.0@.len() as int), cut_ms),
        ends_ascending(words@) ==> (forall|j: int| 0 <= j < r.0@.len() ==> #[trigger] words@[j].end_ms <= cut_ms),
        ends_ascending(words@) ==> (forall|j: int| r.0@.len() <= j < words@.len() ==> #[trigger] words@[j].end_ms > cut_ms),
{
    let ghost wv = words_view(words@);
    let mut lo: usize = 0;
    let mut hi: usize = words.len();
    while lo < hi
        invariant
            lo <= hi <= words@.len(),
            ends_ascending(words@) ==> forall|j: int| 0 <= j < lo ==> #[trigger] words@[j].end_ms <= cut_ms,
            ends_ascending(words@) ==> forall|j: int| hi <= j < words@.len() ==> #[trigger] words@[j].end_ms > cut_ms,
        decreases hi - lo,
    {
        let mid = lo + (hi - lo) / 2;
        if words[mid].end_ms <= cut_ms {
            lo = mid + 1;
        } else {
            hi = mid;
        }
    }
    let split = lo;
    let mut left: Vec<CaptionWord> = Vec::new();
    let mut right: Vec<CaptionWord> = Vec::new();
    let mut i: usize = 0;
    while i < words.len()
        invariant
            wv == words_view(words@),
            split <= words@.len(),
            i <= words@.len(),
            left@.len() == (if i < split { i } else { split }),
            right@.len() == (if i < split { 0 } else { i - split }),
            forall|j: int| 0 <= j < left@.len() ==> #[trigger] word_view(left@[j]) == wv[j],
            forall|j: int| 0 <= j < right@.len() ==> #[trigger] word_view(right@[j]) == rebase_after(wv.skip(split as int), cut_ms)[j],
        decreases words@.len() - i,
    {
        let w = &words[i];
        proof {
            assert(wv[i as int] == word_view(words@[i as int]));
        }
        if i < split {
            left.push(w.copy());
        } else {
            let start: u32 = if w.start_ms >= cut_ms {
                w.start_ms - cut_ms
            } else {
                0
            };
            let end: u32 = if w.end_ms >= cut_ms {
                w.end_ms - cut_ms
            } else {
                0
            };
            right.push(
                CaptionWord {
                    start_ms: start,
                    end_ms: end,
                    range: Range { start: w.range.start, end: w.range.end },
                },
            );
        }
        i += 1;
    }
    proof {
        assert(words_view(left@) =~= wv.take(split as int));
        assert(words_view(right@) =~= rebase_after(wv.skip(split as int), cut_ms));
    }
    (left, right)
}

/// Where a cue's text is cut at a word partition: at the first right word's
/// start, or at the text's end if that lies further on (and never before the
/// last left word's end).
pub open spec fn split_cut(text: Seq<char>, left: Seq<(u32, u32, u32, u32)>, right: Seq<(u32, u32, u32, u32)>) -> int {
    let past = if utf8_len(text) >= left[left.len() - 1].3 {
        utf8_len(text) as int
    } else {
        left[left.len() - 1].3 as int
    };
    if (right[0].2 as int) < past {
        right[0].2 as int
    } else {
        past
    }
}

/// How [`split_text`] splits: the two texts, and how far the right words'
/// ranges move back (`None`: the text is repeated on both sides and the
/// ranges are left alone).
pub open spec fn split_text_spec(text: Seq<char>, left: Seq<(u32, u32, u32, u32)>, right: Seq<(u32, u32, u32, u32)>) -> (
    Seq<char>,
    Seq<char>,
    Option<u32>,
) {
    if left.len() == 0 || right.len() == 0 {
        (text, text, None)
    } else {
        let cut = split_cut(text, left, right);
        if !is_boundary(text, cut) {
            (text, text, None)
        } else {
            let k = char_index(text, cut);
            let head = text.take(k);
            let tail = text.skip(k);
            (
                crate::text::trim_end(head),
                crate::text::trim_start(tail),
                Some(clamp_u32_spec(byte_at(text, k + lead_ws(tail)) as int)),
            )
        }
    }
}

/// A word table's ranges moved back by `shift` bytes (floored at zero).
pub open spec fn shift_ranges(ws: Seq<(u32, u32, u32, u32)>, shift: u32) -> Seq<(u32, u32, u32, u32)> {
    Seq::new(
        ws.len(),
        |j: int| (ws[j].0, ws[j].1, sub_floor(ws[j].2, shift) as u32, sub_floor(ws[j].3, shift) as u32),
    )
}

/// Split cue text to match a word partition, rebasing the right words' byte
/// ranges onto the right half's own text.
///
/// The left half keeps what comes before the first right word (trailing
/// whitespace trimmed); the right half the rest (leading whitespace trimmed).
/// Without words on both sides, or when the cut would fall inside a
/// character, both halves keep the whole text for the user to retype one.
pub fn split_text(text: &str, left_words: &[CaptionWord], right_words: &mut Vec<CaptionWord>) -> (r: (String, String))
    ensures
        ({
            let sp = split_text_spec(text@, words_view(left_words@), words_view(old(right_words)@));
            &&& r.0@ == sp.0
            &&& r.1@ == sp.1
            &&& words_view(final(right_words)@) == match sp.2 {
                Some(shift) => shift_ranges(words_view(old(right_words)@), shift),
                None => words_view(old(right_words)@),
            }
        }),
{
    let ghost lv = words_view(left_words@);
    let ghost rv = words_view(right_words@);
    let chars = chars_of(text);
    if left_words.len() == 0 || right_words.len() == 0 {
        return (string_of(chars.as_slice()), string_of(chars.as_slice()));
    }
    proof {
        assert(lv[lv.len() - 1] == word_view(left_words@[left_words@.len() - 1]));
        assert(rv[0] == word_view(right_words@[0]));
    }
    let total = byte_len(text);
    let last_end = left_words[left_words.len() - 1].range.end as usize;
    let past = if total >= last_end {
        total
    } else {
        last_end
    };
    let first_start = right_words[0].range.start as usize;
    let cut = if first_start < past {
        first_start
    } else {
        past
    };
    let k = match char_index_of(&chars, cut) {
        Some(k) => k,
        None => {
            return (string_of(chars.as_slice()), string_of(chars.as_slice()));
        },
    };
    // The left half, its trailing whitespace dropped.
    let mut b = k;
    while b > 0 && crate::text::is_whitespace(chars[b - 1])
        invariant
            b <= k <= chars@.len(),
            forall|i: int| b <= i < k ==> crate::text::is_ws(#[trigger] chars@[i]),
        decreases b,
    {
        b -= 1;
    }
    // The right half, its leading whitespace dropped.
    let mut a = k;
    let mut trimmed = cut;
    proof {
        crate::text::lemma_char_index(chars@, k as int);
    }
    while a < chars.len() && crate::text::is_whitespace(chars[a])
        invariant
            k <= a <= chars@.len(),
            utf8_len(chars@) <= usize::MAX,
            trimmed == byte_at(chars@, a as int),
            forall|i: int| k <= i < a ==> crate::text::is_ws(#[trigger] chars@[i]),
        decreases chars@.len() - a,
    {
        proof {
            crate::text::lemma_byte_at_next(chars@, a as int);
            lemma_byte_at_mono(chars@, a as int + 1, chars@.len() as int);
            assert(chars@.take(chars@.len() as int) =~= chars@);
        }
        trimmed = trimmed + crate::text::char_len_utf8(chars[a]);
        a += 1;
    }
    let ghost head = chars@.take(k as int);
    let ghost tail = chars@.skip(k as int);
    proof {
        assert forall|i: int| b <= i < head.len() implies crate::text::is_ws(#[trigger] head[i]) by {
            assert(head[i] == chars@[i]);
        }
        if b > 0 {
            assert(head[b - 1] == chars@[b - 1]);
        }
        crate::text::lemma_trail_ws_char(head, b as int);
        assert forall|i: int| 0 <= i < a - k implies crate::text::is_ws(#[trigger] tail[i]) by {
            assert(tail[i] == chars@[k + i]);
        }
        if a < chars@.len() {
            assert(tail[a - k] == chars@[a as int]);
        }
        crate::text::lemma_lead_ws_char(tail, a - k);
        assert(crate::text::trim_end(head) =~= chars@.subrange(0, b as int));
        assert(crate::text::trim_start(tail) =~= chars@.subrange(a as int, chars@.len() as int));
    }
    let left = string_of_range(&chars, 0, b);
    let right = string_of_range(&chars, a, chars.len());
    let shift = clamp_u32(trimmed);
    let mut j: usize = 0;
    while j < right_words.len()
        invariant
            j <= right_words@.len(),
            right_words@.len() == rv.len(),
            forall|i: int| 0 <= i < j ==> #[trigger] word_view(right_words@[i]) == shift_ranges(rv, shift)[i],
            forall|i: int| j <= i < rv.len() ==> #[trigger] word_view(right_words@[i]) == rv[i],
        decreases right_words@.len() - j,
    {
        let w = right_words[j].copy();
        let start: u32 = if w.range.start >= shift {
            w.range.start - shift
        } else {
            0
        };
        let end: u32 = if w.range.end >= shift {
            w.range.end - shift
        } else {
            0
        };
        right_words.set(j, CaptionWord { start_ms: w.start_ms, end_ms: w.end_ms, range: Range { start, end } });
        j += 1;
    }
    proof {
        assert(words_view(right_words@) =~= shift_ranges(rv, shift));
    }
    (left, right)
}

/// One cue being merged: its text, its word table, and how many
/// milliseconds after the merged cue's start it began.
pub struct MergePart {
    pub text: String,
    pub words: Vec<CaptionWord>,
    pub ms_offset: u32,
}

/// A merge part as plain values.
pub open spec fn part_view(p: MergePart) -> (Seq<char>, Seq<(u32, u32, u32, u32)>, u32) {
    (p.text@, words_view(p.words@), p.ms_offset)
}

/// `a + b`, capped at `u32::MAX`, as a `u32`.
pub open spec fn add_cap(a: u32, b: u32) -> u32 {
    crate::timing::sat_add_u32(a as int, b as int) as u32
}

/// The merged text of parts `0..n`: non-empty pieces joined by one space.
pub open spec fn merged_text(parts: Seq<(Seq<char>, Seq<(u32, u32, u32, u32)>, u32)>) -> Seq<char>
    decreases parts.len(),
{
    if parts.len() == 0 {
        Seq::empty()
    } else {
        let prev = merged_text(parts.drop_last());
        let piece = parts.last().0;
        (if prev.len() > 0 && piece.len() > 0 {
            prev.push(' ')
        } else {
            prev
        }) + piece
    }
}

/// The merged word table of parts `0..n`: each part's words shifted by its
/// time offset and by where its text starts in the merged text.
pub open spec fn merged_words(parts: Seq<(Seq<char>, Seq<(u32, u32, u32, u32)>, u32)>) -> Seq<
    (u32, u32, u32, u32),
>
    decreases parts.len(),
{
    if parts.len() == 0 {
        Seq::empty()
    } else {
        let prev_text = merged_text(parts.drop_last());
        let p = parts.last();
        let before = if prev_text.len() > 0 && p.0.len() > 0 {
            prev_text.push(' ')
        } else {
            prev_text
        };
        let offset = clamp_u32_spec(utf8_len(before) as int);
        merged_words(parts.drop_last()) + Seq::new(
            p.1.len(),
            |j: int| (add_cap(p.1[j].0, p.2), add_cap(p.1[j].1, p.2), add_cap(p.1[j].2, offset), add_cap(p.1[j].3, offset)),
        )
    }
}

fn add_capped(a: u32, b: u32) -> (r: u32)
    ensures
        r == add_cap(a, b),
{
    if a as u64 + b as u64 > 0xFFFF_FFFF {
        u32::MAX
    } else {
        a + b
    }
}

/// Join cues' texts with single spaces (skipping a space next to an empty
/// piece) and concatenate their word tables, shifting each part's words by
/// its time offset and by where its text lands, so the merged table still
/// points at the right bytes.
#[verifier::loop_isolation(false)]
pub fn merge_parts(parts: &Vec<MergePart>) -> (r: (String, Vec<CaptionWord>))
    ensures
        r.0@ == merged_text(Seq::new(parts@.len(), |i: int| part_view(parts@[i]))),
        words_view(r.1@) == merged_words(Seq::new(parts@.len(), |i: int| part_view(parts@[i]))),
{
    let ghost pv = Seq::new(parts@.len(), |i: int| part_view(parts@[i]));
    let mut text: Vec<char> = Vec::new();
    let mut bytes: u128 = 0;
    let mut words: Vec<CaptionWord> = Vec::new();
    let mut k: usize = 0;
    proof {
        assert(pv.take(0) =~= Seq::<(Seq<char>, Seq<(u32, u32, u32, u32)>, u32)>::empty());
    }
    while k < parts.len()
        invariant
            pv == Seq::new(parts@.len(), |i: int| part_view(parts@[i])),
            k <= parts@.len(),
            text@ == merged_text(pv.take(k as int)),
            bytes == utf8_len(text@),
            words_view(words@) == merged_words(pv.take(k as int)),
        decreases parts@.len() - k,
    {
        let part = &parts[k];
        let piece = chars_of(part.text.as_str());
        let ghost t0 = text@;
        let _n = text.len();
        proof {
            crate::segment::lemma_utf8_len_bound(text@);
            assert(pv[k as int] == part_view(parts@[k as int]));
        }
        if text.len() > 0 && piece.len() > 0 {
            text.push(' ');
            bytes = bytes + 1;
            proof {
                crate::text::lemma_utf8_len_concat(t0, seq![' ']);
                assert(seq![' '].drop_last() =~= Seq::<char>::empty());
                assert(utf8_len(Seq::<char>::empty()) == 0);
                assert(utf8_len(seq![' ']) == 1);
                assert(t0.push(' ') =~= t0 + seq![' ']);
            }
        }
        let ghost t1 = text@;
        let offset: u32 = if bytes > 0xFFFF_FFFF {
            u32::MAX
        } else {
            bytes as u32
        };
        assert(offset == clamp_u32_spec(utf8_len(t1) as int));
        let ghost w0 = words_view(words@);
        let mut j: usize = 0;
        while j < part.words.len()
            invariant
                j <= part.words@.len(),
                words@.len() == w0.len() + j,
                forall|i: int| 0 <= i < w0.len() ==> #[trigger] word_view(words@[i]) == w0[i],
                forall|i: int| 0 <= i < j ==> #[trigger] word_view(words@[w0.len() + i]) == (
                    add_cap(part.words@[i].start_ms, part.ms_offset),
                    add_cap(part.words@[i].end_ms, part.ms_offset),
                    add_cap(part.words@[i].range.start, offset),
                    add_cap(part.words@[i].range.end, offset),
                ),
            decreases part.words@.len() - j,
        {
            let w = &part.words[j];
            words.push(
                CaptionWord {
                    start_ms: add_capped(w.start_ms, part.ms_offset),
                    end_ms: add_capped(w.end_ms, part.ms_offset),
                    range: Range { start: add_capped(w.range.start, offset), end: add_capped(w.range.end, offset) },
                },
            );
            proof {
                assert(word_view(words@[w0.len() + j]) == (
                    add_cap(part.words@[j as int].start_ms, part.ms_offset),
                    add_cap(part.words@[j as int].end_ms, part.ms_offset),
                    add_cap(part.words@[j as int].range.start, offset),
                    add_cap(part.words@[j as int].range.end, offset),
                ));
            }
            j += 1;
        }
        crate::segment::push_word(&mut text, &mut bytes, &piece);
        k += 1;
        proof {
            let t = pv.take(k as int);
            assert(t.drop_last() =~= pv.take(k - 1));
            assert(t.last() == pv[k - 1]);
            assert(text@ =~= merged_text(t));
            let pw = pv[k - 1].1;
            assert(pw == words_view(part.words@));
            let prev_text = merged_text(t.drop_last());
            let before = if prev_text.len() > 0 && pv[k - 1].0.len() > 0 {
                prev_text.push(' ')
            } else {
                prev_text
            };
            assert(before =~= t1);
            let fresh = Seq::new(
                pw.len(),
                |j: int| (add_cap(pw[j].0, pv[k - 1].2), add_cap(pw[j].1, pv[k - 1].2), add_cap(pw[j].2, offset), add_cap(pw[j].3, offset)),
            );
            assert(merged_words(t) == merged_words(t.drop_last()) + fresh);
            assert forall|i: int| 0 <= i < words@.len() implies #[trigger] words_view(words@)[i] == (w0 + fresh)[i] by {
                if i >= w0.len() {
                    let m = i - w0.len();
                    assert(pw[m] == word_view(part.words@[m]));
                    assert(word_view(words@[w0.len() + m]) == (
                        add_cap(part.words@[m].start_ms, part.ms_offset),
                        add_cap(part.words@[m].end_ms, part.ms_offset),
                        add_cap(part.words@[m].range.start, offset),
                        add_cap(part.words@[m].range.end, offset),
                    ));
                    assert(w0.len() + m == i);
                } else {
                    assert(word_view(words@[i]) == w0[i]);
                }
            }
            assert(words_view(words@) =~= w0 + fresh);
        }
    }
    proof {
        assert(pv.take(parts@.len() as int) =~= pv);
    }
    (string_of(text.as_slice()), words)
}

} // verus!
