//! Timed words into readable cues.
//!
//! Lines break on sentence ends and speech pauses first, then on the layout's
//! character and line limits, then on its maximum duration: the priority that
//! keeps a line a unit of meaning rather than a unit of width.

use vstd::prelude::*;

use crate::caption::cue::{word_view, words_view, CaptionWord};
use crate::caption::layout::{default_layout_spec, layout_valid, CaptionLayout};
use crate::caption::spec::{cue_spec_error, cue_spec_view, cue_specs_view, CaptionCueSpec, MAX_CAPTION_CUES};
use crate::error::CaptionError;
use crate::text::{chars_of, is_ws, string_of, trim, trim_bounds, utf8_len};
use crate::time::{sat_add_i64, RationalTime, TimeRange};
use crate::timing::{separate_spans, snap_spans, Placement};

verus! {

/// Silence between two words that ends a caption line, in milliseconds.
pub const DEFAULT_PAUSE_BREAK_MS: u32 = 400;

/// One spoken word with its own timing: the neutral input to segmentation.
#[derive(Debug, Clone, PartialEq)]
pub struct TimedWord {
    /// Start in milliseconds, on whatever clock the caller is placing from.
    pub start_ms: u32,
    /// End in milliseconds.
    pub end_ms: u32,
    pub text: String,
}

impl TimedWord {
    pub fn new(start_ms: u32, end_ms: u32, text: &str) -> (w: TimedWord)
        ensures
            w.start_ms == start_ms,
            w.end_ms == end_ms,
            w.text@ == text@,
    {
        TimedWord { start_ms, end_ms, text: crate::text::string_of(chars_of(text).as_slice()) }
    }
}

/// A timed word as plain values.
pub open spec fn timed_view(w: TimedWord) -> (u32, u32, Seq<char>) {
    (w.start_ms, w.end_ms, w.text@)
}

/// The plain values of a list of timed words.
pub open spec fn timed_views(ws: Seq<TimedWord>) -> Seq<(u32, u32, Seq<char>)> {
    Seq::new(ws.len(), |i: int| timed_view(ws[i]))
}

/// How to turn words into cues.
#[derive(Debug, Clone, Copy, PartialEq, Eq, Structural)]
pub struct SegmentOptions {
    /// The group's segmentation rules.
    pub layout: CaptionLayout,
    /// Where the resulting cues land on the timeline.
    pub placement: Placement,
    /// Silence that forces a new cue. Zero disables pause breaking.
    pub pause_break_ms: u32,
    /// Start a new cue after `.`, `!` or `?`, so a line is one sentence
    /// wherever the sentence is short enough to fit.
    pub break_on_sentence: bool,
}

impl SegmentOptions {
    pub fn new(placement: Placement) -> (o: SegmentOptions)
        ensures
            o.layout == default_layout_spec(),
            o.placement == placement,
            o.pause_break_ms == DEFAULT_PAUSE_BREAK_MS,
            o.break_on_sentence,
    {
        SegmentOptions {
            layout: CaptionLayout::default_layout(),
            placement,
            pause_break_ms: DEFAULT_PAUSE_BREAK_MS,
            break_on_sentence: true,
        }
    }

    pub fn with_layout(self, layout: CaptionLayout) -> (o: SegmentOptions)
        ensures
            o == (SegmentOptions { layout, ..self }),
    {
        SegmentOptions { layout, ..self }
    }
}

/// A character that may close a quotation or aside after a sentence's end.
pub open spec fn is_closer(c: char) -> bool {
    c == '"' || c == '\'' || c == ')' || c == ']' || c == '\u{bb}' || c == '\u{201d}' || c
        == '\u{2019}'
}

/// A character that ends a sentence.
pub open spec fn is_terminal(c: char) -> bool {
    c == '.' || c == '!' || c == '?' || c == '\u{2026}' || c == '\u{3002}' || c == '\u{ff01}' || c
        == '\u{ff1f}'
}

/// `t` without its trailing closers.
pub open spec fn strip_closers(t: Seq<char>) -> Seq<char>
    decreases t.len(),
{
    if t.len() > 0 && is_closer(t.last()) {
        strip_closers(t.drop_last())
    } else {
        t
    }
}

/// Whether `t` closes a sentence, looking past trailing quotes and brackets
/// so `"stop!"` still counts.
pub open spec fn ends_sentence_spec(t: Seq<char>) -> bool {
    let u = strip_closers(t);
    u.len() > 0 && is_terminal(u.last())
}

/// Whether `t` closes a sentence ([`ends_sentence_spec`]).
pub fn ends_sentence(t: &Vec<char>) -> (r: bool)
    ensures
        r == ends_sentence_spec(t@),
{
    let mut n = t.len();
    proof {
        assert(t@.take(n as int) =~= t@);
    }
    while n > 0 && is_closer_char(t[n - 1])
        invariant
            n <= t.len(),
            strip_closers(t@.take(n as int)) == strip_closers(t@),
        decreases n,
    {
        proof {
            assert(t@.take(n as int).drop_last() =~= t@.take(n as int - 1));
        }
        n -= 1;
    }
    proof {
        if n > 0 {
            assert(t@.take(n as int).last() == t@[n - 1]);
        }
        assert(t@.take(t@.len() as int) =~= t@);
    }
    n > 0 && is_terminal_char(t[n - 1])
}

fn is_closer_char(c: char) -> (r: bool)
    ensures
        r == is_closer(c),
{
    c == '"' || c == '\'' || c == ')' || c == ']' || c == '\u{bb}' || c == '\u{201d}' || c
        == '\u{2019}'
}

fn is_terminal_char(c: char) -> (r: bool)
    ensures
        r == is_terminal(c),
{
    c == '.' || c == '!' || c == '?' || c == '\u{2026}' || c == '\u{3002}' || c == '\u{ff01}' || c
        == '\u{ff1f}'
}

/// A word with its text trimmed and its timing forced forward, plus the
/// index of the word it came from.
pub struct Word {
    pub start_ms: u32,
    pub end_ms: u32,
    pub text: Vec<char>,
    pub source: usize,
}

/// A normalized word as plain values: `(start, end, trimmed text, source)`.
pub open spec fn word_spec(w: Word) -> (u32, u32, Seq<char>, int) {
    (w.start_ms, w.end_ms, w.text@, w.source as int)
}

/// The plain values of normalized words.
pub open spec fn words_spec(ws: Seq<Word>) -> Seq<(u32, u32, Seq<char>, int)> {
    Seq::new(ws.len(), |i: int| word_spec(ws[i]))
}

/// Normalized words from input index `i` on, the previous kept word having
/// ended at `prev_end`: blank words dropped, text trimmed, each start moved
/// up to the previous end and each end up to its start.
pub open spec fn normalize_from(ws: Seq<(u32, u32, Seq<char>)>, i: int, prev_end: u32) -> Seq<
    (u32, u32, Seq<char>, int),
>
    decreases ws.len() - i,
{
    if i < 0 || i >= ws.len() {
        Seq::empty()
    } else {
        let t = trim(ws[i].2);
        if t.len() == 0 {
            normalize_from(ws, i + 1, prev_end)
        } else {
            let s = if ws[i].0 >= prev_end {
                ws[i].0
            } else {
                prev_end
            };
            let e = if ws[i].1 >= s {
                ws[i].1
            } else {
                s
            };
            seq![(s, e, t, i)] + normalize_from(ws, i + 1, e)
        }
    }
}

/// The words segmentation works on.
pub open spec fn normalize_spec(ws: Seq<(u32, u32, Seq<char>)>) -> Seq<(u32, u32, Seq<char>, int)> {
    normalize_from(ws, 0, 0)
}

/// Normalized words never run backwards and are never blank.
pub proof fn lemma_normalize_from(ws: Seq<(u32, u32, Seq<char>)>, i: int, prev_end: u32)
    ensures
        ({
            let n = normalize_from(ws, i, prev_end);
            &&& forall|k: int| 0 <= k < n.len() ==> #[trigger] n[k].0 <= n[k].1
            &&& forall|k: int| 0 <= k < n.len() ==> prev_end <= #[trigger] n[k].0
            &&& forall|k: int| 0 < k < n.len() ==> #[trigger] n[k - 1].1 <= n[k].0
            &&& forall|k: int| 0 <= k < n.len() ==> (#[trigger] n[k]).2.len() > 0
            &&& forall|k: int| 0 <= k < n.len() ==> 0 <= (#[trigger] n[k]).3 < ws.len()
        }),
    decreases ws.len() - i,
{
    if 0 <= i < ws.len() {
        let t = trim(ws[i].2);
        if t.len() == 0 {
            lemma_normalize_from(ws, i + 1, prev_end);
            assert(normalize_from(ws, i, prev_end) == normalize_from(ws, i + 1, prev_end));
        } else {
            let s = if ws[i].0 >= prev_end {
                ws[i].0
            } else {
                prev_end
            };
            let e = if ws[i].1 >= s {
                ws[i].1
            } else {
                s
            };
            lemma_normalize_from(ws, i + 1, e);
            let rest = normalize_from(ws, i + 1, e);
            let n = seq![(s, e, t, i)] + rest;
            assert(normalize_from(ws, i, prev_end) == n);
            assert forall|k: int| 0 < k < n.len() implies #[trigger] n[k - 1].1 <= n[k].0 by {
                assert(n[k] == rest[k - 1]);
                if k > 1 {
                    assert(n[k - 1] == rest[k - 2]);
                }
            }
            assert forall|k: int| 0 <= k < n.len() implies prev_end <= #[trigger] n[k].0 by {
                if k > 0 {
                    assert(n[k] == rest[k - 1]);
                }
            }
            assert forall|k: int| 0 <= k < n.len() implies #[trigger] n[k].0 <= n[k].1 by {
                if k > 0 {
                    assert(n[k] == rest[k - 1]);
                }
            }
            assert forall|k: int| 0 <= k < n.len() implies (#[trigger] n[k]).2.len() > 0 by {
                if k > 0 {
                    assert(n[k] == rest[k - 1]);
                }
            }
            assert forall|k: int| 0 <= k < n.len() implies 0 <= (#[trigger] n[k]).3 < ws.len() by {
                if k > 0 {
                    assert(n[k] == rest[k - 1]);
                }
            }
        }
    }
}

/// Copy `v[lo..hi]`.
fn copy_range(v: &Vec<char>, lo: usize, hi: usize) -> (out: Vec<char>)
    requires
        lo <= hi <= v.len(),
    ensures
        out@ == v@.subrange(lo as int, hi as int),
{
    let mut out: Vec<char> = Vec::new();
    let mut i = lo;
    while i < hi
        invariant
            lo <= i <= hi <= v.len(),
            out@ == v@.subrange(lo as int, i as int),
        decreases hi - i,
    {
        out.push(v[i]);
        i += 1;
        assert(out@ =~= v@.subrange(lo as int, i as int));
    }
    out
}

/// Drop blank words, trim the rest and force their timing forward.
pub fn normalize(words: &[TimedWord]) -> (out: Vec<Word>)
    ensures
        words_spec(out@) == normalize_spec(timed_views(words@)),
{
    let ghost ws = timed_views(words@);
    let mut out: Vec<Word> = Vec::new();
    let mut previous_end: u32 = 0;
    let mut i: usize = 0;
    while i < words.len()
        invariant
            ws == timed_views(words@),
            i <= words@.len(),
            words_spec(out@) + normalize_from(ws, i as int, previous_end) == normalize_spec(ws),
        decreases words@.len() - i,
    {
        let word = &words[i];
        let chars = chars_of(word.text.as_str());
        let (lo, hi) = trim_bounds(&chars, 0, chars.len());
        proof {
            assert(chars@.subrange(0, chars@.len() as int) =~= chars@);
            assert(ws[i as int] == timed_view(words@[i as int]));
        }
        if lo < hi {
            let text = copy_range(&chars, lo, hi);
            let start_ms = if word.start_ms >= previous_end {
                word.start_ms
            } else {
                previous_end
            };
            let end_ms = if word.end_ms >= start_ms {
                word.end_ms
            } else {
                start_ms
            };
            let ghost before = out@;
            out.push(Word { start_ms, end_ms, text, source: i });
            previous_end = end_ms;
            proof {
                assert(words_spec(out@) =~= words_spec(before).push(
                    (start_ms, end_ms, trim(ws[i as int].2), i as int),
                ));
            }
        }
        i += 1;
    }
    proof {
        assert(words_spec(out@) + Seq::empty() =~= words_spec(out@));
    }
    out
}

/// Lines of word indices, as plain values.
pub open spec fn lines_view(lines: Seq<Vec<usize>>) -> Seq<Seq<usize>> {
    Seq::new(lines.len(), |i: int| lines[i]@)
}

/// Cues of lines of word indices, as plain values.
pub open spec fn cues_view(cues: Seq<Vec<Vec<usize>>>) -> Seq<Seq<Seq<usize>>> {
    Seq::new(cues.len(), |i: int| lines_view(cues[i]@))
}

/// The packer's state between words: the cue's finished lines, the line in
/// progress, that line's characters, and when the cue started.
pub type PackState = (Seq<Seq<usize>>, Seq<usize>, int, u32);

/// Close the line and cue in progress: what it emits, and the emptied state.
pub open spec fn flush_spec(st: PackState) -> (Seq<Seq<Seq<usize>>>, PackState) {
    let lines = if st.1.len() > 0 {
        st.0.push(st.1)
    } else {
        st.0
    };
    (
        if lines.len() > 0 {
            seq![lines]
        } else {
            Seq::empty()
        },
        (Seq::empty(), Seq::empty(), 0, st.3),
    )
}

/// `a - b`, floored at zero.
pub open spec fn sub_floor(a: u32, b: u32) -> int {
    if a >= b {
        a - b
    } else {
        0
    }
}

/// Before word `idx` joins: a pause, a sentence end or an overlong cue
/// closes what is in progress.
pub open spec fn break_spec(
    nw: Seq<(u32, u32, Seq<char>, int)>,
    o: SegmentOptions,
    idx: int,
    st: PackState,
) -> (Seq<Seq<Seq<usize>>>, PackState) {
    if !(st.0.len() == 0 && st.1.len() == 0) {
        let w = nw[idx];
        let prev = nw[idx - 1];
        let paused = o.pause_break_ms > 0 && sub_floor(w.0, prev.1) >= o.pause_break_ms;
        let sentence = o.break_on_sentence && ends_sentence_spec(prev.2);
        let overlong = sub_floor(w.1, st.3) > o.layout.max_duration_ms;
        if paused || sentence || overlong {
            flush_spec(st)
        } else {
            (Seq::empty(), st)
        }
    } else {
        (Seq::empty(), st)
    }
}

/// The line budget: when word `idx` would overflow the line in progress, the
/// line ends, and the cue too when it holds its last line.
pub open spec fn fit_spec(
    nw: Seq<(u32, u32, Seq<char>, int)>,
    o: SegmentOptions,
    idx: int,
    st: PackState,
) -> (Seq<Seq<Seq<usize>>>, PackState) {
    let max_lines: int = if o.layout.max_lines == 0 { 1 } else { o.layout.max_lines as int };
    if st.1.len() > 0 && st.2 + 1 + nw[idx].2.len() > o.layout.max_chars_per_line {
        if st.0.len() + 1 >= max_lines {
            flush_spec(st)
        } else {
            (Seq::empty(), (st.0.push(st.1), Seq::empty(), 0, st.3))
        }
    } else {
        (Seq::empty(), st)
    }
}

/// Word `idx` joins the line in progress.
pub open spec fn join_spec(nw: Seq<(u32, u32, Seq<char>, int)>, idx: int, st: PackState) -> PackState {
    let w = nw[idx];
    let cue_start = if st.0.len() == 0 && st.1.len() == 0 {
        w.0
    } else {
        st.3
    };
    let chars = (if st.1.len() > 0 { st.2 + 1 } else { st.2 }) + w.2.len();
    (st.0, st.1.push(idx as usize), chars, cue_start)
}

/// What packing word `idx` emits, and the state after it.
pub open spec fn pack_step(
    nw: Seq<(u32, u32, Seq<char>, int)>,
    o: SegmentOptions,
    idx: int,
    st: PackState,
) -> (Seq<Seq<Seq<usize>>>, PackState) {
    let b = break_spec(nw, o, idx, st);
    let f = fit_spec(nw, o, idx, b.1);
    (b.0 + f.0, join_spec(nw, idx, f.1))
}

/// The cues packed from word `idx` on, in state `st`.
pub open spec fn pack_from(
    nw: Seq<(u32, u32, Seq<char>, int)>,
    o: SegmentOptions,
    idx: int,
    st: PackState,
) -> Seq<Seq<Seq<usize>>>
    decreases nw.len() - idx,
{
    if idx < 0 || idx >= nw.len() {
        flush_spec(st).0
    } else {
        let p = pack_step(nw, o, idx, st);
        p.0 + pack_from(nw, o, idx + 1, p.1)
    }
}

/// Words packed into cues, each a list of lines of word indices.
pub open spec fn pack_spec(nw: Seq<(u32, u32, Seq<char>, int)>, o: SegmentOptions) -> Seq<
    Seq<Seq<usize>>,
> {
    pack_from(nw, o, 0, (Seq::empty(), Seq::empty(), 0, 0))
}

/// Move `v` out, leaving it empty.
fn take_vec<T>(v: &mut Vec<T>) -> (out: Vec<T>)
    ensures
        out@ == old(v)@,
        final(v)@.len() == 0,
{
    let mut out: Vec<T> = Vec::new();
    std::mem::swap(&mut out, v);
    out
}

/// Close the line and cue in progress ([`flush_spec`]).
fn flush(
    cues: &mut Vec<Vec<Vec<usize>>>,
    lines: &mut Vec<Vec<usize>>,
    line: &mut Vec<usize>,
    line_chars: &mut usize,
    Ghost(cue_start): Ghost<u32>,
)
    ensures
        ({
            let f = flush_spec((lines_view(old(lines)@), old(line)@, *old(line_chars) as int, cue_start));
            &&& cues_view(final(cues)@) == cues_view(old(cues)@) + f.0
            &&& lines_view(final(lines)@) == f.1.0
            &&& final(line)@ == f.1.1
            &&& *final(line_chars) == f.1.2
        }),
{
    let ghost l0 = lines_view(lines@);
    if line.len() > 0 {
        let taken = take_vec(line);
        lines.push(taken);
        assert(lines_view(lines@) =~= l0.push(old(line)@));
    }
    *line_chars = 0;
    let ghost l1 = lines_view(lines@);
    let ghost c0 = cues_view(cues@);
    if lines.len() > 0 {
        let taken = take_vec(lines);
        cues.push(taken);
        assert(cues_view(cues@) =~= c0 + seq![l1]);
    } else {
        assert(cues_view(cues@) =~= c0 + Seq::empty());
    }
    assert(lines_view(lines@) =~= Seq::<Seq<usize>>::empty());
}

/// Pack words into cues, each a list of lines of word indices
/// ([`pack_spec`]).
pub fn group_into_lines(words: &Vec<Word>, options: &SegmentOptions) -> (cues: Vec<Vec<Vec<usize>>>)
    ensures
        cues_view(cues@) == pack_spec(words_spec(words@), *options),
{
    let ghost nw = words_spec(words@);
    let ghost o = *options;
    let layout = options.layout;
    let max_chars = layout.max_chars_per_line as usize;
    let max_lines: usize = if layout.max_lines == 0 {
        1
    } else {
        layout.max_lines as usize
    };
    let mut cues: Vec<Vec<Vec<usize>>> = Vec::new();
    let mut lines: Vec<Vec<usize>> = Vec::new();
    let mut line: Vec<usize> = Vec::new();
    let mut line_chars: usize = 0;
    let mut cue_start_ms: u32 = 0;
    let mut index: usize = 0;
    proof {
        assert(lines_view(lines@) =~= Seq::<Seq<usize>>::empty());
        assert(cues_view(cues@) =~= Seq::<Seq<Seq<usize>>>::empty());
    }
    while index < words.len()
        invariant
            nw == words_spec(words@),
            o == *options,
            layout == options.layout,
            max_chars == layout.max_chars_per_line,
            max_lines == (if layout.max_lines == 0 { 1 } else { layout.max_lines as int }),
            index <= words@.len(),
            lines@.len() < max_lines,
            line@.len() == 0 ==> line_chars == 0,
            line@.len() > 0 ==> line_chars <= max_chars || line@.len() == 1,
            line_chars <= usize::MAX,
            (lines@.len() > 0 || line@.len() > 0) ==> index > 0,
            cues_view(cues@) + pack_from(
                nw,
                o,
                index as int,
                (lines_view(lines@), line@, line_chars as int, cue_start_ms),
            ) == pack_spec(nw, o),
        decreases words@.len() - index,
    {
        let ghost st0: PackState = (lines_view(lines@), line@, line_chars as int, cue_start_ms);
        let ghost c0 = cues_view(cues@);
        let word = &words[index];
        proof {
            assert(nw[index as int] == word_spec(words@[index as int]));
        }
        // Pauses, sentence ends and long cues close what is in progress.
        if !(lines.len() == 0 && line.len() == 0) {
            let previous = &words[index - 1];
            proof {
                assert(nw[index - 1] == word_spec(words@[index - 1]));
            }
            let gap: u32 = if word.start_ms >= previous.end_ms {
                word.start_ms - previous.end_ms
            } else {
                0
            };
            let paused = options.pause_break_ms > 0 && gap >= options.pause_break_ms;
            let sentence = options.break_on_sentence && ends_sentence(&previous.text);
            let run: u32 = if word.end_ms >= cue_start_ms {
                word.end_ms - cue_start_ms
            } else {
                0
            };
            let overlong = run > layout.max_duration_ms;
            if paused || sentence || overlong {
                flush(&mut cues, &mut lines, &mut line, &mut line_chars, Ghost(cue_start_ms));
            }
        }
        let ghost b = break_spec(nw, o, index as int, st0);
        assert(cues_view(cues@) == c0 + b.0);
        assert((lines_view(lines@), line@, line_chars as int, cue_start_ms) == b.1);
        let ghost c1 = cues_view(cues@);
        // The line budget.
        let chars = word.text.len();
        if line.len() > 0 && (chars >= max_chars || line_chars > max_chars - 1 - chars) {
            if lines.len() + 1 >= max_lines {
                flush(&mut cues, &mut lines, &mut line, &mut line_chars, Ghost(cue_start_ms));
            } else {
                let ghost l0 = lines_view(lines@);
                let taken = take_vec(&mut line);
                lines.push(taken);
                line_chars = 0;
                assert(lines_view(lines@) =~= l0.push(b.1.1));
                assert(cues_view(cues@) =~= c1 + Seq::empty());
            }
        } else {
            assert(cues_view(cues@) =~= c1 + Seq::empty());
        }
        let ghost f = fit_spec(nw, o, index as int, b.1);
        assert(cues_view(cues@) == c0 + b.0 + f.0);
        assert((lines_view(lines@), line@, line_chars as int, cue_start_ms) == f.1);
        // The word joins the line.
        if lines.len() == 0 && line.len() == 0 {
            cue_start_ms = word.start_ms;
        }
        if line.len() > 0 {
            line_chars = line_chars + 1;
        }
        line_chars = line_chars + chars;
        line.push(index);
        index += 1;
        proof {
            let p = pack_step(nw, o, index - 1, st0);
            assert(p.0 == b.0 + f.0);
            assert((lines_view(lines@), line@, line_chars as int, cue_start_ms) == p.1);
            assert(c0 + (b.0 + f.0) =~= c0 + b.0 + f.0);
        }
    }
    let ghost st: PackState = (lines_view(lines@), line@, line_chars as int, cue_start_ms);
    let ghost c0 = cues_view(cues@);
    flush(&mut cues, &mut lines, &mut line, &mut line_chars, Ghost(cue_start_ms));
    proof {
        assert(pack_from(nw, o, index as int, st) == flush_spec(st).0);
    }
    cues
}

/// The words of one line, each with the separator written before it:
/// `0` none (the cue's first word), `1` a space, `2` a line break.
pub open spec fn line_items(line: Seq<usize>, first: bool) -> Seq<(usize, u8)> {
    Seq::new(
        line.len(),
        |j: int|
            (
                line[j],
                if j > 0 {
                    1u8
                } else if first {
                    0u8
                } else {
                    2u8
                },
            ),
    )
}

/// A cue's words in reading order, with their separators.
pub open spec fn flat_items(lines: Seq<Seq<usize>>) -> Seq<(usize, u8)>
    decreases lines.len(),
{
    if lines.len() == 0 {
        Seq::empty()
    } else {
        flat_items(lines.drop_last()) + line_items(lines.last(), lines.len() == 1)
    }
}

/// The characters a separator writes.
pub open spec fn sep_chars(sep: u8) -> Seq<char> {
    if sep == 1 {
        seq![' ']
    } else if sep == 2 {
        seq!['\n']
    } else {
        Seq::empty()
    }
}

/// The text the items spell: each word after its separator.
pub open spec fn items_text(nw: Seq<(u32, u32, Seq<char>, int)>, items: Seq<(usize, u8)>) -> Seq<char>
    decreases items.len(),
{
    if items.len() == 0 {
        Seq::empty()
    } else {
        items_text(nw, items.drop_last()) + sep_chars(items.last().1) + nw[items.last().0 as int].2
    }
}

/// Word `k` of a cue's table: its times and its byte range in the cue text.
pub open spec fn item_word(nw: Seq<(u32, u32, Seq<char>, int)>, items: Seq<(usize, u8)>, k: int) -> (
    u32,
    u32,
    u32,
    u32,
) {
    let w = nw[items[k].0 as int];
    let before = items_text(nw, items.take(k)) + sep_chars(items[k].1);
    (w.0, w.1, utf8_len(before) as u32, utf8_len(items_text(nw, items.take(k + 1))) as u32)
}

/// A cue's word table.
pub open spec fn items_words(nw: Seq<(u32, u32, Seq<char>, int)>, items: Seq<(usize, u8)>) -> Seq<
    (u32, u32, u32, u32),
> {
    Seq::new(items.len(), |k: int| item_word(nw, items, k))
}

/// The earliest start in a word table (`u32::MAX` for none).
pub open spec fn min_start(ws: Seq<(u32, u32, u32, u32)>) -> u32
    decreases ws.len(),
{
    if ws.len() == 0 {
        u32::MAX
    } else {
        let m = min_start(ws.drop_last());
        if ws.last().0 < m {
            ws.last().0
        } else {
            m
        }
    }
}

/// The latest end in a word table (`0` for none).
pub open spec fn max_end(ws: Seq<(u32, u32, u32, u32)>) -> u32
    decreases ws.len(),
{
    if ws.len() == 0 {
        0
    } else {
        let m = max_end(ws.drop_last());
        if ws.last().1 > m {
            ws.last().1
        } else {
            m
        }
    }
}

/// A cue before frame snapping: its text, its word table, and its span with
/// the duration clamped into the layout's hold.
pub open spec fn draft_spec(
    nw: Seq<(u32, u32, Seq<char>, int)>,
    lines: Seq<Seq<usize>>,
    layout: CaptionLayout,
) -> (Seq<char>, Seq<(u32, u32, u32, u32)>, u32, u32) {
    let items = flat_items(lines);
    let table = items_words(nw, items);
    let s0 = min_start(table);
    let e0 = max_end(table);
    let start = if s0 <= e0 {
        s0
    } else {
        e0
    };
    let dur = e0 - start;
    let hi: int = if layout.max_duration_ms >= 1 { layout.max_duration_ms as int } else { 1 };
    let d = if dur < layout.min_duration_ms {
        layout.min_duration_ms as int
    } else if dur > hi {
        hi
    } else {
        dur
    };
    (
        items_text(nw, items),
        table,
        start,
        crate::timing::sat_add_u32(start as int, d) as u32,
    )
}

/// A cue's rendered text, word table and span before frame snapping.
pub struct Draft {
    pub text: Vec<char>,
    pub words: Vec<CaptionWord>,
    pub start_ms: u32,
    pub end_ms: u32,
    /// The input index of each word, in table order.
    pub sources: Vec<usize>,
}

/// The input index of each word of a cue, in reading order.
pub open spec fn draft_sources(nw: Seq<(u32, u32, Seq<char>, int)>, lines: Seq<Seq<usize>>) -> Seq<int> {
    let items = flat_items(lines);
    Seq::new(items.len(), |k: int| nw[items[k].0 as int].3)
}

/// A draft as plain values.
pub open spec fn draft_view(d: Draft) -> (Seq<char>, Seq<(u32, u32, u32, u32)>, u32, u32) {
    (d.text@, words_view(d.words@), d.start_ms, d.end_ms)
}

/// UTF-8 is at most four bytes a character.
pub proof fn lemma_utf8_len_bound(s: Seq<char>)
    ensures
        utf8_len(s) <= 4 * s.len(),
    decreases s.len(),
{
    if s.len() > 0 {
        lemma_utf8_len_bound(s.drop_last());
    }
}

/// Flatten a cue's lines into items ([`flat_items`]).
fn flatten(lines: &Vec<Vec<usize>>) -> (items: Vec<(usize, u8)>)
    ensures
        items@ == flat_items(lines_view(lines@)),
{
    let mut items: Vec<(usize, u8)> = Vec::new();
    let mut li: usize = 0;
    while li < lines.len()
        invariant
            li <= lines@.len(),
            items@ == flat_items(lines_view(lines@).take(li as int)),
        decreases lines@.len() - li,
    {
        let line = &lines[li];
        let ghost before = items@;
        let mut wi: usize = 0;
        while wi < line.len()
            invariant
                li < lines@.len(),
                line == &lines@[li as int],
                wi <= line@.len(),
                items@ == before + line_items(line@, li == 0).take(wi as int),
            decreases line@.len() - wi,
        {
            let sep: u8 = if wi > 0 {
                1
            } else if li == 0 {
                0
            } else {
                2
            };
            items.push((line[wi], sep));
            wi += 1;
            assert(items@ =~= before + line_items(line@, li == 0).take(wi as int));
        }
        li += 1;
        proof {
            let lv = lines_view(lines@).take(li as int);
            assert(lv.drop_last() =~= lines_view(lines@).take(li - 1));
            assert(lv.last() == line@);
            assert(line_items(line@, li - 1 == 0).take(line@.len() as int) =~= line_items(
                line@,
                li - 1 == 0,
            ));
        }
    }
    assert(lines_view(lines@).take(lines@.len() as int) =~= lines_view(lines@));
    items
}

/// Append `w` to `text`, counting its bytes.
pub fn push_word(text: &mut Vec<char>, bytes: &mut u128, w: &Vec<char>)
    requires
        *old(bytes) == utf8_len(old(text)@),
    ensures
        final(text)@ == old(text)@ + w@,
        *final(bytes) == utf8_len(final(text)@),
{
    let mut i: usize = 0;
    while i < w.len()
        invariant
            i <= w@.len(),
            text@ == old(text)@ + w@.take(i as int),
            *bytes == utf8_len(text@),
        decreases w@.len() - i,
    {
        let _n = text.len();
        proof {
            lemma_utf8_len_bound(text@);
        }
        let c = w[i];
        text.push(c);
        *bytes = *bytes + crate::text::char_len_utf8(c) as u128;
        i += 1;
        proof {
            assert(text@.drop_last() =~= old(text)@ + w@.take(i - 1));
            assert(text@ =~= old(text)@ + w@.take(i as int));
        }
    }
    assert(w@.take(w@.len() as int) =~= w@);
}

/// Every index in `lines` is below `n`.
pub open spec fn lines_below(lines: Seq<Seq<usize>>, n: int) -> bool {
    forall|l: int, j: int| 0 <= l < lines.len() && 0 <= j < lines[l].len() ==> #[trigger] lines[l][j] < n
}

/// Every index in `cues` is below `n`.
pub open spec fn cues_below(cues: Seq<Seq<Seq<usize>>>, n: int) -> bool {
    forall|c: int| 0 <= c < cues.len() ==> lines_below(#[trigger] cues[c], n)
}

proof fn lemma_flush_below(st: PackState, n: int)
    requires
        lines_below(st.0, n),
        forall|j: int| 0 <= j < st.1.len() ==> #[trigger] st.1[j] < n,
    ensures
        cues_below(flush_spec(st).0, n),
{
    let lines = if st.1.len() > 0 {
        st.0.push(st.1)
    } else {
        st.0
    };
    assert(lines_below(lines, n)) by {
        assert forall|l: int, j: int| 0 <= l < lines.len() && 0 <= j < lines[l].len() implies #[trigger] lines[l][j] < n by {
            if l < st.0.len() {
                assert(lines[l] == st.0[l]);
            }
        }
    }
}

/// Packed cues only hold indices of real words.
pub proof fn lemma_pack_below(nw: Seq<(u32, u32, Seq<char>, int)>, o: SegmentOptions, idx: int, st: PackState)
    requires
        0 <= idx <= nw.len(),
        lines_below(st.0, idx),
        forall|j: int| 0 <= j < st.1.len() ==> #[trigger] st.1[j] < idx,
    ensures
        cues_below(pack_from(nw, o, idx, st), nw.len() as int),
    decreases nw.len() - idx,
{
    if idx >= nw.len() {
        lemma_flush_below(st, nw.len() as int);
    } else {
        let b = break_spec(nw, o, idx, st);
        lemma_flush_below(st, idx);
        assert(lines_below(b.1.0, idx));
        let f = fit_spec(nw, o, idx, b.1);
        lemma_flush_below(b.1, idx);
        let pushed = b.1.0.push(b.1.1);
        assert(lines_below(pushed, idx)) by {
            assert forall|l: int, j: int| 0 <= l < pushed.len() && 0 <= j < pushed[l].len() implies #[trigger] pushed[l][j] < idx by {
                if l < b.1.0.len() {
                    assert(pushed[l] == b.1.0[l]);
                }
            }
        }
        assert(lines_below(f.1.0, idx));
        let p = pack_step(nw, o, idx, st);
        assert(lines_below(p.1.0, idx + 1)) by {
            assert forall|l: int, j: int| 0 <= l < p.1.0.len() && 0 <= j < p.1.0[l].len() implies #[trigger] p.1.0[l][j] < idx + 1 by {
                assert(f.1.0[l][j] < idx);
            }
        }
        assert forall|j: int| 0 <= j < p.1.1.len() implies #[trigger] p.1.1[j] < idx + 1 by {
            if j < f.1.1.len() {
                assert(p.1.1[j] == f.1.1[j]);
            }
        }
        lemma_pack_below(nw, o, idx + 1, p.1);
        let rest = pack_from(nw, o, idx + 1, p.1);
        assert(cues_below(b.0, nw.len() as int)) by {
            assert forall|c: int| 0 <= c < b.0.len() implies lines_below(#[trigger] b.0[c], nw.len() as int) by {
                assert(lines_below(b.0[c], idx));
            }
        }
        assert(cues_below(f.0, nw.len() as int)) by {
            assert forall|c: int| 0 <= c < f.0.len() implies lines_below(#[trigger] f.0[c], nw.len() as int) by {
                assert(lines_below(f.0[c], idx));
            }
        }
        let all = p.0 + rest;
        assert forall|c: int| 0 <= c < all.len() implies lines_below(#[trigger] all[c], nw.len() as int) by {
            if c < b.0.len() {
                assert(all[c] == b.0[c]);
            } else if c < p.0.len() {
                assert(all[c] == f.0[c - b.0.len()]);
            } else {
                assert(all[c] == rest[c - p.0.len()]);
            }
        }
    }
}

/// Flattening keeps indices below `n`.
pub proof fn lemma_flat_below(lines: Seq<Seq<usize>>, n: int)
    requires
        lines_below(lines, n),
    ensures
        forall|k: int| 0 <= k < flat_items(lines).len() ==> (#[trigger] flat_items(lines)[k]).0 < n,
    decreases lines.len(),
{
    if lines.len() > 0 {
        let init = lines.drop_last();
        assert(lines_below(init, n)) by {
            assert forall|l: int, j: int| 0 <= l < init.len() && 0 <= j < init[l].len() implies #[trigger] init[l][j] < n by {
                assert(init[l] == lines[l]);
            }
        }
        lemma_flat_below(init, n);
        let a = flat_items(init);
        let b = line_items(lines.last(), lines.len() == 1);
        assert forall|k: int| 0 <= k < (a + b).len() implies (#[trigger] (a + b)[k]).0 < n by {
            if k >= a.len() {
                assert(lines[lines.len() - 1][k - a.len()] < n);
            }
        }
    }
}

/// Build one cue's text, word table and span ([`draft_spec`]).
pub fn build_draft(words: &Vec<Word>, lines: &Vec<Vec<usize>>, layout: &CaptionLayout) -> (d: Draft)
    requires
        lines_below(lines_view(lines@), words@.len() as int),
        layout.min_duration_ms <= (if layout.max_duration_ms >= 1 { layout.max_duration_ms as int } else { 1 }),
    ensures
        draft_view(d) == draft_spec(words_spec(words@), lines_view(lines@), *layout),
        d.sources@.len() == draft_sources(words_spec(words@), lines_view(lines@)).len(),
        forall|k: int|
            0 <= k < d.sources@.len() ==> d.sources@[k] == #[trigger] draft_sources(
                words_spec(words@),
                lines_view(lines@),
            )[k],
{
    let ghost nw = words_spec(words@);
    let items = flatten(lines);
    proof {
        lemma_flat_below(lines_view(lines@), words@.len() as int);
    }
    let ghost all = items_words(nw, items@);
    let mut text: Vec<char> = Vec::new();
    let mut bytes: u128 = 0;
    let mut table: Vec<CaptionWord> = Vec::new();
    let mut start_ms: u32 = u32::MAX;
    let mut end_ms: u32 = 0;
    let mut sources: Vec<usize> = Vec::new();
    let ghost srcs = draft_sources(nw, lines_view(lines@));
    let mut k: usize = 0;
    proof {
        assert(items@.take(0) =~= Seq::<(usize, u8)>::empty());
        assert(all.take(0) =~= Seq::<(u32, u32, u32, u32)>::empty());
    }
    while k < items.len()
        invariant
            nw == words_spec(words@),
            all == items_words(nw, items@),
            forall|j: int| 0 <= j < items@.len() ==> (#[trigger] items@[j]).0 < words@.len(),
            k <= items@.len(),
            text@ == items_text(nw, items@.take(k as int)),
            bytes == utf8_len(text@),
            table@.len() == k,
            forall|j: int| 0 <= j < k ==> #[trigger] word_view(table@[j]) == all[j],
            start_ms == min_start(all.take(k as int)),
            end_ms == max_end(all.take(k as int)),
            srcs == draft_sources(nw, lines_view(lines@)),
            items@ == flat_items(lines_view(lines@)),
            sources@.len() == k,
            forall|j: int| 0 <= j < k ==> sources@[j] == #[trigger] srcs[j],
        decreases items@.len() - k,
    {
        let (index, sep) = items[k];
        let _n = text.len();
        proof {
            lemma_utf8_len_bound(text@);
        }
        let ghost t0 = text@;
        if sep == 1 {
            text.push(' ');
            bytes = bytes + 1;
        } else if sep == 2 {
            text.push('\n');
            bytes = bytes + 1;
        }
        proof {
            assert(text@ =~= t0 + sep_chars(sep));
            crate::text::lemma_utf8_len_concat(t0, sep_chars(sep));
            if sep == 1 || sep == 2 {
                assert(sep_chars(sep).drop_last() =~= Seq::<char>::empty());
                assert(utf8_len(Seq::<char>::empty()) == 0);
                assert(utf8_len(sep_chars(sep)) == 1);
            } else {
                assert(sep_chars(sep) =~= Seq::<char>::empty());
                assert(utf8_len(sep_chars(sep)) == 0);
            }
        }
        let offset = bytes;
        let w = &words[index];
        proof {
            assert(nw[index as int] == word_spec(words@[index as int]));
        }
        push_word(&mut text, &mut bytes, &w.text);
        proof {
            let tk = items@.take(k as int + 1);
            assert(tk.drop_last() =~= items@.take(k as int));
            assert(text@ == items_text(nw, tk));
            assert(all[k as int] == item_word(nw, items@, k as int));
        }
        table.push(
            CaptionWord {
                start_ms: w.start_ms,
                end_ms: w.end_ms,
                range: std::ops::Range {
                    start: #[verifier::truncate] (offset as u32),
                    end: #[verifier::truncate] (bytes as u32),
                },
            },
        );
        sources.push(w.source);
        if w.start_ms < start_ms {
            start_ms = w.start_ms;
        }
        if w.end_ms > end_ms {
            end_ms = w.end_ms;
        }
        k += 1;
        proof {
            assert(all.take(k as int).drop_last() =~= all.take(k - 1));
        }
    }
    proof {
        assert(items@.take(items@.len() as int) =~= items@);
        assert(all.take(items@.len() as int) =~= all);
        assert(words_view(table@) =~= all);
    }
    let start = if start_ms <= end_ms {
        start_ms
    } else {
        end_ms
    };
    let duration = end_ms - start;
    let hi: u32 = if layout.max_duration_ms >= 1 {
        layout.max_duration_ms
    } else {
        1
    };
    let d = if duration < layout.min_duration_ms {
        layout.min_duration_ms
    } else if duration > hi {
        hi
    } else {
        duration
    };
    let end = if start as u64 + d as u64 > 0xFFFF_FFFF {
        u32::MAX
    } else {
        start + d
    };
    Draft { text, words: table, start_ms: start, end_ms: end, sources }
}

/// A word table's times moved back by `by` ms (floored at zero), ranges
/// unchanged.
pub open spec fn rebase_words(tab: Seq<(u32, u32, u32, u32)>, by: u32) -> Seq<(u32, u32, u32, u32)> {
    Seq::new(
        tab.len(),
        |j: int| (sub_floor(tab[j].0, by) as u32, sub_floor(tab[j].1, by) as u32, tab[j].2, tab[j].3),
    )
}

/// The spans of drafts.
pub open spec fn draft_spans(ds: Seq<(Seq<char>, Seq<(u32, u32, u32, u32)>, u32, u32)>) -> Seq<(u32, u32)> {
    Seq::new(ds.len(), |k: int| (ds[k].2, ds[k].3))
}

/// Spans after [`separate_spans`].
pub open spec fn separated_spans(spans: Seq<(u32, u32)>, gap: u32) -> Seq<(u32, u32)> {
    Seq::new(spans.len(), |j: int| crate::timing::separated(spans, j, gap))
}

/// Where span `k` lands: snapped, then shifted by the offset.
pub open spec fn placed_range(p: Placement, spans: Seq<(u32, u32)>, k: int) -> TimeRange {
    let s = crate::timing::snapped(p.rate, spans)[k];
    TimeRange {
        start: RationalTime { value: sat_add_i64(s.0, p.offset_ticks as int) as i64, rate: p.rate },
        duration: RationalTime { value: (s.1 - s.0) as i64, rate: p.rate },
    }
}

/// Placed ranges run at least a tick, each ends no later than the next
/// starts, and with an offset that is not negative none starts before tick
/// zero.
pub proof fn lemma_placed_ranges(p: Placement, spans: Seq<(u32, u32)>)
    requires
        spans.len() <= 0x1000_0000_0000_0000,
    ensures
        forall|k: int|
            0 <= k < spans.len() ==> (#[trigger] placed_range(p, spans, k)).duration.value >= 1 && (p.offset_ticks
                >= 0 ==> placed_range(p, spans, k).start.value >= 0),
        forall|k: int|
            0 < k < spans.len() ==> placed_range(p, spans, k - 1).spec_end() <= (#[trigger] placed_range(
                p,
                spans,
                k,
            )).start.value,
{
    crate::timing::lemma_snapped(p.rate, spans);
    let sn = crate::timing::snapped(p.rate, spans);
    assert forall|k: int| 0 <= k < spans.len() implies (#[trigger] placed_range(p, spans, k)).duration.value >= 1
        && (p.offset_ticks >= 0 ==> placed_range(p, spans, k).start.value >= 0) by {
        let s = sn[k];
        assert(s.0 < s.1 && 0 <= s.0 && s.1 <= crate::timing::max_tick() + k + 1);
    }
    assert forall|k: int| 0 < k < spans.len() implies placed_range(p, spans, k - 1).spec_end() <= (
    #[trigger] placed_range(p, spans, k)).start.value by {
        let a = sn[k - 1];
        let b = sn[k];
        assert(a.0 < a.1 && 0 <= a.0 && a.1 <= crate::timing::max_tick() + k);
        assert(b.0 >= a.1 && b.1 <= crate::timing::max_tick() + k + 1);
    }
}

/// Cues come out of segmentation at least a tick long, ascending and never
/// overlapping.
pub proof fn law_segmented_cues_ascend(ws: Seq<(u32, u32, Seq<char>)>, o: SegmentOptions)
    requires
        segment_spec(ws, o) is Ok,
    ensures
        ({
            let v = segment_spec(ws, o)->Ok_0;
            &&& forall|k: int| 0 <= k < v.len() ==> (#[trigger] v[k]).1.duration.value >= 1
            &&& forall|k: int| 0 < k < v.len() ==> v[k - 1].1.spec_end() <= (#[trigger] v[k]).1.start.value
        }),
{
    if layout_valid(o.layout) {
        let nw = normalize_spec(ws);
        if nw.len() > 0 {
            let packed = pack_spec(nw, o);
            let ds = drafts_spec(nw, packed, o.layout);
            let spans = separated_spans(draft_spans(ds), o.layout.min_gap_ms);
            lemma_placed_ranges(o.placement, spans);
            let v = placed_spec(ds, o.placement, o.layout.min_gap_ms);
            assert forall|k: int| 0 <= k < v.len() implies (#[trigger] v[k]).1.duration.value >= 1 by {
                assert(v[k].1 == placed_range(o.placement, spans, k));
            }
            assert forall|k: int| 0 < k < v.len() implies v[k - 1].1.spec_end() <= (#[trigger] v[k]).1.start.value by {
                assert(v[k].1 == placed_range(o.placement, spans, k));
                assert(v[k - 1].1 == placed_range(o.placement, spans, k - 1));
            }
        }
    }
}

/// Drafts placed on the timeline: separated, snapped to frames, and their
/// word times rebased onto where each clip actually landed.
pub open spec fn placed_spec(
    ds: Seq<(Seq<char>, Seq<(u32, u32, u32, u32)>, u32, u32)>,
    p: Placement,
    gap: u32,
) -> Seq<(Seq<char>, TimeRange, Seq<(u32, u32, u32, u32)>)> {
    let spans = separated_spans(draft_spans(ds), gap);
    Seq::new(
        ds.len(),
        |k: int|
            {
                let r = placed_range(p, spans, k);
                let clip_start = crate::timing::spec_ms(p.rate, r.start.value - p.offset_ticks);
                (ds[k].0, r, rebase_words(ds[k].1, clip_start as u32))
            },
    )
}

/// Whether a placed cue is refused by [`CaptionCueSpec::validate`].
pub open spec fn placed_refused(c: (Seq<char>, TimeRange, Seq<(u32, u32, u32, u32)>)) -> bool {
    cue_spec_error(c.0, c.1, c.2) is Some
}

/// Separate, snap to frames, and rebase word timings onto the placed clips;
/// refused when any placed cue fails validation.
pub fn place(drafts: &Vec<Draft>, options: &SegmentOptions) -> (r: Result<Vec<CaptionCueSpec>, CaptionError>)
    requires
        drafts@.len() <= 0x1000_0000_0000_0000,
    ensures
        ({
            let ds = Seq::new(drafts@.len(), |k: int| draft_view(drafts@[k]));
            let placed = placed_spec(ds, options.placement, options.layout.min_gap_ms);
            match r {
                Ok(specs) => cue_specs_view(specs@) == placed && (forall|k: int|
                    0 <= k < placed.len() ==> !placed_refused(#[trigger] placed[k])) && forall|k: int|
                    0 <= k < specs@.len() ==> (#[trigger] specs@[k]).speaker is None,
                Err(e) => e is Rules && exists|k: int| 0 <= k < placed.len() && placed_refused(#[trigger] placed[k]),
            }
        }),
{
    let ghost ds = Seq::new(drafts@.len(), |k: int| draft_view(drafts@[k]));
    let placement = options.placement;
    let mut spans: Vec<(u32, u32)> = Vec::new();
    let mut k: usize = 0;
    while k < drafts.len()
        invariant
            k <= drafts@.len(),
            ds == Seq::new(drafts@.len(), |k: int| draft_view(drafts@[k])),
            spans@ == draft_spans(ds).take(k as int),
        decreases drafts@.len() - k,
    {
        spans.push((drafts[k].start_ms, drafts[k].end_ms));
        k += 1;
        assert(spans@ =~= draft_spans(ds).take(k as int));
    }
    assert(draft_spans(ds).take(drafts@.len() as int) =~= draft_spans(ds));
    let ghost raw = spans@;
    separate_spans(&mut spans, options.layout.min_gap_ms);
    assert(spans@ =~= separated_spans(draft_spans(ds), options.layout.min_gap_ms));
    let ranges = snap_spans(placement, &spans);
    let ghost placed = placed_spec(ds, placement, options.layout.min_gap_ms);
    proof {
        crate::timing::lemma_snapped(placement.rate, spans@);
    }
    let mut specs: Vec<CaptionCueSpec> = Vec::new();
    k = 0;
    while k < drafts.len()
        invariant
            k <= drafts@.len(),
            ds == Seq::new(drafts@.len(), |k: int| draft_view(drafts@[k])),
            placed == placed_spec(ds, placement, options.layout.min_gap_ms),
            placement == options.placement,
            spans@ == separated_spans(draft_spans(ds), options.layout.min_gap_ms),
            ranges@.len() == spans@.len(),
            crate::timing::snapped(placement.rate, spans@).len() == spans@.len(),
            spans@.len() <= 0x1000_0000_0000_0000,
            forall|i: int|
                0 <= i < spans@.len() ==> {
                    let s = #[trigger] crate::timing::snapped(placement.rate, spans@)[i];
                    &&& 0 <= s.0 < s.1
                    &&& s.1 <= crate::timing::max_tick() + i + 1
                },
            forall|i: int|
                0 <= i < spans@.len() ==> {
                    let s = crate::timing::snapped(placement.rate, spans@)[i];
                    &&& (#[trigger] ranges@[i]).start.value == sat_add_i64(
                        s.0,
                        placement.offset_ticks as int,
                    )
                    &&& ranges@[i].duration.value == s.1 - s.0
                    &&& ranges@[i].start.rate == placement.rate
                    &&& ranges@[i].duration.rate == placement.rate
                },
            specs@.len() == k,
            forall|i: int| 0 <= i < k ==> #[trigger] cue_spec_view(specs@[i]) == placed[i],
            forall|i: int| 0 <= i < k ==> (#[trigger] specs@[i]).speaker is None,
            forall|i: int| 0 <= i < k ==> !placed_refused(#[trigger] placed[i]),
        decreases drafts@.len() - k,
    {
        let draft = &drafts[k];
        let timeline = ranges[k];
        let ghost s = crate::timing::snapped(placement.rate, spans@)[k as int];
        proof {
            assert(placed_range(placement, spans@, k as int) == timeline);
        }
        let shifted = timeline.start.value as i128 - placement.offset_ticks as i128;
        assert(i64::MIN <= shifted <= i64::MAX);
        let clip_start_ms = placement.ms(shifted as i64);
        let mut words: Vec<CaptionWord> = Vec::new();
        let mut j: usize = 0;
        while j < draft.words.len()
            invariant
                j <= draft.words@.len(),
                words@.len() == j,
                forall|i: int|
                    0 <= i < j ==> #[trigger] word_view(words@[i]) == rebase_words(
                        words_view(draft.words@),
                        clip_start_ms,
                    )[i],
            decreases draft.words@.len() - j,
        {
            let w = &draft.words[j];
            proof {
                assert(words_view(draft.words@)[j as int] == word_view(draft.words@[j as int]));
            }
            let start: u32 = if w.start_ms >= clip_start_ms {
                w.start_ms - clip_start_ms
            } else {
                0
            };
            let end: u32 = if w.end_ms >= clip_start_ms {
                w.end_ms - clip_start_ms
            } else {
                0
            };
            words.push(
                CaptionWord {
                    start_ms: start,
                    end_ms: end,
                    range: std::ops::Range { start: w.range.start, end: w.range.end },
                },
            );
            j += 1;
        }
        proof {
            assert(words_view(words@) =~= rebase_words(words_view(draft.words@), clip_start_ms));
        }
        let spec = CaptionCueSpec {
            text: string_of(draft.text.as_slice()),
            timeline,
            words,
            speaker: None,
        };
        proof {
            assert(ds[k as int] == draft_view(drafts@[k as int]));
            assert(cue_spec_view(spec) == placed[k as int]);
        }
        match spec.validate() {
            Ok(()) => {},
            Err(e) => {
                return Err(CaptionError::from_model(e));
            },
        }
        specs.push(spec);
        k += 1;
    }
    proof {
        assert(cue_specs_view(specs@) =~= placed);
    }
    Ok(specs)
}

/// The drafts of packed cues.
pub open spec fn drafts_spec(
    nw: Seq<(u32, u32, Seq<char>, int)>,
    packed: Seq<Seq<Seq<usize>>>,
    layout: CaptionLayout,
) -> Seq<(Seq<char>, Seq<(u32, u32, u32, u32)>, u32, u32)> {
    Seq::new(packed.len(), |c: int| draft_spec(nw, packed[c], layout))
}

/// What [`segment`] gives: `Err(None)` for a rule it refuses (an invalid
/// layout, or a cue that fails validation), `Err(Some(n))` when `n` cues
/// would exceed [`MAX_CAPTION_CUES`], the placed cues otherwise.
pub open spec fn segment_spec(ws: Seq<(u32, u32, Seq<char>)>, o: SegmentOptions) -> Result<
    Seq<(Seq<char>, TimeRange, Seq<(u32, u32, u32, u32)>)>,
    Option<nat>,
> {
    if !layout_valid(o.layout) {
        Err(None)
    } else {
        let nw = normalize_spec(ws);
        if nw.len() == 0 {
            Ok(Seq::empty())
        } else {
            let packed = pack_spec(nw, o);
            if packed.len() > MAX_CAPTION_CUES {
                Err(Some(packed.len()))
            } else {
                let placed = placed_spec(drafts_spec(nw, packed, o.layout), o.placement, o.layout.min_gap_ms);
                if exists|k: int| 0 <= k < placed.len() && placed_refused(#[trigger] placed[k]) {
                    Err(None)
                } else {
                    Ok(placed)
                }
            }
        }
    }
}

/// Whether a segmentation result is what [`segment_spec`] says.
pub open spec fn segment_result_ok(
    ws: Seq<(u32, u32, Seq<char>)>,
    o: SegmentOptions,
    r: Result<Seq<CaptionCueSpec>, CaptionError>,
) -> bool {
    match r {
        Ok(specs) => segment_spec(ws, o) == Ok::<_, Option<nat>>(cue_specs_view(specs)),
        Err(CaptionError::Rules(_)) => segment_spec(ws, o) is Err && segment_spec(ws, o)->Err_0
            is None,
        Err(CaptionError::TooManyCues { count, max }) => max == MAX_CAPTION_CUES && segment_spec(
            ws,
            o,
        ) == Err::<Seq<(Seq<char>, TimeRange, Seq<(u32, u32, u32, u32)>)>, _>(Some(count as nat)),
        Err(CaptionError::Parse { .. }) => false,
    }
}

/// [`segment`], also giving the input index of every word of every cue, so a
/// caller can fold per-word metadata (such as recognition confidence) into
/// its cues.
pub fn segment_with_sources(words: &[TimedWord], options: &SegmentOptions) -> (r: Result<
    (Vec<CaptionCueSpec>, Vec<Vec<usize>>),
    CaptionError,
>)
    ensures
        segment_result_ok(
            timed_views(words@),
            *options,
            match r {
                Ok(p) => Ok(p.0@),
                Err(e) => Err(e),
            },
        ),
        r matches Ok(p) ==> forall|k: int| 0 <= k < p.0@.len() ==> (#[trigger] p.0@[k]).speaker is None,
        r matches Ok(p) ==> p.1@.len() == p.0@.len() && (p.0@.len() > 0 ==> {
            let nw = normalize_spec(timed_views(words@));
            let packed = pack_spec(nw, *options);
            forall|c: int|
                0 <= c < p.1@.len() ==> (#[trigger] p.1@[c])@ == Seq::new(
                    draft_sources(nw, packed[c]).len(),
                    |k: int| draft_sources(nw, packed[c])[k] as usize,
                )
        }),
{
    let ghost ws = timed_views(words@);
    let ghost o = *options;
    match options.layout.validate() {
        Ok(()) => {},
        Err(e) => {
            return Err(CaptionError::from_model(e));
        },
    }
    let normalized = normalize(words);
    let ghost nw = words_spec(normalized@);
    if normalized.len() == 0 {
        proof {
            assert(cue_specs_view(Seq::<CaptionCueSpec>::empty()) =~= Seq::empty());
        }
        return Ok((Vec::new(), Vec::new()));
    }
    let grouped = group_into_lines(&normalized, options);
    let ghost packed = pack_spec(nw, o);
    if grouped.len() > MAX_CAPTION_CUES {
        return Err(CaptionError::TooManyCues { count: grouped.len(), max: MAX_CAPTION_CUES });
    }
    proof {
        lemma_pack_below(nw, o, 0, (Seq::empty(), Seq::empty(), 0, 0));
    }
    let mut drafts: Vec<Draft> = Vec::new();
    let mut sources: Vec<Vec<usize>> = Vec::new();
    let mut c: usize = 0;
    while c < grouped.len()
        invariant
            nw == words_spec(normalized@),
            packed == pack_spec(nw, o),
            cues_view(grouped@) == packed,
            cues_below(packed, nw.len() as int),
            o == *options,
            layout_valid(o.layout),
            grouped@.len() <= MAX_CAPTION_CUES,
            c <= grouped@.len(),
            drafts@.len() == c,
            sources@.len() == c,
            forall|i: int|
                0 <= i < c ==> draft_view(#[trigger] drafts@[i]) == drafts_spec(nw, packed, o.layout)[i],
            forall|i: int|
                0 <= i < c ==> (#[trigger] sources@[i])@ == Seq::new(
                    draft_sources(nw, packed[i]).len(),
                    |k: int| draft_sources(nw, packed[i])[k] as usize,
                ),
        decreases grouped@.len() - c,
    {
        proof {
            assert(cues_view(grouped@)[c as int] == lines_view(grouped@[c as int]@));
            assert(lines_below(packed[c as int], nw.len() as int));
        }
        let d = build_draft(&normalized, &grouped[c], &options.layout);
        proof {
            assert(d.sources@ =~= Seq::new(
                draft_sources(nw, packed[c as int]).len(),
                |k: int| draft_sources(nw, packed[c as int])[k] as usize,
            )) by {
                assert forall|k: int| 0 <= k < d.sources@.len() implies d.sources@[k] == draft_sources(
                    nw,
                    packed[c as int],
                )[k] as usize by {
                    assert(d.sources@[k] == draft_sources(nw, packed[c as int])[k]);
                }
            }
        }
        let src = copy_usizes(&d.sources);
        drafts.push(d);
        sources.push(src);
        c += 1;
    }
    proof {
        assert(Seq::new(drafts@.len(), |k: int| draft_view(drafts@[k])) =~= drafts_spec(
            nw,
            packed,
            o.layout,
        ));
    }
    match place(&drafts, options) {
        Ok(specs) => {
            proof {
                assert(cue_specs_view(specs@).len() == specs@.len());
                assert(specs@.len() == drafts@.len());
            }
            Ok((specs, sources))
        },
        Err(e) => Err(e),
    }
}

/// A copy of `v`.
fn copy_usizes(v: &Vec<usize>) -> (out: Vec<usize>)
    ensures
        out@ == v@,
{
    let mut out: Vec<usize> = Vec::new();
    let mut i: usize = 0;
    while i < v.len()
        invariant
            i <= v@.len(),
            out@ == v@.take(i as int),
        decreases v@.len() - i,
    {
        out.push(v[i]);
        i += 1;
        assert(out@ =~= v@.take(i as int));
    }
    assert(v@.take(v@.len() as int) =~= v@);
    out
}

/// Break `words` into cue specs ready to become a caption group
/// ([`segment_spec`]).
///
/// Lines break on sentence ends and speech pauses first, then on the layout's
/// character and line limits, then on its maximum duration. Cues are held for
/// at least `min_duration_ms`, separated by at least `min_gap_ms`, and
/// snapped to whole frames without ever overlapping.
pub fn segment(words: &[TimedWord], options: &SegmentOptions) -> (r: Result<Vec<CaptionCueSpec>, CaptionError>)
    ensures
        segment_result_ok(
            timed_views(words@),
            *options,
            match r {
                Ok(specs) => Ok(specs@),
                Err(e) => Err(e),
            },
        ),
        r matches Ok(specs) ==> forall|k: int| 0 <= k < specs@.len() ==> (#[trigger] specs@[k]).speaker is None,
{
    match segment_with_sources(words, options) {
        Ok((specs, _)) => Ok(specs),
        Err(e) => Err(e),
    }
}

} // verus!
