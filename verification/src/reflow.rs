//! Line breaking and word retiming.
//!
//! Cue text is tokenized on whitespace; wrapping re-joins the tokens greedily
//! under a character budget, and word timings follow the tokens across.

use std::ops::Range;

use vstd::prelude::*;

use crate::caption::cue::{word_view, words_view, CaptionWord};
use crate::caption::layout::CaptionLayout;
use crate::text::{
    byte_at, char_len_utf8, chars_of, is_whitespace, is_ws, lemma_byte_at_mono,
    lemma_byte_at_next, string_of, utf8_len,
};

verus! {

/// The whitespace-separated tokens of `s` at and after index `i`, as
/// `(first, end)` character indices; `open` is the start of a token already in
/// progress.
pub open spec fn tokens_from(s: Seq<char>, i: int, open: Option<int>) -> Seq<(int, int)>
    decreases s.len() - i,
{
    if i >= s.len() {
        match open {
            Some(a) => seq![(a, s.len() as int)],
            None => Seq::empty(),
        }
    } else if is_ws(s[i]) {
        match open {
            Some(a) => seq![(a, i)] + tokens_from(s, i + 1, None),
            None => tokens_from(s, i + 1, None),
        }
    } else {
        match open {
            Some(a) => tokens_from(s, i + 1, Some(a)),
            None => tokens_from(s, i + 1, Some(i)),
        }
    }
}

/// The whitespace-separated tokens of `s` (`str::split_whitespace`), as
/// character index ranges.
pub open spec fn tokens(s: Seq<char>) -> Seq<(int, int)> {
    tokens_from(s, 0, None)
}

/// Tokens lie inside the text, are non-empty, hold no whitespace, and are
/// separated by whitespace.
pub open spec fn tokens_ok(s: Seq<char>, ts: Seq<(int, int)>, lo: int) -> bool {
    &&& forall|k: int|
        0 <= k < ts.len() ==> lo <= (#[trigger] ts[k]).0 < ts[k].1 <= s.len()
    &&& forall|k: int, j: int|
        #![trigger ts[k], s[j]]
        0 <= k < ts.len() && ts[k].0 <= j < ts[k].1 ==> !is_ws(s[j])
    &&& forall|k: int| 0 < k < ts.len() ==> #[trigger] ts[k].0 > ts[k - 1].1
    &&& forall|k: int| 0 < k < ts.len() ==> is_ws(s[#[trigger] ts[k - 1].1])
}

pub proof fn lemma_tokens_from(s: Seq<char>, i: int, open: Option<int>)
    requires
        0 <= i <= s.len(),
        open matches Some(a) ==> 0 <= a < i && forall|j: int| a <= j < i ==> !is_ws(#[trigger] s[j]),
    ensures
        tokens_ok(
            s,
            tokens_from(s, i, open),
            match open {
                Some(a) => a,
                None => i,
            },
        ),
        open is None && tokens_from(s, i, open).len() > 0 ==> tokens_from(s, i, open)[0].0 >= i,
    decreases s.len() - i,
{
    if i < s.len() {
        if is_ws(s[i]) {
            lemma_tokens_from(s, i + 1, None);
            let rest = tokens_from(s, i + 1, None);
            if let Some(a) = open {
                let all = seq![(a, i)] + rest;
                assert forall|k: int| 0 < k < all.len() implies #[trigger] all[k].0 > all[k - 1].1 by {
                    if k == 1 {
                        assert(rest[0].0 >= i + 1);
                    } else {
                        assert(all[k] == rest[k - 1]);
                        assert(all[k - 1] == rest[k - 2]);
                    }
                }
                assert forall|k: int| 0 < k < all.len() implies is_ws(s[#[trigger] all[k - 1].1]) by {
                    if k >= 2 {
                        assert(all[k - 1] == rest[k - 2]);
                        assert(all[k] == rest[k - 1]);
                    }
                }
                assert forall|k: int, j: int|
                    #![trigger all[k], s[j]]
                    0 <= k < all.len() && all[k].0 <= j < all[k].1 implies !is_ws(s[j]) by {
                    if k > 0 {
                        assert(all[k] == rest[k - 1]);
                    }
                }
            }
        } else {
            match open {
                Some(a) => {
                    lemma_tokens_from(s, i + 1, Some(a));
                },
                None => {
                    lemma_tokens_from(s, i + 1, Some(i));
                },
            }
        }
    }
}

/// The tokens of any text satisfy [`tokens_ok`].
pub proof fn lemma_tokens(s: Seq<char>)
    ensures
        tokens_ok(s, tokens(s), 0),
{
    lemma_tokens_from(s, 0, None);
}

/// One whitespace-delimited piece of cue text: character bounds
/// `first..last` and byte bounds `start..end`.
#[derive(Debug, Clone, Copy, PartialEq, Eq, Structural)]
pub struct Token {
    pub first: usize,
    pub last: usize,
    pub start: usize,
    pub end: usize,
}

/// Whether `out` lists the tokens `ts` of `s` with their byte bounds.
pub open spec fn tokens_match(s: Seq<char>, out: Seq<Token>, ts: Seq<(int, int)>) -> bool {
    &&& out.len() == ts.len()
    &&& forall|k: int|
        0 <= k < out.len() ==> {
            &&& (#[trigger] out[k]).first == ts[k].0
            &&& out[k].last == ts[k].1
            &&& out[k].start == byte_at(s, ts[k].0)
            &&& out[k].end == byte_at(s, ts[k].1)
        }
}

/// Split `v` on whitespace.
pub fn tokenize(v: &Vec<char>) -> (out: Vec<Token>)
    requires
        utf8_len(v@) <= usize::MAX,
    ensures
        tokens_match(v@, out@, tokens(v@)),
{
    let ghost s = v@;
    let mut out: Vec<Token> = Vec::new();
    let mut open: Option<(usize, usize)> = None;
    let mut byte: usize = 0;
    let mut i: usize = 0;
    proof {
        assert(s.take(0) =~= Seq::<char>::empty());
    }
    while i < v.len()
        invariant
            s == v@,
            i <= v.len(),
            utf8_len(s) <= usize::MAX,
            byte == byte_at(s, i as int),
            open matches Some(p) ==> p.0 < i && p.1 == byte_at(s, p.0 as int),
            ({
                let o = match open {
                    Some(p) => Some(p.0 as int),
                    None => None::<int>,
                };
                let rest = tokens_from(s, i as int, o);
                &&& out@.len() + rest.len() == tokens(s).len()
                &&& tokens_match(s, out@, tokens(s).take(out@.len() as int))
                &&& rest == tokens(s).skip(out@.len() as int)
            }),
        decreases v.len() - i,
    {
        let c = v[i];
        proof {
            lemma_byte_at_next(s, i as int);
            lemma_byte_at_mono(s, i as int + 1, s.len() as int);
            assert(s.take(s.len() as int) =~= s);
        }
        let ghost before = out@;
        if is_whitespace(c) {
            if let Some((first, start)) = open {
                out.push(Token { first, last: i, start, end: byte });
                open = None;
                proof {
                    let t = tokens(s);
                    assert(t.skip(before.len() as int)[0] == (first as int, i as int));
                    assert(t.take(out@.len() as int) =~= t.take(before.len() as int).push(
                        (first as int, i as int),
                    ));
                    assert(t.skip(out@.len() as int) =~= t.skip(before.len() as int).skip(1));
                }
            }
        } else {
            if open.is_none() {
                open = Some((i, byte));
            }
        }
        byte = byte + char_len_utf8(c);
        i = i + 1;
    }
    if let Some((first, start)) = open {
        let ghost before = out@;
        out.push(Token { first, last: v.len(), start, end: byte });
        proof {
            let t = tokens(s);
            assert(t.skip(before.len() as int)[0] == (first as int, s.len() as int));
            assert(t.take(out@.len() as int) =~= t.take(before.len() as int).push(
                (first as int, s.len() as int),
            ));
        }
    }
    proof {
        assert(tokens(s).take(out@.len() as int) =~= tokens(s));
    }
    out
}

/// The greedy wrap of tokens `k..` of `s`, given `line` characters already on
/// the current line.
pub open spec fn wrap_from(s: Seq<char>, ts: Seq<(int, int)>, k: int, line: int, limit: int) -> Seq<
    char,
>
    decreases ts.len() - k,
{
    if k < 0 || k >= ts.len() {
        Seq::empty()
    } else {
        let piece = s.subrange(ts[k].0, ts[k].1);
        let c = ts[k].1 - ts[k].0;
        if line == 0 {
            piece + wrap_from(s, ts, k + 1, c, limit)
        } else if line + 1 + c <= limit {
            seq![' '] + piece + wrap_from(s, ts, k + 1, line + 1 + c, limit)
        } else {
            seq!['\n'] + piece + wrap_from(s, ts, k + 1, c, limit)
        }
    }
}

/// `s` wrapped greedily to lines of at most `max_chars` characters (at least
/// one): tokens joined by a space while the line fits, by a newline when it
/// would not. A token longer than the budget gets a line of its own.
pub open spec fn wrap_spec(s: Seq<char>, max_chars: u16) -> Seq<char> {
    wrap_from(s, tokens(s), 0, 0, if max_chars == 0 { 1 } else { max_chars as int })
}

/// Append `v[lo..hi]` to `out`.
fn push_range(out: &mut Vec<char>, v: &Vec<char>, lo: usize, hi: usize)
    requires
        lo <= hi <= v.len(),
    ensures
        final(out)@ == old(out)@ + v@.subrange(lo as int, hi as int),
{
    let mut i = lo;
    while i < hi
        invariant
            lo <= i <= hi <= v.len(),
            out@ == old(out)@ + v@.subrange(lo as int, i as int),
        decreases hi - i,
    {
        out.push(v[i]);
        i += 1;
        assert(out@ =~= old(out)@ + v@.subrange(lo as int, i as int));
    }
}

/// [`wrap`] on characters.
#[verifier::spinoff_prover]
#[verifier::rlimit(30)]
pub fn wrap_chars(v: &Vec<char>, max_chars_per_line: u16) -> (out: Vec<char>)
    requires
        utf8_len(v@) <= usize::MAX,
    ensures
        out@ == wrap_spec(v@, max_chars_per_line),
{
    let limit: usize = if max_chars_per_line == 0 {
        1
    } else {
        max_chars_per_line as usize
    };
    let toks = tokenize(v);
    proof {
        lemma_tokens(v@);
    }
    let ghost ts = tokens(v@);
    let mut out: Vec<char> = Vec::new();
    let mut line: usize = 0;
    let mut k: usize = 0;
    while k < toks.len()
        invariant
            tokens_match(v@, toks@, ts),
            tokens_ok(v@, ts, 0),
            k <= toks@.len(),
            limit == (if max_chars_per_line == 0 { 1 } else { max_chars_per_line as int }),
            out@ + wrap_from(v@, ts, k as int, line as int, limit as int) == wrap_spec(
                v@,
                max_chars_per_line,
            ),
        decreases toks@.len() - k,
    {
        let t = toks[k];
        let chars = t.last - t.first;
        let ghost rest = wrap_from(v@, ts, k as int + 1, 0, limit as int);
        if line == 0 {
            push_range(&mut out, v, t.first, t.last);
            line = chars;
        } else if chars < limit && line <= limit - 1 - chars {
            out.push(' ');
            push_range(&mut out, v, t.first, t.last);
            line = line + 1 + chars;
        } else {
            out.push('\n');
            push_range(&mut out, v, t.first, t.last);
            line = chars;
        }
        k = k + 1;
        proof {
            let piece = v@.subrange(ts[k - 1].0, ts[k - 1].1);
            assert(out@ + wrap_from(v@, ts, k as int, line as int, limit as int) =~= wrap_spec(
                v@,
                max_chars_per_line,
            ));
        }
    }
    out
}

/// Greedily wrap `text` to `max_chars_per_line`, collapsing whatever
/// whitespace it already has.
///
/// Existing line breaks are not kept: re-wrapping is what happens when the
/// group's layout changes. A single word longer than the limit gets its own
/// line rather than being hyphenated.
pub fn wrap(text: &str, max_chars_per_line: u16) -> (r: String)
    ensures
        r@ == wrap_spec(text@, max_chars_per_line),
{
    let v = chars_of(text);
    let out = wrap_chars(&v, max_chars_per_line);
    string_of(out.as_slice())
}

// --- laws of wrapping --------------------------------------------------------

/// The text of each token of `ts` in `s`.
pub open spec fn pieces(s: Seq<char>, ts: Seq<(int, int)>) -> Seq<Seq<char>> {
    Seq::new(ts.len(), |k: int| s.subrange(ts[k].0, ts[k].1))
}

/// The words of `s`: its whitespace-separated pieces, in order
/// (`str::split_whitespace`).
pub open spec fn words_of(s: Seq<char>) -> Seq<Seq<char>> {
    pieces(s, tokens(s))
}

/// Token ranges moved `d` characters later.
pub open spec fn shifted(ts: Seq<(int, int)>, d: int) -> Seq<(int, int)> {
    Seq::new(ts.len(), |k: int| (ts[k].0 + d, ts[k].1 + d))
}

/// Tokenizing text after a prefix finds the same tokens, moved past it.
proof fn lemma_tokens_shift(x: Seq<char>, t: Seq<char>, j: int, open: Option<int>)
    requires
        0 <= j <= t.len(),
    ensures
        tokens_from(
            x + t,
            x.len() + j,
            match open {
                Some(a) => Some(a + x.len()),
                None => None,
            },
        ) == shifted(tokens_from(t, j, open), x.len() as int),
    decreases t.len() - j,
{
    let s = x + t;
    let d = x.len() as int;
    let o2: Option<int> = match open {
        Some(a) => Some(a + d),
        None => None,
    };
    if j >= t.len() {
        assert(tokens_from(s, d + j, o2) =~= shifted(tokens_from(t, j, open), d));
    } else {
        assert(s[d + j] == t[j]);
        if is_ws(t[j]) {
            lemma_tokens_shift(x, t, j + 1, None);
            let rest = tokens_from(t, j + 1, None);
            match open {
                Some(a) => {
                    assert(shifted(seq![(a, j)] + rest, d) =~= seq![(a + d, d + j)] + shifted(rest, d));
                },
                None => {},
            }
        } else {
            match open {
                Some(a) => {
                    lemma_tokens_shift(x, t, j + 1, Some(a));
                },
                None => {
                    lemma_tokens_shift(x, t, j + 1, Some(j));
                },
            }
        }
    }
}

/// A run of non-whitespace only extends the open token.
proof fn lemma_tokens_run(s: Seq<char>, i: int, m: int, a: int)
    requires
        0 <= i <= m <= s.len(),
        forall|j: int| i <= j < m ==> !is_ws(#[trigger] s[j]),
    ensures
        tokens_from(s, i, Some(a)) == tokens_from(s, m, Some(a)),
    decreases m - i,
{
    if i < m {
        lemma_tokens_run(s, i + 1, m, a);
    }
}

/// Pieces of shifted tokens in text after a prefix are the pieces in the
/// text itself.
proof fn lemma_pieces_shift(x: Seq<char>, t: Seq<char>, ts: Seq<(int, int)>)
    requires
        tokens_ok(t, ts, 0),
    ensures
        pieces(x + t, shifted(ts, x.len() as int)) == pieces(t, ts),
{
    let d = x.len() as int;
    assert forall|k: int| 0 <= k < ts.len() implies (x + t).subrange(ts[k].0 + d, ts[k].1 + d) =~= t.subrange(
        ts[k].0,
        ts[k].1,
    ) by {
        assert(0 <= ts[k].0 < ts[k].1 <= t.len());
    }
    assert(pieces(x + t, shifted(ts, d)) =~= pieces(t, ts));
}

/// A leading whitespace character adds no word.
proof fn lemma_words_after_space(c: char, t: Seq<char>)
    requires
        is_ws(c),
    ensures
        words_of(seq![c] + t) == words_of(t),
{
    let s = seq![c] + t;
    assert(s[0] == c);
    lemma_tokens_shift(seq![c], t, 0, None);
    assert(tokens(s) == tokens_from(s, 1, None));
    lemma_tokens(t);
    lemma_pieces_shift(seq![c], t, tokens(t));
}

/// A word followed by nothing, or by whitespace, is the first word.
proof fn lemma_words_after_piece(p: Seq<char>, rest: Seq<char>)
    requires
        p.len() > 0,
        forall|j: int| 0 <= j < p.len() ==> !is_ws(#[trigger] p[j]),
        rest.len() == 0 || is_ws(rest[0]),
    ensures
        words_of(p + rest) == seq![p] + words_of(rest),
{
    let s = p + rest;
    let n = p.len() as int;
    assert forall|j: int| 0 <= j < n implies !is_ws(#[trigger] s[j]) by {
        assert(s[j] == p[j]);
    }
    assert(s[0] == p[0]);
    lemma_tokens_run(s, 1, n, 0);
    assert(tokens(s) == tokens_from(s, n, Some(0)));
    if rest.len() == 0 {
        assert(s =~= p);
        assert(tokens(s) =~= seq![(0, n)]);
        assert(s.subrange(0, n) =~= p);
        assert(tokens(rest) =~= Seq::<(int, int)>::empty());
        assert(words_of(s) =~= seq![p] + words_of(rest));
    } else {
        assert(s[n] == rest[0]);
        lemma_tokens_shift(p, rest, 1, None);
        assert(tokens(rest) == tokens_from(rest, 1, None));
        let tr = tokens(rest);
        assert(tokens(s) == seq![(0, n)] + shifted(tr, n));
        lemma_tokens(rest);
        lemma_pieces_shift(p, rest, tr);
        assert(s.subrange(0, n) =~= p);
        assert(words_of(s) =~= seq![p] + words_of(rest)) by {
            assert forall|k: int| 0 < k < tokens(s).len() implies pieces(s, tokens(s))[k] == pieces(s, shifted(tr, n))[k
                - 1] by {
                assert(tokens(s)[k] == shifted(tr, n)[k - 1]);
            }
        }
    }
}

/// The words of a greedy wrap from token `k` are the pieces from `k` on; past
/// the first line, the wrap opens with a separator.
proof fn lemma_wrap_words(s: Seq<char>, ts: Seq<(int, int)>, k: int, line: int, limit: int)
    requires
        tokens_ok(s, ts, 0),
        0 <= k <= ts.len(),
        line >= 0,
    ensures
        words_of(wrap_from(s, ts, k, line, limit)) == pieces(s, ts).skip(k),
        k < ts.len() && line != 0 ==> is_ws(wrap_from(s, ts, k, line, limit)[0]),
        k == ts.len() ==> wrap_from(s, ts, k, line, limit).len() == 0,
    decreases ts.len() - k,
{
    if k == ts.len() {
        assert(tokens(Seq::<char>::empty()) =~= Seq::<(int, int)>::empty());
        assert(pieces(s, ts).skip(k) =~= Seq::<Seq<char>>::empty());
        assert(words_of(wrap_from(s, ts, k, line, limit)) =~= Seq::<Seq<char>>::empty());
    } else {
        let piece = s.subrange(ts[k].0, ts[k].1);
        let c = ts[k].1 - ts[k].0;
        assert(0 <= ts[k].0 < ts[k].1 <= s.len());
        assert forall|j: int| 0 <= j < piece.len() implies !is_ws(#[trigger] piece[j]) by {
            assert(piece[j] == s[ts[k].0 + j]);
        }
        let next_line = if line == 0 {
            c
        } else if line + 1 + c <= limit {
            line + 1 + c
        } else {
            c
        };
        lemma_wrap_words(s, ts, k + 1, next_line, limit);
        let rest = wrap_from(s, ts, k + 1, next_line, limit);
        lemma_words_after_piece(piece, rest);
        assert(seq![piece] + pieces(s, ts).skip(k + 1) =~= pieces(s, ts).skip(k));
        if line != 0 {
            let sep = if line + 1 + c <= limit {
                ' '
            } else {
                '\n'
            };
            assert((' ' as u32) == 0x20);
            assert(('\n' as u32) == 0x0A);
            assert(wrap_from(s, ts, k, line, limit) =~= seq![sep] + (piece + rest));
            lemma_words_after_space(sep, piece + rest);
        } else {
            assert(wrap_from(s, ts, k, line, limit) =~= piece + rest);
        }
    }
}

/// Texts with the same pieces wrap the same.
proof fn lemma_wrap_same_pieces(
    s1: Seq<char>,
    ts1: Seq<(int, int)>,
    s2: Seq<char>,
    ts2: Seq<(int, int)>,
    k: int,
    line: int,
    limit: int,
)
    requires
        tokens_ok(s1, ts1, 0),
        tokens_ok(s2, ts2, 0),
        pieces(s1, ts1) == pieces(s2, ts2),
    ensures
        wrap_from(s1, ts1, k, line, limit) == wrap_from(s2, ts2, k, line, limit),
    decreases ts1.len() - k,
{
    assert(ts1.len() == pieces(s1, ts1).len());
    if 0 <= k < ts1.len() {
        assert(pieces(s1, ts1)[k] == pieces(s2, ts2)[k]);
        assert(0 <= ts1[k].0 < ts1[k].1 <= s1.len());
        assert(0 <= ts2[k].0 < ts2[k].1 <= s2.len());
        let c = ts1[k].1 - ts1[k].0;
        let next_line = if line == 0 {
            c
        } else if line + 1 + c <= limit {
            line + 1 + c
        } else {
            c
        };
        lemma_wrap_same_pieces(s1, ts1, s2, ts2, k + 1, next_line, limit);
    }
}

/// Wrapping keeps the words: the wrapped text has exactly the words of the
/// text, in order; only the whitespace between them changes.
pub proof fn law_wrap_keeps_words(s: Seq<char>, max_chars: u16)
    ensures
        words_of(wrap_spec(s, max_chars)) == words_of(s),
{
    lemma_tokens(s);
    let limit: int = if max_chars == 0 {
        1
    } else {
        max_chars as int
    };
    lemma_wrap_words(s, tokens(s), 0, 0, limit);
    assert(pieces(s, tokens(s)).skip(0) =~= pieces(s, tokens(s)));
}

/// Wrapping is idempotent: wrapping already-wrapped text to the same budget
/// changes nothing.
pub proof fn law_wrap_idempotent(s: Seq<char>, max_chars: u16)
    ensures
        wrap_spec(wrap_spec(s, max_chars), max_chars) == wrap_spec(s, max_chars),
{
    let w = wrap_spec(s, max_chars);
    let limit: int = if max_chars == 0 {
        1
    } else {
        max_chars as int
    };
    law_wrap_keeps_words(s, max_chars);
    lemma_tokens(s);
    lemma_tokens(w);
    lemma_wrap_same_pieces(w, tokens(w), s, tokens(s), 0, 0, limit);
}

/// A line's text: its words joined by single spaces.
pub open spec fn line_text(l: Seq<Seq<char>>) -> Seq<char>
    decreases l.len(),
{
    if l.len() == 0 {
        Seq::empty()
    } else if l.len() == 1 {
        l[0]
    } else {
        line_text(l.drop_last()) + seq![' '] + l.last()
    }
}

/// Lines' text: each line's text, joined by newlines.
pub open spec fn lines_text(ls: Seq<Seq<Seq<char>>>) -> Seq<char>
    decreases ls.len(),
{
    if ls.len() == 0 {
        Seq::empty()
    } else if ls.len() == 1 {
        line_text(ls[0])
    } else {
        lines_text(ls.drop_last()) + seq!['\n'] + line_text(ls.last())
    }
}

/// Every word of the lines, in order.
pub open spec fn flat_words(ls: Seq<Seq<Seq<char>>>) -> Seq<Seq<char>>
    decreases ls.len(),
{
    if ls.len() == 0 {
        Seq::empty()
    } else {
        flat_words(ls.drop_last()) + ls.last()
    }
}

/// Greedy lines of words `ws` from word `k` on, with lines `done` closed and
/// line `cur` open: a word joins the open line while the line stays within
/// `limit` characters, and opens a new line when it would not.
pub open spec fn greedy_lines(
    ws: Seq<Seq<char>>,
    k: int,
    done: Seq<Seq<Seq<char>>>,
    cur: Seq<Seq<char>>,
    limit: int,
) -> Seq<Seq<Seq<char>>>
    decreases ws.len() - k,
{
    if k < 0 || k >= ws.len() {
        if cur.len() == 0 {
            done
        } else {
            done.push(cur)
        }
    } else if cur.len() == 0 {
        greedy_lines(ws, k + 1, done, seq![ws[k]], limit)
    } else if line_text(cur).len() + 1 + ws[k].len() <= limit {
        greedy_lines(ws, k + 1, done, cur.push(ws[k]), limit)
    } else {
        greedy_lines(ws, k + 1, done.push(cur), seq![ws[k]], limit)
    }
}

/// The lines [`wrap`] breaks `s` into.
pub open spec fn wrap_lines(s: Seq<char>, max_chars: u16) -> Seq<Seq<Seq<char>>> {
    greedy_lines(words_of(s), 0, Seq::empty(), Seq::empty(), if max_chars == 0 { 1 } else { max_chars as int })
}

/// Line `l` fits `limit` characters, or is a single word.
pub open spec fn line_fits(l: Seq<Seq<char>>, limit: int) -> bool {
    line_text(l).len() <= limit || l.len() == 1
}

/// The first word of line `b` would not have fit at the end of line `a`.
pub open spec fn broke_late(a: Seq<Seq<char>>, b: Seq<Seq<char>>, limit: int) -> bool {
    line_text(a).len() + 1 + b[0].len() > limit
}

/// The lines hold `ws` in order; none is empty, each fits or is one word,
/// and each break comes where the next word would not have fit.
pub open spec fn greedy_shape(ls: Seq<Seq<Seq<char>>>, ws: Seq<Seq<char>>, limit: int) -> bool {
    &&& flat_words(ls) == ws
    &&& forall|i: int| 0 <= i < ls.len() ==> (#[trigger] ls[i]).len() >= 1 && line_fits(ls[i], limit)
    &&& forall|i: int| 0 < i < ls.len() ==> broke_late(ls[i - 1], #[trigger] ls[i], limit)
}

proof fn lemma_line_text_push(l: Seq<Seq<char>>, w: Seq<char>)
    requires
        l.len() >= 1,
    ensures
        line_text(l.push(w)) == line_text(l) + seq![' '] + w,
{
    assert(l.push(w).drop_last() =~= l);
}

proof fn lemma_lines_text_push(ls: Seq<Seq<Seq<char>>>, l: Seq<Seq<char>>)
    ensures
        lines_text(ls.push(l)) == if ls.len() == 0 {
            line_text(l)
        } else {
            lines_text(ls) + seq!['\n'] + line_text(l)
        },
{
    assert(ls.push(l).drop_last() =~= ls);
}

proof fn lemma_flat_push(ls: Seq<Seq<Seq<char>>>, l: Seq<Seq<char>>)
    ensures
        flat_words(ls.push(l)) == flat_words(ls) + l,
{
    assert(ls.push(l).drop_last() =~= ls);
}

/// The greedy lines keep their shape as words are added.
proof fn lemma_greedy_shape(
    ws: Seq<Seq<char>>,
    k: int,
    done: Seq<Seq<Seq<char>>>,
    cur: Seq<Seq<char>>,
    limit: int,
)
    requires
        0 <= k <= ws.len(),
        cur.len() == 0 ==> done.len() == 0 && k == 0,
        forall|i: int| 0 <= i < done.len() ==> (#[trigger] done[i]).len() >= 1 && line_fits(done[i], limit),
        forall|i: int| 0 < i < done.len() ==> broke_late(done[i - 1], #[trigger] done[i], limit),
        done.len() > 0 ==> broke_late(done.last(), cur, limit),
        cur.len() > 0 ==> line_fits(cur, limit),
        flat_words(done) + cur == ws.take(k),
    ensures
        greedy_shape(greedy_lines(ws, k, done, cur, limit), ws, limit),
    decreases ws.len() - k,
{
    if k >= ws.len() {
        assert(ws.take(k) =~= ws);
        if cur.len() == 0 {
            assert(flat_words(done) =~= Seq::<Seq<char>>::empty());
        } else {
            let r = done.push(cur);
            lemma_flat_push(done, cur);
            assert forall|i: int| 0 < i < r.len() implies broke_late(r[i - 1], #[trigger] r[i], limit) by {
                if i < done.len() {
                    assert(r[i] == done[i] && r[i - 1] == done[i - 1]);
                }
            }
        }
    } else {
        let w = ws[k];
        assert(ws.take(k + 1) =~= ws.take(k).push(w));
        if cur.len() == 0 {
            assert(flat_words(done) =~= Seq::<Seq<char>>::empty());
            assert(flat_words(done) + seq![w] =~= ws.take(k + 1));
            lemma_greedy_shape(ws, k + 1, done, seq![w], limit);
        } else if line_text(cur).len() + 1 + w.len() <= limit {
            let c2 = cur.push(w);
            lemma_line_text_push(cur, w);
            assert(c2[0] == cur[0]);
            assert(flat_words(done) + c2 =~= ws.take(k + 1));
            lemma_greedy_shape(ws, k + 1, done, c2, limit);
        } else {
            let d2 = done.push(cur);
            lemma_flat_push(done, cur);
            assert(flat_words(d2) + seq![w] =~= ws.take(k + 1));
            assert forall|i: int| 0 <= i < d2.len() implies (#[trigger] d2[i]).len() >= 1 && line_fits(d2[i], limit) by {
                if i < done.len() {
                    assert(d2[i] == done[i]);
                }
            }
            assert forall|i: int| 0 < i < d2.len() implies broke_late(d2[i - 1], #[trigger] d2[i], limit) by {
                if i < done.len() {
                    assert(d2[i] == done[i] && d2[i - 1] == done[i - 1]);
                }
            }
            assert(seq![w][0] == w);
            lemma_greedy_shape(ws, k + 1, d2, seq![w], limit);
        }
    }
}

/// The open text of closed lines `done` and open line `cur`.
pub open spec fn open_text(done: Seq<Seq<Seq<char>>>, cur: Seq<Seq<char>>) -> Seq<char> {
    if cur.len() == 0 {
        Seq::empty()
    } else {
        lines_text(done.push(cur))
    }
}

/// The greedy lines, joined, are the wrapped text.
proof fn lemma_greedy_text(
    s: Seq<char>,
    ts: Seq<(int, int)>,
    k: int,
    done: Seq<Seq<Seq<char>>>,
    cur: Seq<Seq<char>>,
    line: int,
    limit: int,
)
    requires
        tokens_ok(s, ts, 0),
        0 <= k <= ts.len(),
        cur.len() == 0 ==> done.len() == 0 && line == 0,
        cur.len() > 0 ==> line == line_text(cur).len() && line >= 1,
    ensures
        lines_text(greedy_lines(pieces(s, ts), k, done, cur, limit)) == open_text(done, cur) + wrap_from(
            s,
            ts,
            k,
            line,
            limit,
        ),
    decreases ts.len() - k,
{
    let ws = pieces(s, ts);
    if k >= ts.len() {
        if cur.len() == 0 {
            assert(lines_text(done) =~= Seq::<char>::empty());
        }
        assert(open_text(done, cur) + Seq::<char>::empty() =~= open_text(done, cur));
    } else {
        let w = ws[k];
        assert(0 <= ts[k].0 < ts[k].1 <= s.len());
        assert(w.len() == ts[k].1 - ts[k].0);
        let rest_line: int = if line == 0 {
            w.len() as int
        } else if line + 1 + w.len() <= limit {
            line + 1 + w.len()
        } else {
            w.len() as int
        };
        let rest = wrap_from(s, ts, k + 1, rest_line, limit);
        if cur.len() == 0 {
            lemma_greedy_text(s, ts, k + 1, done, seq![w], rest_line, limit);
            lemma_lines_text_push(done, seq![w]);
            assert(wrap_from(s, ts, k, line, limit) == w + rest);
        } else if line + 1 + w.len() <= limit {
            lemma_line_text_push(cur, w);
            lemma_greedy_text(s, ts, k + 1, done, cur.push(w), rest_line, limit);
            lemma_lines_text_push(done, cur.push(w));
            lemma_lines_text_push(done, cur);
            if done.len() == 0 {
                assert(open_text(done, cur.push(w)) + rest =~= open_text(done, cur) + (seq![' '] + w + rest));
            } else {
                assert(open_text(done, cur.push(w)) + rest =~= open_text(done, cur) + (seq![' '] + w + rest));
            }
        } else {
            let d2 = done.push(cur);
            lemma_greedy_text(s, ts, k + 1, d2, seq![w], rest_line, limit);
            lemma_lines_text_push(d2, seq![w]);
            assert(open_text(d2, seq![w]) + rest =~= open_text(done, cur) + (seq!['\n'] + w + rest));
        }
    }
}

/// Tokenizing text followed by whitespace (or nothing) finds the text's
/// tokens, then the rest's, moved past the text.
proof fn lemma_tokens_concat(x: Seq<char>, t: Seq<char>, i: int, open: Option<int>)
    requires
        0 <= i <= x.len(),
        t.len() == 0 || is_ws(t[0]),
    ensures
        tokens_from(x + t, i, open) == tokens_from(x, i, open) + shifted(tokens(t), x.len() as int),
    decreases x.len() - i,
{
    let s = x + t;
    let d = x.len() as int;
    if i == d {
        if t.len() == 0 {
            assert(s =~= x);
            assert(tokens(t) =~= Seq::<(int, int)>::empty());
            assert(tokens_from(x, i, open) + shifted(tokens(t), d) =~= tokens_from(x, i, open));
        } else {
            assert(s[d] == t[0]);
            lemma_tokens_shift(x, t, 1, None);
            assert(tokens(t) == tokens_from(t, 1, None));
            match open {
                Some(a) => {
                    assert(tokens_from(s, i, open) =~= tokens_from(x, i, open) + shifted(tokens(t), d));
                },
                None => {
                    assert(tokens_from(s, i, open) =~= tokens_from(x, i, open) + shifted(tokens(t), d));
                },
            }
        }
    } else {
        assert(s[i] == x[i]);
        if is_ws(x[i]) {
            lemma_tokens_concat(x, t, i + 1, None);
            match open {
                Some(a) => {
                    assert(seq![(a, i)] + (tokens_from(x, i + 1, None) + shifted(tokens(t), d)) =~= (seq![(a, i)]
                        + tokens_from(x, i + 1, None)) + shifted(tokens(t), d));
                },
                None => {},
            }
        } else {
            match open {
                Some(a) => {
                    lemma_tokens_concat(x, t, i + 1, Some(a));
                },
                None => {
                    lemma_tokens_concat(x, t, i + 1, Some(i));
                },
            }
        }
    }
}

/// The words of text followed by whitespace-led text are the words of each.
pub proof fn lemma_words_concat(x: Seq<char>, t: Seq<char>)
    requires
        t.len() == 0 || is_ws(t[0]),
    ensures
        words_of(x + t) == words_of(x) + words_of(t),
{
    lemma_tokens_concat(x, t, 0, None);
    lemma_tokens(x);
    lemma_tokens(t);
    let tx = tokens(x);
    let tt = tokens(t);
    lemma_pieces_shift(x, t, tt);
    let all = tokens(x + t);
    assert(all == tx + shifted(tt, x.len() as int));
    assert forall|k: int| 0 <= k < all.len() implies #[trigger] pieces(x + t, all)[k] == (words_of(x) + words_of(
        t,
    ))[k] by {
        if k < tx.len() {
            assert(all[k] == tx[k]);
            assert(0 <= tx[k].0 < tx[k].1 <= x.len());
            assert((x + t).subrange(tx[k].0, tx[k].1) =~= x.subrange(tx[k].0, tx[k].1));
        } else {
            assert(all[k] == shifted(tt, x.len() as int)[k - tx.len()]);
            assert(pieces(x + t, shifted(tt, x.len() as int))[k - tx.len()] == pieces(t, tt)[k - tx.len()]);
        }
    }
    assert(words_of(x + t) =~= words_of(x) + words_of(t));
}

/// A single word is its own only word.
proof fn lemma_words_single(w: Seq<char>)
    requires
        w.len() > 0,
        forall|j: int| 0 <= j < w.len() ==> !is_ws(#[trigger] w[j]),
    ensures
        words_of(w) == seq![w],
{
    lemma_words_after_piece(w, Seq::empty());
    assert(w + Seq::<char>::empty() =~= w);
    assert(tokens(Seq::<char>::empty()) =~= Seq::<(int, int)>::empty());
    assert(seq![w] + words_of(Seq::<char>::empty()) =~= seq![w]);
}

/// Every word is a non-empty run without whitespace.
pub open spec fn plain_words(ws: Seq<Seq<char>>) -> bool {
    forall|k: int|
        0 <= k < ws.len() ==> (#[trigger] ws[k]).len() > 0 && forall|j: int| 0 <= j < ws[k].len() ==> !is_ws(
            #[trigger] ws[k][j],
        )
}

/// A line's text holds exactly its words.
pub proof fn lemma_words_of_line(l: Seq<Seq<char>>)
    requires
        plain_words(l),
    ensures
        words_of(line_text(l)) == l,
    decreases l.len(),
{
    if l.len() == 0 {
        assert(tokens(Seq::<char>::empty()) =~= Seq::<(int, int)>::empty());
        assert(words_of(line_text(l)) =~= l);
    } else if l.len() == 1 {
        lemma_words_single(l[0]);
        assert(seq![l[0]] =~= l);
    } else {
        let init = l.drop_last();
        let w = l.last();
        lemma_words_of_line(init);
        lemma_words_concat(line_text(init), seq![' '] + w);
        assert(line_text(l) == line_text(init) + (seq![' '] + w));
        assert((' ' as u32) == 0x20);
        lemma_words_after_space(' ', w);
        lemma_words_single(w);
        assert(init + seq![w] =~= l);
    }
}

/// Lines' text holds exactly their words, in order.
pub proof fn lemma_words_of_lines(ls: Seq<Seq<Seq<char>>>)
    requires
        forall|i: int| 0 <= i < ls.len() ==> plain_words(#[trigger] ls[i]),
    ensures
        words_of(lines_text(ls)) == flat_words(ls),
    decreases ls.len(),
{
    if ls.len() == 0 {
        assert(tokens(Seq::<char>::empty()) =~= Seq::<(int, int)>::empty());
        assert(words_of(lines_text(ls)) =~= flat_words(ls));
    } else if ls.len() == 1 {
        lemma_words_of_line(ls[0]);
        assert(ls.drop_last() =~= Seq::<Seq<Seq<char>>>::empty());
        assert(flat_words(ls) =~= flat_words(Seq::<Seq<Seq<char>>>::empty()) + ls[0]);
        assert(flat_words(Seq::<Seq<Seq<char>>>::empty()) + ls[0] =~= ls[0]);
    } else {
        let init = ls.drop_last();
        let l = ls.last();
        lemma_words_of_lines(init);
        lemma_words_of_line(l);
        assert(lines_text(ls) == lines_text(init) + (seq!['\n'] + line_text(l)));
        assert(('\n' as u32) == 0x0A);
        lemma_words_concat(lines_text(init), seq!['\n'] + line_text(l));
        lemma_words_after_space('\n', line_text(l));
    }
}

/// Greedy wrapping, line by line.
///
/// The wrapped text is its lines joined by newlines, each line its words
/// joined by single spaces. The lines hold the text's words in order; no
/// line is empty; each is at most the budget (at least one character) long
/// unless it is a single word; and each break comes where the next word
/// would not have fit on the line before it.
pub proof fn law_wrap_lines(s: Seq<char>, max_chars: u16)
    ensures
        ({
            let limit: int = if max_chars == 0 { 1 } else { max_chars as int };
            let ls = wrap_lines(s, max_chars);
            &&& lines_text(ls) == wrap_spec(s, max_chars)
            &&& greedy_shape(ls, words_of(s), limit)
        }),
{
    let limit: int = if max_chars == 0 {
        1
    } else {
        max_chars as int
    };
    lemma_tokens(s);
    let e = Seq::<Seq<Seq<char>>>::empty();
    let c = Seq::<Seq<char>>::empty();
    lemma_greedy_text(s, tokens(s), 0, e, c, 0, limit);
    assert(open_text(e, c) + wrap_spec(s, max_chars) =~= wrap_spec(s, max_chars));
    assert(flat_words(e) =~= Seq::<Seq<char>>::empty());
    assert(flat_words(e) + c =~= words_of(s).take(0));
    lemma_greedy_shape(words_of(s), 0, e, c, limit);
}

/// Total characters in tokens `0..k`: the time weight spent before token `k`.
pub open spec fn weight_before(ts: Seq<(int, int)>, k: int) -> int
    decreases k,
{
    if k <= 0 {
        0
    } else {
        weight_before(ts, k - 1) + (ts[k - 1].1 - ts[k - 1].0)
    }
}

/// Weights grow with the token index and never pass the end of the previous
/// token.
pub proof fn lemma_weight_before(s: Seq<char>, ts: Seq<(int, int)>, k: int)
    requires
        tokens_ok(s, ts, 0),
        0 <= k <= ts.len(),
    ensures
        0 <= weight_before(ts, k),
        k > 0 ==> weight_before(ts, k) <= ts[k - 1].1,
        forall|j: int|
            0 <= j <= k ==> 0 <= #[trigger] weight_before(ts, j) <= weight_before(ts, k),
        k > 0 ==> weight_before(ts, k) >= k,
    decreases k,
{
    if k > 0 {
        lemma_weight_before(s, ts, k - 1);
        assert(ts[k - 1].0 < ts[k - 1].1);
        if k > 1 {
            assert(ts[k - 1].0 > ts[k - 2].1);
        }
    }
}

/// `x` clamped into `u32`.
pub open spec fn clamp_u32_spec(x: int) -> u32 {
    if x > u32::MAX {
        u32::MAX
    } else {
        x as u32
    }
}

/// `value` clamped into `u32`.
pub fn clamp_u32(value: usize) -> (r: u32)
    ensures
        r == clamp_u32_spec(value as int),
{
    if value > 0xFFFF_FFFF {
        u32::MAX
    } else {
        value as u32
    }
}

/// The estimated time `weight` characters into a span.
pub open spec fn est_point(start: int, span: int, weight: int, total: int) -> int {
    start + (span * weight) / total
}

/// Estimated points stay between the span's ends and grow with the weight.
pub proof fn lemma_est_point(start: int, span: int, a: int, b: int, total: int)
    requires
        0 <= a <= b <= total,
        0 < total,
        0 <= span,
    ensures
        start <= est_point(start, span, a, total) <= est_point(start, span, b, total) <= start + span,
        est_point(start, span, 0, total) == start,
        est_point(start, span, total, total) == start + span,
{
    vstd::arithmetic::mul::lemma_mul_inequality(a, b, span);
    vstd::arithmetic::mul::lemma_mul_inequality(b, total, span);
    vstd::arithmetic::mul::lemma_mul_inequality(0, a, span);
    assert(span * a == a * span && span * b == b * span && span * total == total * span) by (nonlinear_arith);
    vstd::arithmetic::div_mod::lemma_div_is_ordered(span * a, span * b, total);
    vstd::arithmetic::div_mod::lemma_div_is_ordered(span * b, span * total, total);
    vstd::arithmetic::div_mod::lemma_div_is_ordered(0, span * a, total);
    vstd::arithmetic::div_mod::lemma_div_by_multiple(span, total);
    assert(span * 0 == 0);
    assert(0int / total == 0);
}

/// Word `k` of the estimate for a span of `span` ms from `start_ms`.
pub open spec fn est_entry(s: Seq<char>, ts: Seq<(int, int)>, start_ms: u32, span: int, total: int, k: int) -> (
    u32,
    u32,
    u32,
    u32,
) {
    (
        est_point(start_ms as int, span, weight_before(ts, k), total) as u32,
        est_point(start_ms as int, span, weight_before(ts, k + 1), total) as u32,
        clamp_u32_spec(byte_at(s, ts[k].0) as int),
        clamp_u32_spec(byte_at(s, ts[k].1) as int),
    )
}

/// The plain values of the words [`estimate_word_timings`] gives: each token
/// gets a slice of `start..end` in proportion to its characters, and its byte
/// range (clamped into `u32`). Nothing for an empty span or no tokens.
pub open spec fn estimate_spec(s: Seq<char>, start_ms: u32, end_ms: u32) -> Seq<(u32, u32, u32, u32)> {
    let span = if end_ms >= start_ms { end_ms - start_ms } else { 0 };
    let ts = tokens(s);
    let total = weight_before(ts, ts.len() as int);
    if span == 0 || ts.len() == 0 || total == 0 {
        Seq::empty()
    } else {
        Seq::new(ts.len(), |k: int| est_entry(s, ts, start_ms, span, total, k))
    }
}

/// Spread `start_ms..end_ms` across the words of `text`, weighted by how long
/// each word is.
///
/// This is the estimate for subtitle files, which carry per-cue times but no
/// per-word ones: "extraordinarily" does take longer to say than "a". The
/// words come back ascending and back to back, the first starting at
/// `start_ms` and the last ending at `end_ms`. Nothing for an empty span,
/// since a highlight that advances instantly is worse than none.
pub fn estimate_word_timings(text: &str, start_ms: u32, end_ms: u32) -> (words: Vec<CaptionWord>)
    ensures
        words_view(words@) == estimate_spec(text@, start_ms, end_ms),
        words@.len() > 0 ==> words@[0].start_ms == start_ms && words@.last().end_ms == end_ms,
        forall|k: int| 0 <= k < words@.len() ==> #[trigger] words@[k].start_ms <= words@[k].end_ms,
        forall|k: int|
            0 < k < words@.len() ==> #[trigger] words@[k].start_ms == words@[k - 1].end_ms,
{
    let v = chars_of(text);
    estimate_chars(&v, start_ms, end_ms)
}

/// The estimate has one word per token unless the span is empty, and its
/// words ascend back to back from `start_ms` to `end_ms`.
pub proof fn lemma_estimate_laws(s: Seq<char>, start_ms: u32, end_ms: u32)
    ensures
        ({
            let e = estimate_spec(s, start_ms, end_ms);
            &&& e.len() == (if end_ms <= start_ms {
                0
            } else {
                tokens(s).len()
            })
            &&& e.len() > 0 ==> e[0].0 == start_ms && e.last().1 == end_ms
            &&& forall|k: int| 0 <= k < e.len() ==> #[trigger] e[k].0 <= e[k].1
            &&& forall|k: int| 0 < k < e.len() ==> #[trigger] e[k].0 == e[k - 1].1
        }),
{
    let e = estimate_spec(s, start_ms, end_ms);
    let span: int = if end_ms >= start_ms { end_ms - start_ms } else { 0 };
    let ts = tokens(s);
    let total = weight_before(ts, ts.len() as int);
    lemma_tokens(s);
    if ts.len() > 0 {
        lemma_weight_before(s, ts, ts.len() as int);
    }
    if e.len() > 0 {
        lemma_weight_before(s, ts, ts.len() as int);
        assert forall|k: int| 0 <= k < e.len() implies #[trigger] e[k].0 <= e[k].1 by {
            lemma_weight_before(s, ts, k + 1);
            lemma_est_point(start_ms as int, span, weight_before(ts, k), weight_before(ts, k + 1), total);
        }
        let n = e.len() - 1;
        lemma_weight_before(s, ts, 1);
        lemma_est_point(start_ms as int, span, 0, weight_before(ts, 1), total);
        lemma_est_point(start_ms as int, span, weight_before(ts, n), total, total);
    }
}

/// Characters in words `0..k`.
pub open spec fn chars_before(ws: Seq<Seq<char>>, k: int) -> int
    decreases k,
{
    if k <= 0 {
        0
    } else {
        chars_before(ws, k - 1) + ws[k - 1].len()
    }
}

proof fn lemma_chars_before(s: Seq<char>, k: int)
    requires
        0 <= k <= tokens(s).len(),
        tokens_ok(s, tokens(s), 0),
    ensures
        chars_before(words_of(s), k) == weight_before(tokens(s), k),
    decreases k,
{
    if k > 0 {
        lemma_chars_before(s, k - 1);
        let t = tokens(s)[k - 1];
        assert(0 <= t.0 < t.1 <= s.len());
        assert(words_of(s)[k - 1].len() == t.1 - t.0);
    }
}

/// The word-timing estimate, as a formula.
///
/// Each word of the text weighs its characters (at least one, as no word is
/// empty). Unless the span is empty the estimate has one entry per word: the
/// first starts at `start_ms`, each starts where the one before ended, and
/// word `k` ends at `start_ms + (end_ms - start_ms) * W / T` in integer
/// division, where `W` weighs words `0..=k` and `T` all of them. Entry `k`
/// covers the bytes of word `k`.
pub proof fn law_estimate_formula(s: Seq<char>, start_ms: u32, end_ms: u32)
    ensures
        ({
            let e = estimate_spec(s, start_ms, end_ms);
            let ws = words_of(s);
            let ts = tokens(s);
            let total = chars_before(ws, ws.len() as int);
            &&& forall|k: int| 0 <= k < ws.len() ==> (#[trigger] ws[k]).len() >= 1 && ws[k] == s.subrange(
                ts[k].0,
                ts[k].1,
            )
            &&& e.len() == (if end_ms <= start_ms {
                0
            } else {
                ws.len()
            })
            &&& e.len() > 0 ==> e[0].0 == start_ms
            &&& forall|k: int| 0 < k < e.len() ==> #[trigger] e[k].0 == e[k - 1].1
            &&& forall|k: int|
                0 <= k < e.len() ==> (#[trigger] e[k]).1 == start_ms + (end_ms - start_ms) * chars_before(ws, k + 1)
                    / total
            &&& forall|k: int|
                0 <= k < e.len() ==> (#[trigger] e[k]).2 == clamp_u32_spec(byte_at(s, ts[k].0) as int) && e[k].3
                    == clamp_u32_spec(byte_at(s, ts[k].1) as int)
        }),
{
    let e = estimate_spec(s, start_ms, end_ms);
    let ws = words_of(s);
    let ts = tokens(s);
    lemma_tokens(s);
    lemma_estimate_laws(s, start_ms, end_ms);
    assert forall|k: int| 0 <= k < ws.len() implies (#[trigger] ws[k]).len() >= 1 && ws[k] == s.subrange(
        ts[k].0,
        ts[k].1,
    ) by {
        assert(0 <= ts[k].0 < ts[k].1 <= s.len());
    }
    if e.len() > 0 {
        let span: int = end_ms - start_ms;
        let total = weight_before(ts, ts.len() as int);
        lemma_chars_before(s, ts.len() as int);
        lemma_weight_before(s, ts, ts.len() as int);
        assert forall|k: int| 0 <= k < e.len() implies (#[trigger] e[k]).1 == start_ms + (end_ms - start_ms)
            * chars_before(ws, k + 1) / chars_before(ws, ws.len() as int) by {
            lemma_chars_before(s, k + 1);
            lemma_weight_before(s, ts, k + 1);
            lemma_est_point(start_ms as int, span, weight_before(ts, k + 1), total, total);
        }
    }
}

/// Laws of the estimate carry over to words with the same plain values.
proof fn lemma_estimate_words(words: Seq<CaptionWord>, s: Seq<char>, start_ms: u32, end_ms: u32)
    requires
        words_view(words) == estimate_spec(s, start_ms, end_ms),
    ensures
        words.len() > 0 ==> words[0].start_ms == start_ms && words.last().end_ms == end_ms,
        forall|k: int| 0 <= k < words.len() ==> #[trigger] words[k].start_ms <= words[k].end_ms,
        forall|k: int| 0 < k < words.len() ==> #[trigger] words[k].start_ms == words[k - 1].end_ms,
{
    let e = estimate_spec(s, start_ms, end_ms);
    lemma_estimate_laws(s, start_ms, end_ms);
    assert(words.len() == e.len());
    assert forall|k: int| 0 <= k < words.len() implies #[trigger] words[k].start_ms <= words[k].end_ms by {
        assert(words_view(words)[k] == e[k]);
        assert(e[k].0 <= e[k].1);
        assert(words_view(words)[k] == word_view(words[k]));
    }
    assert forall|k: int| 0 < k < words.len() implies #[trigger] words[k].start_ms == words[k - 1].end_ms by {
        assert(words_view(words)[k] == e[k]);
        assert(words_view(words)[k - 1] == e[k - 1]);
    }
    if words.len() > 0 {
        assert(words_view(words)[0] == e[0]);
        assert(words_view(words)[words.len() - 1] == e[words.len() - 1]);
    }
}

/// `start_ms` plus the share of `span` that `consumed` of `total` characters
/// take.
fn estimate_point(start_ms: u32, span: u32, consumed: u128, total: u128) -> (r: u32)
    requires
        consumed <= total,
        0 < total <= 0xFFFF_FFFF_FFFF_FFFF,
        start_ms as int + span as int <= u32::MAX,
    ensures
        r == est_point(start_ms as int, span as int, consumed as int, total as int),
{
    proof {
        lemma_est_point(start_ms as int, span as int, consumed as int, total as int, total as int);
    }
    assert((span as u128) * consumed <= 0xFFFF_FFFF * 0xFFFF_FFFF_FFFF_FFFF) by (nonlinear_arith)
        requires
            span <= 0xFFFF_FFFF,
            consumed <= 0xFFFF_FFFF_FFFF_FFFF,
    ;
    let part: u128 = (span as u128) * consumed / total;
    start_ms + part as u32
}

/// Token character counts, summed.
fn total_weight(toks: &Vec<Token>, Ghost(s): Ghost<Seq<char>>, Ghost(ts): Ghost<Seq<(int, int)>>) -> (total: u128)
    requires
        tokens_match(s, toks@, ts),
        tokens_ok(s, ts, 0),
        s.len() <= usize::MAX,
    ensures
        total == weight_before(ts, ts.len() as int),
        total <= s.len(),
{
    let mut total: u128 = 0;
    let mut k: usize = 0;
    while k < toks.len()
        invariant
            tokens_match(s, toks@, ts),
            tokens_ok(s, ts, 0),
            k <= toks@.len(),
            total == weight_before(ts, k as int),
            s.len() <= usize::MAX,
        decreases toks@.len() - k,
    {
        proof {
            lemma_weight_before(s, ts, k as int + 1);
        }
        total = total + (toks[k].last - toks[k].first) as u128;
        k += 1;
    }
    proof {
        lemma_weight_before(s, ts, ts.len() as int);
    }
    total
}

/// [`estimate_word_timings`] on characters.
pub fn estimate_chars(v: &Vec<char>, start_ms: u32, end_ms: u32) -> (words: Vec<CaptionWord>)
    requires
        utf8_len(v@) <= usize::MAX,
    ensures
        words_view(words@) == estimate_spec(v@, start_ms, end_ms),
        words@.len() > 0 ==> words@[0].start_ms == start_ms && words@.last().end_ms == end_ms,
        forall|k: int| 0 <= k < words@.len() ==> #[trigger] words@[k].start_ms <= words@[k].end_ms,
        forall|k: int|
            0 < k < words@.len() ==> #[trigger] words@[k].start_ms == words@[k - 1].end_ms,
{
    let ghost s = v@;
    let _n = v.len();
    let span: u32 = if end_ms >= start_ms {
        end_ms - start_ms
    } else {
        0
    };
    let toks = tokenize(v);
    let ghost ts = tokens(s);
    proof {
        lemma_tokens(s);
    }
    if span == 0 || toks.len() == 0 {
        proof {
            assert(words_view(Seq::<CaptionWord>::empty()) =~= estimate_spec(s, start_ms, end_ms));
        }
        return Vec::new();
    }
    let total = total_weight(&toks, Ghost(s), Ghost(ts));
    proof {
        lemma_weight_before(s, ts, ts.len() as int);
    }
    let mut words: Vec<CaptionWord> = Vec::new();
    let mut consumed: u128 = 0;
    let mut k: usize = 0;
    while k < toks.len()
        invariant
            tokens_match(s, toks@, ts),
            tokens_ok(s, ts, 0),
            k <= toks@.len(),
            span == end_ms - start_ms,
            total == weight_before(ts, ts.len() as int),
            0 < total <= s.len() <= usize::MAX,
            consumed == weight_before(ts, k as int),
            words@.len() == k,
            forall|j: int| 0 <= j < k ==> #[trigger] word_view(words@[j]) == est_entry(s, ts, start_ms, span as int, total as int, j),
        decreases toks@.len() - k,
    {
        let t = toks[k];
        proof {
            lemma_weight_before(s, ts, k as int + 1);
            lemma_weight_before(s, ts, ts.len() as int);
        }
        let first = estimate_point(start_ms, span, consumed, total);
        consumed = consumed + (t.last - t.first) as u128;
        let last = estimate_point(start_ms, span, consumed, total);
        words.push(
            CaptionWord {
                start_ms: first,
                end_ms: last,
                range: Range { start: clamp_u32(t.start), end: clamp_u32(t.end) },
            },
        );
        k += 1;
    }
    proof {
        assert(words_view(words@) =~= estimate_spec(s, start_ms, end_ms));
        lemma_estimate_words(words@, s, start_ms, end_ms);
    }
    words
}

/// Whether `a` and `b` hold the same tokens in the same order.
pub open spec fn same_tokens(a: Seq<char>, b: Seq<char>) -> bool {
    &&& tokens(a).len() == tokens(b).len()
    &&& forall|k: int|
        0 <= k < tokens(a).len() ==> a.subrange(tokens(a)[k].0, tokens(a)[k].1) == b.subrange(
            #[trigger] tokens(b)[k].0,
            tokens(b)[k].1,
        )
}

/// Where byte `index` of `a` starts in `b`, scanning token pairs from `k`: the
/// same offset inside a token, the next token's start from whitespace, the
/// last token's end past them all.
pub open spec fn map_start_from(a: Seq<char>, b: Seq<char>, k: int, index: int) -> int
    decreases tokens(a).len() - k,
{
    let ta = tokens(a);
    let tb = tokens(b);
    if k < 0 || k >= ta.len() {
        if ta.len() == 0 {
            0
        } else {
            byte_at(b, tb[ta.len() - 1].1) as int
        }
    } else {
        let os = byte_at(a, ta[k].0) as int;
        let oe = byte_at(a, ta[k].1) as int;
        let ns = byte_at(b, tb[k].0) as int;
        if index <= os {
            ns
        } else if index < oe {
            ns + (index - os)
        } else {
            map_start_from(a, b, k + 1, index)
        }
    }
}

/// Where a range ending at byte `index` of `a` ends in `b`, scanning token
/// pairs `k - 1` down to `0`: the same offset inside a token, the previous
/// token's end from whitespace, the first token's start before them all.
pub open spec fn map_end_from(a: Seq<char>, b: Seq<char>, k: int, index: int) -> int
    decreases k,
{
    let ta = tokens(a);
    let tb = tokens(b);
    if k <= 0 {
        if ta.len() == 0 {
            0
        } else {
            byte_at(b, tb[0].0) as int
        }
    } else {
        let os = byte_at(a, ta[k - 1].0) as int;
        let oe = byte_at(a, ta[k - 1].1) as int;
        let ns = byte_at(b, tb[k - 1].0) as int;
        let ne = byte_at(b, tb[k - 1].1) as int;
        if index >= oe {
            ne
        } else if index > os {
            ns + (index - os)
        } else {
            map_end_from(a, b, k - 1, index)
        }
    }
}

/// A range starting where token `first` starts maps to where it starts in
/// `b`.
proof fn lemma_map_start_token(a: Seq<char>, b: Seq<char>, k: int, first: int)
    requires
        tokens_ok(a, tokens(a), 0),
        0 <= k <= first < tokens(a).len(),
    ensures
        map_start_from(a, b, k, byte_at(a, tokens(a)[first].0) as int) == byte_at(b, tokens(b)[first].0),
    decreases first - k,
{
    let ta = tokens(a);
    if k < first {
        assert(ta[k].0 < ta[k].1 <= ta[first].0) by {
            assert(0 <= ta[k].0 < ta[k].1 <= a.len());
            assert(forall|x: int, y: int| 0 <= x < y < ta.len() ==> ta[x].1 < ta[y].0) by {
                assert forall|x: int, y: int| 0 <= x < y < ta.len() implies ta[x].1 < ta[y].0 by {
                    lemma_token_order(a, x, y);
                }
            }
        }
        lemma_byte_at_mono(a, ta[k].0, ta[k].1);
        lemma_byte_at_mono(a, ta[k].1, ta[first].0);
        lemma_map_start_token(a, b, k + 1, first);
    }
}

/// A range ending where token `last` ends maps to where it ends in `b`.
proof fn lemma_map_end_token(a: Seq<char>, b: Seq<char>, k: int, last: int)
    requires
        tokens_ok(a, tokens(a), 0),
        0 <= last < k <= tokens(a).len(),
    ensures
        map_end_from(a, b, k, byte_at(a, tokens(a)[last].1) as int) == byte_at(b, tokens(b)[last].1),
    decreases k,
{
    let ta = tokens(a);
    if k - 1 > last {
        assert(ta[last].1 <= ta[k - 1].0 < ta[k - 1].1) by {
            assert(0 <= ta[k - 1].0 < ta[k - 1].1 <= a.len());
            lemma_token_order(a, last, k - 1);
        }
        lemma_byte_at_mono(a, ta[last].1, ta[k - 1].0);
        lemma_byte_at_mono(a, ta[k - 1].0, ta[k - 1].1);
        lemma_map_end_token(a, b, k - 1, last);
    }
}

/// Tokens come in order: an earlier token ends before a later one starts.
proof fn lemma_token_order(a: Seq<char>, x: int, y: int)
    requires
        tokens_ok(a, tokens(a), 0),
        0 <= x < y < tokens(a).len(),
    ensures
        tokens(a)[x].1 < tokens(a)[y].0,
    decreases y - x,
{
    let ta = tokens(a);
    assert(ta[y].0 > ta[y - 1].1);
    assert(ta[y - 1].0 < ta[y - 1].1);
    if x < y - 1 {
        lemma_token_order(a, x, y - 1);
    }
}

/// Re-wrapping keeps every word range over its words.
///
/// When word `i`'s byte range runs from the start of token `first` to the
/// end of token `last` of the text, its timing is kept and its new range
/// runs from the start of token `first` to the end of token `last` of the
/// wrapped text (clamped into `u32`), and those tokens are the same words.
pub proof fn law_rewrap_covers_words(text: Seq<char>, words: Seq<CaptionWord>, max_chars: u16, i: int, first: int, last: int)
    requires
        0 <= i < words.len(),
        0 <= first <= last < tokens(text).len(),
        words[i].range.start == byte_at(text, tokens(text)[first].0),
        words[i].range.end == byte_at(text, tokens(text)[last].1),
    ensures
        ({
            let w = wrap_spec(text, max_chars);
            let r = rewrap_words(text, words, max_chars);
            &&& r.len() == words.len()
            &&& r[i].0 == words[i].start_ms && r[i].1 == words[i].end_ms
            &&& r[i].2 == clamp_u32_spec(byte_at(w, tokens(w)[first].0) as int)
            &&& r[i].3 == clamp_u32_spec(byte_at(w, tokens(w)[last].1) as int)
            &&& words_of(w) == words_of(text)
        }),
{
    let w = wrap_spec(text, max_chars);
    lemma_tokens(text);
    law_wrap_keeps_words(text, max_chars);
    lemma_wrap_same_tokens(text, max_chars);
    if w == text {
        assert(words_view(words)[i] == word_view(words[i]));
    } else {
        lemma_map_start_token(text, w, 0, first);
        lemma_map_end_token(text, w, tokens(text).len() as int, last);
    }
}

/// The plain values of [`rewrap`]'s words.
pub open spec fn rewrap_words(text: Seq<char>, words: Seq<CaptionWord>, max_chars: u16) -> Seq<
    (u32, u32, u32, u32),
> {
    let w = wrap_spec(text, max_chars);
    if w == text || words.len() == 0 {
        words_view(words)
    } else if !same_tokens(text, w) {
        Seq::empty()
    } else {
        Seq::new(
            words.len(),
            |i: int|
                (
                    words[i].start_ms,
                    words[i].end_ms,
                    clamp_u32_spec(map_start_from(text, w, 0, words[i].range.start as int)),
                    clamp_u32_spec(
                        map_end_from(text, w, tokens(text).len() as int, words[i].range.end as int),
                    ),
                ),
        )
    }
}

/// Wrapping keeps the tokens, piece for piece.
pub proof fn lemma_wrap_same_tokens(text: Seq<char>, max_chars: u16)
    ensures
        same_tokens(text, wrap_spec(text, max_chars)),
{
    let w = wrap_spec(text, max_chars);
    law_wrap_keeps_words(text, max_chars);
    assert(tokens(text).len() == words_of(text).len());
    assert(tokens(w).len() == words_of(w).len());
    assert forall|k: int| 0 <= k < tokens(text).len() implies text.subrange(tokens(text)[k].0, tokens(text)[k].1)
        == w.subrange(#[trigger] tokens(w)[k].0, tokens(w)[k].1) by {
        assert(words_of(text)[k] == words_of(w)[k]);
    }
}

/// Re-wrapping never loses a timing: one word per word, each keeping its
/// start and end.
pub proof fn law_rewrap_keeps_timings(text: Seq<char>, words: Seq<CaptionWord>, max_chars: u16)
    ensures
        rewrap_words(text, words, max_chars).len() == words.len(),
        forall|i: int|
            0 <= i < words.len() ==> (#[trigger] rewrap_words(text, words, max_chars)[i]).0 == words[i].start_ms
                && rewrap_words(text, words, max_chars)[i].1 == words[i].end_ms,
{
    lemma_wrap_same_tokens(text, max_chars);
}

/// Whether two character vectors are equal.
fn chars_equal(a: &Vec<char>, b: &Vec<char>) -> (r: bool)
    ensures
        r == (a@ == b@),
{
    if a.len() != b.len() {
        return false;
    }
    let mut i: usize = 0;
    while i < a.len()
        invariant
            i <= a.len() == b.len(),
            forall|j: int| 0 <= j < i ==> a@[j] == b@[j],
        decreases a.len() - i,
    {
        if a[i] != b[i] {
            return false;
        }
        i += 1;
    }
    assert(a@ =~= b@);
    true
}

/// Whether `a[a0..a1]` and `b[b0..b1]` hold the same characters.
fn range_equal(a: &Vec<char>, a0: usize, a1: usize, b: &Vec<char>, b0: usize, b1: usize) -> (r: bool)
    requires
        a0 <= a1 <= a.len(),
        b0 <= b1 <= b.len(),
    ensures
        r == (a@.subrange(a0 as int, a1 as int) =~= b@.subrange(b0 as int, b1 as int)),
{
    let ghost x = a@.subrange(a0 as int, a1 as int);
    let ghost y = b@.subrange(b0 as int, b1 as int);
    if a1 - a0 != b1 - b0 {
        assert(x.len() != y.len());
        return false;
    }
    let mut i: usize = 0;
    while i < a1 - a0
        invariant
            a0 <= a1 <= a.len(),
            b0 <= b1 <= b.len(),
            a1 - a0 == b1 - b0,
            x == a@.subrange(a0 as int, a1 as int),
            y == b@.subrange(b0 as int, b1 as int),
            i <= a1 - a0,
            forall|j: int| 0 <= j < i ==> #[trigger] x[j] == y[j],
        decreases a1 - a0 - i,
    {
        if a[a0 + i] != b[b0 + i] {
            assert(x[i as int] != y[i as int]);
            return false;
        }
        i += 1;
    }
    assert(x =~= y);
    true
}

/// Whether the two token lists hold the same texts (`TokenMap::new`).
fn tokens_agree(a: &Vec<char>, ta: &Vec<Token>, b: &Vec<char>, tb: &Vec<Token>) -> (r: bool)
    requires
        tokens_match(a@, ta@, tokens(a@)),
        tokens_match(b@, tb@, tokens(b@)),
        tokens_ok(a@, tokens(a@), 0),
        tokens_ok(b@, tokens(b@), 0),
    ensures
        r == same_tokens(a@, b@),
{
    if ta.len() != tb.len() {
        return false;
    }
    let mut k: usize = 0;
    while k < ta.len()
        invariant
            tokens_match(a@, ta@, tokens(a@)),
            tokens_match(b@, tb@, tokens(b@)),
            tokens_ok(a@, tokens(a@), 0),
            tokens_ok(b@, tokens(b@), 0),
            ta@.len() == tb@.len(),
            k <= ta@.len(),
            forall|j: int|
                0 <= j < k ==> a@.subrange(tokens(a@)[j].0, tokens(a@)[j].1) == b@.subrange(
                    #[trigger] tokens(b@)[j].0,
                    tokens(b@)[j].1,
                ),
        decreases ta@.len() - k,
    {
        let x = ta[k];
        let y = tb[k];
        if !range_equal(a, x.first, x.last, b, y.first, y.last) {
            return false;
        }
        k += 1;
    }
    true
}

/// Paired tokens of texts with the same tokens span the same number of bytes,
/// and every token ends inside its text.
pub proof fn lemma_token_widths(a: Seq<char>, b: Seq<char>, k: int)
    requires
        same_tokens(a, b),
        tokens_ok(a, tokens(a), 0),
        tokens_ok(b, tokens(b), 0),
        0 <= k < tokens(a).len(),
    ensures
        byte_at(a, tokens(a)[k].1) - byte_at(a, tokens(a)[k].0) == byte_at(b, tokens(b)[k].1)
            - byte_at(b, tokens(b)[k].0),
        byte_at(a, tokens(a)[k].0) <= byte_at(a, tokens(a)[k].1) <= utf8_len(a),
        byte_at(b, tokens(b)[k].0) <= byte_at(b, tokens(b)[k].1) <= utf8_len(b),
{
    let ta = tokens(a);
    let tb = tokens(b);
    assert(a.subrange(ta[k].0, ta[k].1) == b.subrange(tb[k].0, tb[k].1));
    lemma_byte_at_mono(a, ta[k].0, ta[k].1);
    lemma_byte_at_mono(b, tb[k].0, tb[k].1);
    lemma_byte_at_mono(a, ta[k].1, a.len() as int);
    lemma_byte_at_mono(b, tb[k].1, b.len() as int);
    assert(a.take(a.len() as int) =~= a);
    assert(b.take(b.len() as int) =~= b);
}

/// [`map_start_from`] from the first pair (`TokenMap::start_of`).
fn map_start(a: &Vec<char>, ta: &Vec<Token>, b: &Vec<char>, tb: &Vec<Token>, index: usize) -> (r: usize)
    requires
        tokens_match(a@, ta@, tokens(a@)),
        tokens_match(b@, tb@, tokens(b@)),
        same_tokens(a@, b@),
        utf8_len(b@) <= usize::MAX,
        tokens_ok(a@, tokens(a@), 0),
        tokens_ok(b@, tokens(b@), 0),
    ensures
        r == map_start_from(a@, b@, 0, index as int),
{
    let mut k: usize = 0;
    while k < ta.len()
        invariant
            tokens_match(a@, ta@, tokens(a@)),
            tokens_match(b@, tb@, tokens(b@)),
            same_tokens(a@, b@),
            utf8_len(b@) <= usize::MAX,
            tokens_ok(a@, tokens(a@), 0),
            tokens_ok(b@, tokens(b@), 0),
            k <= ta@.len(),
            map_start_from(a@, b@, k as int, index as int) == map_start_from(a@, b@, 0, index as int),
        decreases ta@.len() - k,
    {
        let old = ta[k];
        let new = tb[k];
        if index <= old.start {
            return new.start;
        }
        if index < old.end {
            proof {
                lemma_token_widths(a@, b@, k as int);
            }
            return new.start + (index - old.start);
        }
        k += 1;
    }
    if ta.len() == 0 {
        0
    } else {
        tb[ta.len() - 1].end
    }
}

/// [`map_end_from`] from the last pair (`TokenMap::end_of`).
fn map_end(a: &Vec<char>, ta: &Vec<Token>, b: &Vec<char>, tb: &Vec<Token>, index: usize) -> (r: usize)
    requires
        tokens_match(a@, ta@, tokens(a@)),
        tokens_match(b@, tb@, tokens(b@)),
        same_tokens(a@, b@),
        utf8_len(b@) <= usize::MAX,
        tokens_ok(a@, tokens(a@), 0),
        tokens_ok(b@, tokens(b@), 0),
    ensures
        r == map_end_from(a@, b@, tokens(a@).len() as int, index as int),
{
    let mut k: usize = ta.len();
    while k > 0
        invariant
            tokens_match(a@, ta@, tokens(a@)),
            tokens_match(b@, tb@, tokens(b@)),
            same_tokens(a@, b@),
            utf8_len(b@) <= usize::MAX,
            tokens_ok(a@, tokens(a@), 0),
            tokens_ok(b@, tokens(b@), 0),
            k <= ta@.len(),
            map_end_from(a@, b@, k as int, index as int) == map_end_from(
                a@,
                b@,
                tokens(a@).len() as int,
                index as int,
            ),
        decreases k,
    {
        let old = ta[k - 1];
        let new = tb[k - 1];
        if index >= old.end {
            return new.end;
        }
        if index > old.start {
            proof {
                lemma_token_widths(a@, b@, k - 1);
            }
            return new.start + (index - old.start);
        }
        k -= 1;
    }
    if ta.len() == 0 {
        0
    } else {
        tb[0].start
    }
}

/// [`rewrap`] on characters.
pub fn rewrap_chars(v: &Vec<char>, words: &[CaptionWord], max_chars_per_line: u16) -> (r: (
    Vec<char>,
    Vec<CaptionWord>,
))
    requires
        utf8_len(v@) <= usize::MAX,
    ensures
        r.0@ == wrap_spec(v@, max_chars_per_line),
        utf8_len(r.0@) <= usize::MAX,
        words_view(r.1@) == rewrap_words(v@, words@, max_chars_per_line),
{
    let wrapped = wrap_chars(v, max_chars_per_line);
    // Re-read the wrapped text from a string so its byte length is known to
    // fit in memory.
    let w = chars_of(string_of(wrapped.as_slice()).as_str());
    if chars_equal(&w, v) || words.len() == 0 {
        let mut same: Vec<CaptionWord> = Vec::new();
        let mut i: usize = 0;
        while i < words.len()
            invariant
                i <= words@.len(),
                same@.len() == i,
                forall|j: int| 0 <= j < i ==> #[trigger] word_view(same@[j]) == word_view(words@[j]),
            decreases words@.len() - i,
        {
            same.push(words[i].copy());
            i += 1;
        }
        assert(words_view(same@) =~= words_view(words@));
        return (w, same);
    }
    let ta = tokenize(v);
    let tb = tokenize(&w);
    proof {
        lemma_tokens(v@);
        lemma_tokens(w@);
    }
    if !tokens_agree(v, &ta, &w, &tb) {
        return (w, Vec::new());
    }
    let mut remapped: Vec<CaptionWord> = Vec::new();
    let mut i: usize = 0;
    while i < words.len()
        invariant
            tokens_match(v@, ta@, tokens(v@)),
            tokens_match(w@, tb@, tokens(w@)),
            same_tokens(v@, w@),
            utf8_len(w@) <= usize::MAX,
            tokens_ok(v@, tokens(v@), 0),
            tokens_ok(w@, tokens(w@), 0),
            w@ == wrap_spec(v@, max_chars_per_line),
            i <= words@.len(),
            remapped@.len() == i,
            forall|j: int|
                0 <= j < i ==> #[trigger] word_view(remapped@[j]) == (
                    words@[j].start_ms,
                    words@[j].end_ms,
                    clamp_u32_spec(map_start_from(v@, w@, 0, words@[j].range.start as int)),
                    clamp_u32_spec(
                        map_end_from(v@, w@, tokens(v@).len() as int, words@[j].range.end as int),
                    ),
                ),
        decreases words@.len() - i,
    {
        let word = &words[i];
        let start = map_start(v, &ta, &w, &tb, word.range.start as usize);
        let end = map_end(v, &ta, &w, &tb, word.range.end as usize);
        remapped.push(
            CaptionWord {
                start_ms: word.start_ms,
                end_ms: word.end_ms,
                range: Range { start: clamp_u32(start), end: clamp_u32(end) },
            },
        );
        i += 1;
    }
    assert(words_view(remapped@) =~= rewrap_words(v@, words@, max_chars_per_line));
    (w, remapped)
}

/// Re-wrap a cue and carry its word timings across.
///
/// Wrapping only moves whitespace, so every word keeps its bytes and the
/// ranges are remapped exactly: inside a token by the same offset, from
/// whitespace to the next token's start (a range start) or the previous
/// token's end (a range end). When the wrapping changes nothing, or there are
/// no timings, the words come back as they were; if the tokens somehow did not
/// survive, the timings are dropped rather than left pointing at the wrong
/// bytes.
pub fn rewrap(text: &str, words: &[CaptionWord], max_chars_per_line: u16) -> (r: (
    String,
    Vec<CaptionWord>,
))
    ensures
        r.0@ == wrap_spec(text@, max_chars_per_line),
        words_view(r.1@) == rewrap_words(text@, words@, max_chars_per_line),
{
    let v = chars_of(text);
    let (wrapped, remapped) = rewrap_chars(&v, words, max_chars_per_line);
    (string_of(wrapped.as_slice()), remapped)
}

/// Byte offsets just past each newline of `s` at or after index `j`.
pub open spec fn newline_starts(s: Seq<char>, j: int) -> Seq<int>
    decreases s.len() - j,
{
    if j < 0 || j >= s.len() {
        Seq::empty()
    } else if s[j] == '\n' {
        seq![byte_at(s, j) as int + 1] + newline_starts(s, j + 1)
    } else {
        newline_starts(s, j + 1)
    }
}

/// Byte offset of every line's first character, the empty string's included.
pub open spec fn line_starts(s: Seq<char>) -> Seq<int> {
    seq![0int] + newline_starts(s, 0)
}

/// The first word at or after `j` whose range starts at or after byte `at`.
pub open spec fn skip_words(ts: Seq<(u32, u32, u32, u32)>, j: int, at: int) -> int
    decreases ts.len() - j,
{
    if 0 <= j < ts.len() && (ts[j].2 as int) < at {
        skip_words(ts, j + 1, at)
    } else {
        j
    }
}

/// The cuts for lines `idx..`, with the word cursor at `next` and the last
/// cut at `latest`: at every `max_lines`-th line, the start of the first word
/// on it, when that moves past the last cut.
pub open spec fn cuts_from(
    ts: Seq<(u32, u32, u32, u32)>,
    starts: Seq<int>,
    idx: int,
    next: int,
    latest: int,
    max_lines: int,
) -> Seq<u32>
    decreases starts.len() - idx,
{
    if idx < 0 || idx >= starts.len() {
        Seq::empty()
    } else {
        let n2 = skip_words(ts, next, starts[idx]);
        if idx == 0 || idx % max_lines != 0 {
            cuts_from(ts, starts, idx + 1, n2, latest, max_lines)
        } else if n2 < 0 || n2 >= ts.len() {
            Seq::empty()
        } else if ts[n2].0 > latest {
            seq![ts[n2].0] + cuts_from(ts, starts, idx + 1, n2, ts[n2].0 as int, max_lines)
        } else {
            cuts_from(ts, starts, idx + 1, n2, latest, max_lines)
        }
    }
}

/// Cuts all lie past `latest` and strictly ascend.
pub proof fn lemma_cuts_ascend(
    ts: Seq<(u32, u32, u32, u32)>,
    starts: Seq<int>,
    idx: int,
    next: int,
    latest: int,
    max_lines: int,
)
    ensures
        forall|i: int|
            0 <= i < cuts_from(ts, starts, idx, next, latest, max_lines).len() ==> #[trigger] cuts_from(
                ts,
                starts,
                idx,
                next,
                latest,
                max_lines,
            )[i] > latest,
        forall|i: int, j: int|
            0 <= i < j < cuts_from(ts, starts, idx, next, latest, max_lines).len() ==> cuts_from(
                ts,
                starts,
                idx,
                next,
                latest,
                max_lines,
            )[i] < cuts_from(ts, starts, idx, next, latest, max_lines)[j],
    decreases starts.len() - idx,
{
    let c = cuts_from(ts, starts, idx, next, latest, max_lines);
    if 0 <= idx < starts.len() {
        let n2 = skip_words(ts, next, starts[idx]);
        if idx == 0 || idx % max_lines != 0 {
            lemma_cuts_ascend(ts, starts, idx + 1, n2, latest, max_lines);
            assert(c == cuts_from(ts, starts, idx + 1, n2, latest, max_lines));
        } else if 0 <= n2 < ts.len() {
            if ts[n2].0 > latest {
                let l2 = ts[n2].0 as int;
                lemma_cuts_ascend(ts, starts, idx + 1, n2, l2, max_lines);
                let rest = cuts_from(ts, starts, idx + 1, n2, l2, max_lines);
                assert(c == seq![ts[n2].0] + rest);
                assert forall|i: int| 0 <= i < c.len() implies #[trigger] c[i] > latest by {
                    if i > 0 {
                        assert(c[i] == rest[i - 1]);
                    }
                }
                assert forall|i: int, j: int| 0 <= i < j < c.len() implies c[i] < c[j] by {
                    if i > 0 {
                        assert(c[i] == rest[i - 1]);
                    }
                    assert(c[j] == rest[j - 1]);
                }
            } else {
                lemma_cuts_ascend(ts, starts, idx + 1, n2, latest, max_lines);
                assert(c == cuts_from(ts, starts, idx + 1, n2, latest, max_lines));
            }
        } else {
            assert(c.len() == 0);
        }
    } else {
        assert(c.len() == 0);
    }
}

/// Where [`overflow_cuts`] cuts a cue, in clip-relative milliseconds.
pub open spec fn overflow_spec(
    text: Seq<char>,
    words: Seq<CaptionWord>,
    duration_ms: u32,
    layout: CaptionLayout,
) -> Seq<u32> {
    let max_lines: int = if layout.max_lines == 0 { 1 } else { layout.max_lines as int };
    let w = wrap_spec(text, layout.max_chars_per_line);
    let remapped = rewrap_words(text, words, layout.max_chars_per_line);
    let timings = if remapped.len() == 0 {
        estimate_spec(w, 0, duration_ms)
    } else {
        remapped
    };
    if timings.len() == 0 {
        Seq::empty()
    } else {
        cuts_from(timings, line_starts(w), 0, 0, 0, max_lines)
    }
}

/// Byte offsets where the lines of `v` begin.
fn line_start_offsets(v: &Vec<char>) -> (out: Vec<usize>)
    requires
        utf8_len(v@) <= usize::MAX,
    ensures
        out@.len() == line_starts(v@).len(),
        forall|i: int| 0 <= i < out@.len() ==> #[trigger] out@[i] == line_starts(v@)[i],
{
    let mut out: Vec<usize> = Vec::new();
    out.push(0);
    let mut byte: usize = 0;
    let mut j: usize = 0;
    proof {
        assert(v@.take(0) =~= Seq::<char>::empty());
    }
    while j < v.len()
        invariant
            j <= v.len(),
            utf8_len(v@) <= usize::MAX,
            byte == byte_at(v@, j as int),
            out@.len() + newline_starts(v@, j as int).len() == line_starts(v@).len(),
            forall|i: int| 0 <= i < out@.len() ==> #[trigger] out@[i] == line_starts(v@)[i],
            forall|i: int|
                0 <= i < newline_starts(v@, j as int).len() ==> #[trigger] newline_starts(
                    v@,
                    j as int,
                )[i] == line_starts(v@)[out@.len() + i],
        decreases v.len() - j,
    {
        proof {
            lemma_byte_at_next(v@, j as int);
            lemma_byte_at_mono(v@, j as int + 1, v.len() as int);
            assert(v@.take(v.len() as int) =~= v@);
        }
        let c = v[j];
        let width = char_len_utf8(c);
        if c == '\n' {
            let ghost rest = newline_starts(v@, j as int + 1);
            proof {
                assert(newline_starts(v@, j as int)[0] == byte + 1);
                assert forall|i: int| 0 <= i < rest.len() implies #[trigger] rest[i]
                    == line_starts(v@)[out@.len() + 1 + i] by {
                    assert(newline_starts(v@, j as int)[i + 1] == rest[i]);
                }
            }
            out.push(byte + 1);
        }
        byte = byte + width;
        j = j + 1;
    }
    out
}

/// Where a cue has to be cut to respect a layout's line budget.
///
/// `max_chars_per_line` decides where the lines fall and `max_lines` how many
/// of them one cue may hold: text past the budget is more cues. Returns the
/// clip-relative millisecond offsets where the spill starts, strictly
/// ascending, empty when the cue already fits.
///
/// Cuts land on word boundaries, taken from the cue's own timings carried
/// through the re-wrap. A cue without any is cut on the length-weighted
/// estimate spread across `duration_ms`.
pub fn overflow_cuts(text: &str, words: &[CaptionWord], duration_ms: u32, layout: &CaptionLayout) -> (cuts: Vec<u32>)
    ensures
        cuts@ == overflow_spec(text@, words@, duration_ms, *layout),
        forall|i: int, j: int| 0 <= i < j < cuts@.len() ==> cuts@[i] < cuts@[j],
{
    let max_lines: usize = if layout.max_lines == 0 {
        1
    } else {
        layout.max_lines as usize
    };
    let v = chars_of(text);
    let (wrapped, remapped) = rewrap_chars(&v, words, layout.max_chars_per_line);
    let timings = if remapped.len() == 0 {
        estimate_chars(&wrapped, 0, duration_ms)
    } else {
        remapped
    };
    let ghost tv = words_view(timings@);
    assert(tv.len() == timings@.len());
    proof {
        let w = wrap_spec(text@, layout.max_chars_per_line);
        let r = rewrap_words(text@, words@, layout.max_chars_per_line);
        assert(wrapped@ == w);
        if remapped@.len() == 0 {
            assert(r.len() == 0);
            assert(tv == estimate_spec(w, 0, duration_ms));
        } else {
            assert(r.len() != 0);
            assert(tv == r);
        }
    }
    let mut cuts: Vec<u32> = Vec::new();
    if timings.len() == 0 {
        return cuts;
    }
    let starts = line_start_offsets(&wrapped);
    let ghost ls = line_starts(wrapped@);
    let mut latest: u32 = 0;
    let mut next_word: usize = 0;
    let mut index: usize = 0;
    let mut done = false;
    while index < starts.len() && !done
        invariant
            done ==> cuts@ == cuts_from(tv, ls, 0, 0, 0, max_lines as int),
            tv == words_view(timings@),
            tv.len() == timings@.len(),
            starts@.len() == ls.len(),
            forall|i: int| 0 <= i < starts@.len() ==> #[trigger] starts@[i] == ls[i],
            index <= starts@.len(),
            next_word <= timings@.len(),
            max_lines >= 1,
            cuts@ + cuts_from(tv, ls, index as int, next_word as int, latest as int, max_lines as int)
                == cuts_from(tv, ls, 0, 0, 0, max_lines as int),
        decreases starts@.len() - index + (if done { 0int } else { 1int }),
    {
        let line_start = starts[index];
        let ghost n0 = next_word;
        while next_word < timings.len() && (timings[next_word].range.start as usize) < line_start
            invariant
                tv == words_view(timings@),
                tv.len() == timings@.len(),
                n0 <= next_word <= timings@.len(),
                skip_words(tv, n0 as int, line_start as int) == skip_words(
                    tv,
                    next_word as int,
                    line_start as int,
                ),
            decreases timings@.len() - next_word,
        {
            proof {
                assert(tv[next_word as int] == word_view(timings@[next_word as int]));
            }
            next_word += 1;
        }
        proof {
            if next_word < timings.len() {
                assert(tv[next_word as int] == word_view(timings@[next_word as int]));
            }
            assert(skip_words(tv, next_word as int, line_start as int) == next_word);
        }
        if index == 0 || index % max_lines != 0 {
            index += 1;
        } else if next_word >= timings.len() {
            proof {
                assert(cuts@ =~= cuts_from(tv, ls, 0, 0, 0, max_lines as int));
            }
            done = true;
        } else {
            let start = timings[next_word].start_ms;
            proof {
                assert(tv[next_word as int] == word_view(timings@[next_word as int]));
            }
            if start > latest {
                cuts.push(start);
                latest = start;
                proof {
                    assert(cuts@ + cuts_from(tv, ls, index as int + 1, next_word as int, latest as int, max_lines as int)
                        =~= cuts_from(tv, ls, 0, 0, 0, max_lines as int));
                }
            }
            index += 1;
        }
    }
    proof {
        if !done {
            assert(cuts@ + Seq::<u32>::empty() =~= cuts@);
        }
        assert(cuts@ == cuts_from(tv, ls, 0, 0, 0, max_lines as int));
        lemma_cuts_ascend(tv, ls, 0, 0, 0, max_lines as int);
    }
    cuts
}

} // verus!
