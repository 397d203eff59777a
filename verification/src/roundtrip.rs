//! Writing cues as a SubRip or WebVTT file and reading the file back gives
//! the same cues, for cue texts that carry nothing the reader would strip or
//! split.

use vstd::prelude::*;

use crate::format::{
    dec, decode_entities_spec, find_arrow, has_arrow, joined, lemma_dec, lemma_find_arrow, lemma_find_open_at,
    lemma_next_blank, lemma_timestamp_text_chars, lines_of, next_blank, numbered_lines_spec, lead_bom, plain_digit_char,
    prepend_cues, scan_from, split_on, strip_cr, strip_markup_spec, strip_tags, timestamp_text, cues_spec, timing_spec,
    timing_halves, find_ws, lemma_find_ws_at, lemma_timestamp_round_trip, is_metadata,
    keyword, keyword_match,
};
use crate::srt::{cue_block, cue_blocks, max_u32, spec_parse_srt, srt_text};
use crate::vtt::{first_nonblank, is_header, spec_parse_vtt, vtt_text, webvtt};
use crate::caption::group::CaptionFileFormat;
use crate::subtitle::{spec_detect_format, spec_parse_subtitles};
use crate::format::starts_with;
use crate::text::{find_from, is_blank, is_ws, lead_ws, lemma_find_from, lemma_lead_ws_bound, lemma_trail_ws_bound, trail_ws, trim, trim_start};

verus! {

/// Pieces joined with `sep` between them: what `split_on` undoes.
pub open spec fn join_on(ps: Seq<Seq<char>>, sep: char) -> Seq<char>
    decreases ps.len(),
{
    if ps.len() == 0 {
        Seq::empty()
    } else if ps.len() == 1 {
        ps[0]
    } else {
        join_on(ps.drop_last(), sep) + seq![sep] + ps.last()
    }
}

/// The first `c` at or after `i` is at `k`.
proof fn lemma_find_from_at(s: Seq<char>, i: int, k: int, c: char)
    requires
        0 <= i <= k <= s.len(),
        forall|j: int| i <= j < k ==> s[j] != c,
        k < s.len() ==> s[k] == c,
    ensures
        find_from(s, i, c) == k,
    decreases k - i,
{
    if i < k {
        lemma_find_from_at(s, i + 1, k, c);
    }
}

/// Text without `sep` is one piece.
proof fn lemma_split_single(s: Seq<char>, sep: char)
    requires
        forall|j: int| 0 <= j < s.len() ==> s[j] != sep,
    ensures
        split_on(s, sep) == seq![s],
{
    lemma_find_from_at(s, 0, s.len() as int, sep);
}

/// Splitting text with a separator in it splits each side.
proof fn lemma_split_join(a: Seq<char>, b: Seq<char>, sep: char)
    ensures
        split_on(a + seq![sep] + b, sep) == split_on(a, sep) + split_on(b, sep),
    decreases a.len(),
{
    let s = a + seq![sep] + b;
    lemma_find_from(a, 0, sep);
    let k = find_from(a, 0, sep);
    if k < a.len() {
        lemma_find_from_at(s, 0, k, sep);
        let rest = a.skip(k + 1);
        assert(s.take(k) =~= a.take(k));
        assert(s.skip(k + 1) =~= rest + seq![sep] + b);
        lemma_split_join(rest, b, sep);
        assert(split_on(a, sep) == seq![a.take(k)] + split_on(rest, sep));
        assert(split_on(s, sep) == seq![a.take(k)] + split_on(rest + seq![sep] + b, sep));
        assert(split_on(s, sep) =~= split_on(a, sep) + split_on(b, sep));
    } else {
        lemma_find_from_at(s, 0, a.len() as int, sep);
        assert(s.take(a.len() as int) =~= a);
        assert(s.skip(a.len() as int + 1) =~= b);
        assert(split_on(a, sep) == seq![a]);
        assert(split_on(s, sep) =~= split_on(a, sep) + split_on(b, sep));
    }
}

/// The pieces of a split are never fewer than one.
proof fn lemma_split_len(s: Seq<char>, sep: char)
    ensures
        split_on(s, sep).len() >= 1,
    decreases s.len(),
{
    lemma_find_from(s, 0, sep);
    let k = find_from(s, 0, sep);
    if k < s.len() {
        lemma_split_len(s.skip(k + 1), sep);
    }
}

/// Joining a piece in front of others puts a separator between.
proof fn lemma_join_front(x: Seq<char>, ps: Seq<Seq<char>>, sep: char)
    requires
        ps.len() >= 1,
    ensures
        join_on(seq![x] + ps, sep) == x + seq![sep] + join_on(ps, sep),
    decreases ps.len(),
{
    let xs = seq![x] + ps;
    if ps.len() == 1 {
        assert(xs.drop_last() =~= seq![x]);
        assert(join_on(xs, sep) == join_on(xs.drop_last(), sep) + seq![sep] + xs.last());
    } else {
        assert(xs.drop_last() =~= seq![x] + ps.drop_last());
        lemma_join_front(x, ps.drop_last(), sep);
        assert(join_on(xs, sep) == join_on(xs.drop_last(), sep) + seq![sep] + xs.last());
        assert(join_on(ps, sep) == join_on(ps.drop_last(), sep) + seq![sep] + ps.last());
        assert(join_on(xs, sep) =~= x + seq![sep] + join_on(ps, sep));
    }
}

/// Joining the pieces of a split gives the text back.
proof fn lemma_join_split(s: Seq<char>, sep: char)
    ensures
        join_on(split_on(s, sep), sep) == s,
    decreases s.len(),
{
    lemma_find_from(s, 0, sep);
    let k = find_from(s, 0, sep);
    if k < s.len() {
        let rest = s.skip(k + 1);
        lemma_join_split(rest, sep);
        lemma_split_len(rest, sep);
        lemma_join_front(s.take(k), split_on(rest, sep), sep);
        assert(s =~= s.take(k) + seq![sep] + rest);
    }
}

// --- what a written file holds --------------------------------------------

/// A text line the reader gives back as written: not blank, and without
/// whitespace at either end.
pub open spec fn plain_line(l: Seq<char>) -> bool {
    !is_blank(l) && trim(l) == l
}

/// A cue text a SubRip file gives back as written: each of its lines is
/// plain, and it holds none of the characters markup starts with (`<`, `{`,
/// `&`).
pub open spec fn plain_text(t: Seq<char>) -> bool {
    &&& forall|i: int| 0 <= i < t.len() ==> #[trigger] t[i] != '<' && t[i] != '{' && t[i] != '&'
    &&& forall|k: int| 0 <= k < split_on(t, '\n').len() ==> plain_line(#[trigger] split_on(t, '\n')[k])
}

/// The timing line of a written cue.
pub open spec fn timing_line(cue: (u32, u32, Seq<char>), sep: char) -> Seq<char> {
    timestamp_text(cue.0 as nat, sep) + seq![' ', '-', '-', '>', ' '] + timestamp_text(
        max_u32(cue.1, cue.0) as nat,
        sep,
    )
}

/// The lines of written cue number `n`: its number, its timing, its text,
/// and the blank line after it.
pub open spec fn block_lines(n: nat, cue: (u32, u32, Seq<char>), sep: char) -> Seq<Seq<char>> {
    seq![dec(n), timing_line(cue, sep)] + split_on(cue.2, '\n') + seq![Seq::<char>::empty()]
}

/// The lines of a written file.
pub open spec fn written_lines(cues: Seq<(u32, u32, Seq<char>)>, sep: char) -> Seq<Seq<char>>
    decreases cues.len(),
{
    if cues.len() == 0 {
        Seq::empty()
    } else {
        written_lines(cues.drop_last(), sep) + block_lines(cues.len() as nat, cues.last(), sep)
    }
}

/// A plain line starts and ends with a character that is not whitespace.
proof fn lemma_plain_line_ends(l: Seq<char>)
    requires
        plain_line(l),
    ensures
        l.len() > 0,
        !is_ws(l[0]),
        !is_ws(l.last()),
{
    lemma_lead_ws_bound(l);
    let ts = trim_start(l);
    lemma_trail_ws_bound(ts);
    if l.len() == 0 {
        assert(is_blank(l));
    }
    if is_ws(l[0]) {
        assert(lead_ws(l) >= 1);
        assert(trim(l).len() <= ts.len() < l.len());
    }
    assert(lead_ws(l) == 0);
    assert(ts =~= l);
    if is_ws(l.last()) {
        assert(trail_ws(l) >= 1);
        assert(trim(l).len() < l.len());
    }
}

/// Text whose ends are not whitespace is its own trim.
proof fn lemma_trim_core(s: Seq<char>)
    requires
        s.len() > 0,
        !is_ws(s[0]),
        !is_ws(s.last()),
    ensures
        trim(s) == s,
{
    assert(lead_ws(s) == 0);
    assert(trim_start(s) =~= s);
    assert(trail_ws(s) == 0);
    assert(trim(s) =~= s);
}

/// The first piece of a split is a prefix of the text, the last a suffix.
proof fn lemma_split_ends(s: Seq<char>, sep: char)
    ensures
        split_on(s, sep).len() >= 1,
        split_on(s, sep)[0] == s.take(split_on(s, sep)[0].len() as int),
        split_on(s, sep).last() == s.skip(s.len() - split_on(s, sep).last().len()),
        split_on(s, sep)[0].len() <= s.len(),
        split_on(s, sep).last().len() <= s.len(),
    decreases s.len(),
{
    lemma_find_from(s, 0, sep);
    let k = find_from(s, 0, sep);
    lemma_split_len(s, sep);
    if k < s.len() {
        let rest = s.skip(k + 1);
        lemma_split_ends(rest, sep);
        let ps = split_on(s, sep);
        assert(ps == seq![s.take(k)] + split_on(rest, sep));
        assert(ps[0] == s.take(k));
        assert(ps.last() == split_on(rest, sep).last());
        assert(ps.last() =~= s.skip(s.len() - ps.last().len()));
    } else {
        assert(s.take(s.len() as int) =~= s);
        assert(s.skip(0) =~= s);
    }
}

/// A plain text is not blank and is its own trim.
proof fn lemma_plain_text_trim(t: Seq<char>)
    requires
        plain_text(t),
    ensures
        trim(t) == t,
        !is_blank(t),
        t.len() > 0,
{
    lemma_split_ends(t, '\n');
    let ps = split_on(t, '\n');
    let first = ps[0];
    let last = ps.last();
    assert(plain_line(ps[0]));
    assert(plain_line(ps[ps.len() - 1]));
    lemma_plain_line_ends(first);
    lemma_plain_line_ends(last);
    assert(t[0] == first[0]);
    assert(t.last() == last.last());
    lemma_trim_core(t);
}

/// A number's digits hold no line break.
proof fn lemma_dec_no_break(n: nat)
    ensures
        dec(n).len() >= 1,
        forall|j: int| 0 <= j < dec(n).len() ==> #[trigger] dec(n)[j] != '\n' && !is_ws(dec(n)[j]) && dec(n)[j] != '-',
{
    lemma_dec(n);
    assert forall|j: int| 0 <= j < dec(n).len() implies #[trigger] dec(n)[j] != '\n' && !is_ws(dec(n)[j]) && dec(n)[j]
        != '-' by {
        assert(plain_digit_char(dec(n)[j]));
    }
}

/// The characters of a timing line.
proof fn lemma_timing_chars(cue: (u32, u32, Seq<char>), sep: char)
    requires
        sep == ',' || sep == '.',
    ensures
        forall|j: int|
            0 <= j < timing_line(cue, sep).len() ==> #[trigger] timing_line(cue, sep)[j] != '\n',
        timing_line(cue, sep).len() > 0,
        !is_ws(timing_line(cue, sep).last()),
{
    let a = timestamp_text(cue.0 as nat, sep);
    let b = timestamp_text(max_u32(cue.1, cue.0) as nat, sep);
    lemma_timestamp_text_chars(cue.0 as nat, sep);
    lemma_timestamp_text_chars(max_u32(cue.1, cue.0) as nat, sep);
    let t = timing_line(cue, sep);
    assert forall|j: int| 0 <= j < t.len() implies #[trigger] t[j] != '\n' by {
        if j < a.len() {
            assert(t[j] == a[j]);
            assert(plain_digit_char(a[j]) || a[j] == ':' || a[j] == sep);
        } else if j < a.len() + 5 {
        } else {
            assert(t[j] == b[j - a.len() - 5]);
            assert(plain_digit_char(b[j - a.len() - 5]) || b[j - a.len() - 5] == ':' || b[j - a.len() - 5] == sep);
        }
    }
    assert(t.last() == b.last());
}

/// The lines of one written cue, and the empty piece after its last break.
#[verifier::rlimit(40)]
#[verifier::spinoff_prover]
proof fn lemma_block_split(n: nat, cue: (u32, u32, Seq<char>), sep: char)
    requires
        plain_text(cue.2),
        sep == ',' || sep == '.',
    ensures
        split_on(cue_block(n, cue, sep), '\n') == block_lines(n, cue, sep).push(Seq::<char>::empty()),
{
    let t = cue.2;
    lemma_plain_text_trim(t);
    let e = Seq::<char>::empty();
    let nl = seq!['\n'];
    let tl = timing_line(cue, sep);
    let x3 = e + nl + e;
    let x2 = t + nl + x3;
    let x1 = tl + nl + x2;
    let x0 = dec(n) + nl + x1;
    assert(cue_block(n, cue, sep) =~= x0);
    lemma_split_single(e, '\n');
    lemma_split_join(e, e, '\n');
    lemma_split_join(t, x3, '\n');
    lemma_timing_chars(cue, sep);
    lemma_split_single(tl, '\n');
    lemma_split_join(tl, x2, '\n');
    lemma_dec_no_break(n);
    lemma_split_single(dec(n), '\n');
    lemma_split_join(dec(n), x1, '\n');
    assert(split_on(x0, '\n') =~= block_lines(n, cue, sep).push(e));
}

/// A written file ends with a line break, unless it is empty.
proof fn lemma_blocks_end(cues: Seq<(u32, u32, Seq<char>)>, sep: char)
    requires
        cues.len() > 0,
    ensures
        cue_blocks(cues, sep).len() > 0,
        cue_blocks(cues, sep).last() == '\n',
{
}

/// The pieces of a written file are its lines and an empty piece after the
/// final break.
proof fn lemma_file_split(cues: Seq<(u32, u32, Seq<char>)>, sep: char)
    requires
        forall|i: int| 0 <= i < cues.len() ==> plain_text(#[trigger] cues[i].2),
        sep == ',' || sep == '.',
    ensures
        split_on(cue_blocks(cues, sep), '\n') == written_lines(cues, sep).push(Seq::<char>::empty()),
    decreases cues.len(),
{
    let e = Seq::<char>::empty();
    if cues.len() == 0 {
        lemma_split_single(e, '\n');
        assert(cue_blocks(cues, sep) =~= e);
        assert(written_lines(cues, sep) =~= Seq::<Seq<char>>::empty());
        assert(Seq::<Seq<char>>::empty().push(e) =~= seq![e]);
    } else {
        let init = cues.drop_last();
        assert forall|i: int| 0 <= i < init.len() implies plain_text(#[trigger] init[i].2) by {
            assert(init[i] == cues[i]);
        }
        lemma_file_split(init, sep);
        let p = cue_blocks(init, sep);
        let b = cue_block(cues.len() as nat, cues.last(), sep);
        lemma_block_split(cues.len() as nat, cues.last(), sep);
        assert(cue_blocks(cues, sep) == p + b);
        if init.len() == 0 {
            assert(p =~= e);
            assert(p + b =~= b);
            assert(written_lines(init, sep) =~= Seq::<Seq<char>>::empty());
            assert(written_lines(cues, sep) =~= block_lines(cues.len() as nat, cues.last(), sep));
        } else {
            lemma_blocks_end(init, sep);
            let q = p.drop_last();
            assert(p =~= q + seq!['\n'] + e);
            assert(p + b =~= q + seq!['\n'] + b);
            lemma_split_join(q, e, '\n');
            lemma_split_join(q, b, '\n');
            lemma_split_single(e, '\n');
            let wq = split_on(q, '\n');
            assert(wq.push(e) =~= written_lines(init, sep).push(e));
            assert(wq =~= wq.push(e).drop_last());
            assert(wq =~= written_lines(init, sep));
            assert(split_on(p + b, '\n') =~= written_lines(cues, sep).push(e));
        }
    }
}

/// A line that is empty or ends in something other than whitespace (so no
/// `\r` for the reader to drop).
pub open spec fn line_end_ok(l: Seq<char>) -> bool {
    l.len() == 0 || !is_ws(l.last())
}

/// Writing one more cue appends its lines.
proof fn lemma_written_step(cues: Seq<(u32, u32, Seq<char>)>, b: int, sep: char)
    requires
        0 <= b < cues.len(),
    ensures
        written_lines(cues.take(b + 1), sep) == written_lines(cues.take(b), sep) + block_lines(
            (b + 1) as nat,
            cues[b],
            sep,
        ),
{
    let c = cues.take(b + 1);
    assert(c.drop_last() =~= cues.take(b));
    assert(c.last() == cues[b]);
}

/// The lines of the first `b` cues begin the lines of them all.
proof fn lemma_written_prefix(cues: Seq<(u32, u32, Seq<char>)>, b: int, sep: char)
    requires
        0 <= b <= cues.len(),
    ensures
        written_lines(cues.take(b), sep).len() <= written_lines(cues, sep).len(),
        forall|i: int|
            0 <= i < written_lines(cues.take(b), sep).len() ==> #[trigger] written_lines(cues, sep)[i]
                == written_lines(cues.take(b), sep)[i],
    decreases cues.len(),
{
    if b == cues.len() {
        assert(cues.take(b) =~= cues);
    } else {
        let init = cues.drop_last();
        assert(init.take(b) =~= cues.take(b));
        lemma_written_prefix(init, b, sep);
    }
}

/// Every written line is empty or ends in something other than whitespace.
proof fn lemma_written_ends(cues: Seq<(u32, u32, Seq<char>)>, sep: char)
    requires
        forall|i: int| 0 <= i < cues.len() ==> plain_text(#[trigger] cues[i].2),
        sep == ',' || sep == '.',
    ensures
        forall|i: int| 0 <= i < written_lines(cues, sep).len() ==> line_end_ok(#[trigger] written_lines(cues, sep)[i]),
    decreases cues.len(),
{
    if cues.len() > 0 {
        let init = cues.drop_last();
        assert forall|i: int| 0 <= i < init.len() implies plain_text(#[trigger] init[i].2) by {
            assert(init[i] == cues[i]);
        }
        lemma_written_ends(init, sep);
        let n = cues.len() as nat;
        let cue = cues.last();
        assert(plain_text(cues[cues.len() - 1].2));
        let bl = block_lines(n, cue, sep);
        let ps = split_on(cue.2, '\n');
        lemma_dec_no_break(n);
        lemma_timing_chars(cue, sep);
        assert forall|j: int| 0 <= j < bl.len() implies line_end_ok(#[trigger] bl[j]) by {
            if j == 0 {
                assert(bl[0] == dec(n));
                assert(!is_ws(dec(n)[dec(n).len() - 1]));
            } else if j == 1 {
            } else if j < 2 + ps.len() {
                assert(bl[j] == ps[j - 2]);
                assert(plain_line(ps[j - 2]));
                lemma_plain_line_ends(ps[j - 2]);
            } else {
                assert(bl[j] == Seq::<char>::empty());
            }
        }
        let w = written_lines(cues, sep);
        let wi = written_lines(init, sep);
        assert(w == wi + bl);
        assert forall|i: int| 0 <= i < w.len() implies line_end_ok(#[trigger] w[i]) by {
            if i < wi.len() {
                assert(w[i] == wi[i]);
            } else {
                assert(w[i] == bl[i - wi.len()]);
            }
        }
    }
}

/// The numbered lines a reader sees in a written file.
pub open spec fn numbered(w: Seq<Seq<char>>) -> Seq<(nat, Seq<char>)> {
    Seq::new(w.len(), |i: int| ((i + 1) as nat, w[i]))
}

/// A written file reads as its written lines, numbered from one.
proof fn lemma_file_lines(cues: Seq<(u32, u32, Seq<char>)>, sep: char)
    requires
        forall|i: int| 0 <= i < cues.len() ==> plain_text(#[trigger] cues[i].2),
        sep == ',' || sep == '.',
    ensures
        numbered_lines_spec(cue_blocks(cues, sep)) == numbered(written_lines(cues, sep)),
{
    let text = cue_blocks(cues, sep);
    let w = written_lines(cues, sep);
    let e = Seq::<char>::empty();
    lemma_file_split(cues, sep);
    lemma_written_ends(cues, sep);
    let parts = split_on(text, '\n');
    assert(parts == w.push(e));
    if text.len() > 0 && text[0] == '\u{feff}' {
        lemma_split_ends(text, '\n');
        if cues.len() == 0 {
            assert(text =~= e);
        }
        lemma_written_step(cues, 0, sep);
        lemma_written_prefix(cues, 1, sep);
        assert(cues.take(0) =~= Seq::<(u32, u32, Seq<char>)>::empty());
        assert(written_lines(cues.take(0), sep) =~= Seq::<Seq<char>>::empty());
        assert(written_lines(cues.take(1), sep)[0] == dec(1));
        assert(w[0] == dec(1));
        assert(parts[0] == dec(1));
        lemma_dec_no_break(1);
        assert(text[0] == dec(1)[0]);
        lemma_dec(1);
        assert(plain_digit_char(dec(1)[0]));
    }
    assert(lead_bom(text) == 0);
    assert(text.skip(0) =~= text);
    let lines = lines_of(text);
    assert forall|i: int| 0 <= i < w.len() implies strip_cr(#[trigger] w[i]) == w[i] by {
        assert(line_end_ok(w[i]));
    }
    assert(lines =~= w);
    assert(numbered_lines_spec(text) =~= numbered(w));
}

// --- reading it back -------------------------------------------------------

/// A line without `-` holds no arrow.
proof fn lemma_no_arrow(s: Seq<char>)
    requires
        forall|j: int| 0 <= j < s.len() ==> s[j] != '-',
    ensures
        !has_arrow(s),
{
    lemma_find_arrow(s, 0);
}

/// The first arrow at or after `i` starts at `k`.
proof fn lemma_find_arrow_at(s: Seq<char>, i: int, k: int)
    requires
        0 <= i <= k,
        k + 3 <= s.len(),
        s[k] == '-' && s[k + 1] == '-' && s[k + 2] == '>',
        forall|j: int| i <= j < k ==> s[j] != '-',
    ensures
        find_arrow(s, i) == k,
    decreases k - i,
{
    if i < k {
        lemma_find_arrow_at(s, i + 1, k);
    }
}

/// The first blank line at or after `j` is line `k`.
proof fn lemma_next_blank_at(lines: Seq<(nat, Seq<char>)>, j: int, k: int)
    requires
        0 <= j <= k < lines.len(),
        forall|x: int| j <= x < k ==> !is_blank(#[trigger] lines[x].1),
        is_blank(lines[k].1),
    ensures
        next_blank(lines, j) == k,
    decreases k - j,
{
    if j < k {
        lemma_next_blank_at(lines, j + 1, k);
    }
}

/// Trimmed lines joined back with breaks.
proof fn lemma_joined(lines: Seq<(nat, Seq<char>)>, j: int, ps: Seq<Seq<char>>)
    requires
        0 <= j,
        j + ps.len() <= lines.len(),
        forall|x: int| 0 <= x < ps.len() ==> #[trigger] lines[j + x].1 == ps[x] && trim(ps[x]) == ps[x],
    ensures
        joined(lines, j, j + ps.len()) == join_on(ps, '\n'),
    decreases ps.len(),
{
    if ps.len() >= 2 {
        let init = ps.drop_last();
        assert forall|x: int| 0 <= x < init.len() implies #[trigger] lines[j + x].1 == init[x] && trim(init[x])
            == init[x] by {
            assert(lines[j + x].1 == ps[x]);
        }
        lemma_joined(lines, j, init);
        let m = ps.len() as int;
        assert(lines[j + (m - 1)].1 == ps[m - 1]);
        assert(joined(lines, j, j + m) == joined(lines, j, j + m - 1) + seq!['\n'] + trim(lines[j + m - 1].1));
    } else if ps.len() == 1 {
        assert(lines[j + 0].1 == ps[0]);
    }
}

/// Text with no markup characters reads as written.
proof fn lemma_no_markup(t: Seq<char>)
    requires
        forall|i: int| 0 <= i < t.len() ==> #[trigger] t[i] != '<' && t[i] != '{' && t[i] != '&',
    ensures
        strip_markup_spec(t) == t,
{
    lemma_find_open_at(t, 0, t.len() as int);
    assert(strip_tags(t) == t);
    lemma_find_from(t, 0, '&');
    assert(decode_entities_spec(t) == t);
}

/// Where the lines of cue `b` start in a written file.
pub open spec fn block_start(cues: Seq<(u32, u32, Seq<char>)>, b: int, sep: char) -> int {
    written_lines(cues.take(b), sep).len() as int
}

/// The cue blocks a reader finds from cue `b` on, in a file whose cue
/// lines follow `shift` other lines: the timing line's number, the timing
/// line, and the text.
pub open spec fn raw_from(cues: Seq<(u32, u32, Seq<char>)>, b: int, sep: char, shift: int) -> Seq<
    (nat, Seq<char>, Seq<char>),
> {
    Seq::new(
        (cues.len() - b) as nat,
        |j: int| ((shift + block_start(cues, b + j, sep) + 2) as nat, timing_line(cues[b + j], sep), cues[b + j].2),
    )
}

/// The timing line has its arrow right after the start time.
proof fn lemma_timing_arrow(cue: (u32, u32, Seq<char>), sep: char)
    requires
        sep == ',' || sep == '.',
    ensures
        find_arrow(timing_line(cue, sep), 0) == timestamp_text(cue.0 as nat, sep).len() + 1,
        has_arrow(timing_line(cue, sep)),
{
    let a = timestamp_text(cue.0 as nat, sep);
    let t = timing_line(cue, sep);
    lemma_timestamp_text_chars(cue.0 as nat, sep);
    assert forall|j: int| 0 <= j < a.len() + 1 implies t[j] != '-' by {
        if j < a.len() {
            assert(t[j] == a[j]);
            assert(plain_digit_char(a[j]) || a[j] == ':' || a[j] == sep);
        }
    }
    lemma_find_arrow_at(t, 0, a.len() as int + 1);
}

/// The lines of cue `b` in the numbered lines of a written file whose cue
/// lines follow the lines `pre`.
proof fn lemma_block_view(cues: Seq<(u32, u32, Seq<char>)>, b: int, sep: char, pre: Seq<Seq<char>>)
    requires
        0 <= b < cues.len(),
    ensures
        ({
            let nl = numbered(pre + written_lines(cues, sep));
            let i = pre.len() + block_start(cues, b, sep);
            let ps = split_on(cues[b].2, '\n');
            let m = ps.len() as int;
            &&& 0 <= i
            &&& i + 3 + m <= nl.len()
            &&& pre.len() + block_start(cues, b + 1, sep) == i + 3 + m
            &&& nl[i].1 == dec((b + 1) as nat)
            &&& nl[i + 1] == ((i + 2) as nat, timing_line(cues[b], sep))
            &&& forall|x: int| 0 <= x < m ==> #[trigger] nl[i + 2 + x].1 == ps[x]
            &&& nl[i + 2 + m].1 == Seq::<char>::empty()
        }),
{
    let w = written_lines(cues, sep);
    let all = pre + w;
    let nl = numbered(all);
    let k = block_start(cues, b, sep);
    let i = pre.len() + k;
    let bl = block_lines((b + 1) as nat, cues[b], sep);
    let ps = split_on(cues[b].2, '\n');
    let m = ps.len() as int;
    lemma_written_step(cues, b, sep);
    lemma_written_prefix(cues, b + 1, sep);
    let wb = written_lines(cues.take(b + 1), sep);
    assert(wb.len() == k + bl.len());
    assert forall|x: int| 0 <= x < bl.len() implies #[trigger] all[i + x] == bl[x] by {
        assert(wb[k + x] == bl[x]);
        assert(w[k + x] == wb[k + x]);
        assert(all[pre.len() + (k + x)] == w[k + x]);
    }
    assert(all[i + 0] == bl[0]);
    assert(all[i + 1] == bl[1]);
    assert forall|x: int| 0 <= x < m implies #[trigger] nl[i + 2 + x].1 == ps[x] by {
        assert(all[i + (2 + x)] == bl[2 + x]);
    }
    assert(all[i + (2 + m)] == bl[2 + m]);
}

/// A cue number never opens a WebVTT metadata block.
proof fn lemma_dec_not_metadata(n: nat)
    ensures
        !is_metadata(dec(n)),
{
    lemma_dec_no_break(n);
    lemma_dec(n);
    let d = dec(n);
    assert(lead_ws(d) == 0);
    assert(trim_start(d) =~= d);
    assert(plain_digit_char(d[0]));
    assert forall|k: int| 0 <= k < 3 implies !keyword_match(d, k) by {
        assert(keyword(k)[0] != d[0]);
        if keyword_match(d, k) {
            if d == keyword(k) {
                assert(d[0] == keyword(k)[0]);
            } else {
                assert(d.take(keyword(k).push(' ').len() as int) == keyword(k).push(' '));
                assert(d[0] == keyword(k).push(' ')[0]);
            }
        }
    }
}

/// One step of reading: a number line, a timing line, plain text lines and
/// a blank line make one cue block.
proof fn lemma_scan_step(nl: Seq<(nat, Seq<char>)>, i: int, n: nat, timing: Seq<char>, t: Seq<char>, skip: bool)
    requires
        plain_text(t),
        0 <= i,
        i + 3 + split_on(t, '\n').len() <= nl.len(),
        nl[i].1 == dec(n),
        nl[i + 1].1 == timing,
        has_arrow(timing),
        forall|x: int|
            0 <= x < split_on(t, '\n').len() ==> #[trigger] nl[i + 2 + x].1 == split_on(t, '\n')[x],
        nl[i + 2 + split_on(t, '\n').len()].1 == Seq::<char>::empty(),
    ensures
        scan_from(nl, i, skip) == prepend_cues(
            seq![(nl[i + 1].0, timing, t)],
            scan_from(nl, i + 3 + split_on(t, '\n').len(), skip),
        ),
{
    let ps = split_on(t, '\n');
    let m = ps.len() as int;
    lemma_dec_no_break(n);
    assert(!is_ws(dec(n)[0]));
    assert(!is_blank(nl[i].1));
    lemma_no_arrow(dec(n));
    lemma_dec_not_metadata(n);
    assert forall|x: int| i + 2 <= x < i + 2 + m implies !is_blank(#[trigger] nl[x].1) by {
        assert(nl[i + 2 + (x - i - 2)].1 == ps[x - i - 2]);
        assert(plain_line(ps[x - i - 2]));
    }
    assert(is_blank(nl[i + 2 + m].1));
    lemma_next_blank_at(nl, i + 2, i + 2 + m);
    assert forall|x: int| 0 <= x < ps.len() implies #[trigger] nl[i + 2 + x].1 == ps[x] && trim(ps[x]) == ps[x] by {
        assert(plain_line(ps[x]));
    }
    lemma_joined(nl, i + 2, ps);
    lemma_join_split(t, '\n');
    lemma_no_markup(t);
    assert(strip_markup_spec(joined(nl, i + 2, i + 2 + m)) == t);
    assert(scan_from(nl, i + 2 + m, skip) == scan_from(nl, i + 3 + m, skip));
    lemma_next_blank(nl, i + 2);
}

/// Reading a written file from the start of cue `b` finds the blocks of
/// cues `b..`, whatever lines come before the cues and whether or not
/// metadata blocks are skipped.
proof fn lemma_scan(cues: Seq<(u32, u32, Seq<char>)>, b: int, sep: char, pre: Seq<Seq<char>>, skip: bool)
    requires
        forall|i: int| 0 <= i < cues.len() ==> plain_text(#[trigger] cues[i].2),
        sep == ',' || sep == '.',
        0 <= b <= cues.len(),
    ensures
        scan_from(numbered(pre + written_lines(cues, sep)), pre.len() + block_start(cues, b, sep), skip) == Ok::<
            Seq<(nat, Seq<char>, Seq<char>)>,
            nat,
        >(raw_from(cues, b, sep, pre.len() as int)),
    decreases cues.len() - b,
{
    let nl = numbered(pre + written_lines(cues, sep));
    let i = pre.len() + block_start(cues, b, sep);
    if b == cues.len() {
        assert(cues.take(b) =~= cues);
        assert(raw_from(cues, b, sep, pre.len() as int) =~= Seq::<(nat, Seq<char>, Seq<char>)>::empty());
    } else {
        let cue = cues[b];
        assert(plain_text(cue.2));
        lemma_block_view(cues, b, sep, pre);
        lemma_timing_arrow(cue, sep);
        lemma_scan_step(nl, i, (b + 1) as nat, timing_line(cue, sep), cue.2, skip);
        lemma_scan(cues, b + 1, sep, pre, skip);
        let raw = ((i + 2) as nat, timing_line(cue, sep), cue.2);
        assert(raw_from(cues, b, sep, pre.len() as int) =~= seq![raw] + raw_from(cues, b + 1, sep, pre.len() as int));
    }
}

/// Padding a word with a space on the right trims away.
proof fn lemma_trim_pad_right(x: Seq<char>)
    requires
        x.len() > 0,
        !is_ws(x[0]),
        !is_ws(x.last()),
    ensures
        trim(x + seq![' ']) == x,
{
    let s = x + seq![' '];
    assert(lead_ws(s) == 0);
    assert(trim_start(s) =~= s);
    assert(s.drop_last() =~= x);
    assert(trail_ws(x) == 0);
    assert(trail_ws(s) == 1);
    assert(trim(s) =~= x);
}

/// Padding a word with a space on the left trims away.
proof fn lemma_trim_pad_left(x: Seq<char>)
    requires
        x.len() > 0,
        !is_ws(x[0]),
        !is_ws(x.last()),
    ensures
        trim(seq![' '] + x) == x,
{
    let s = seq![' '] + x;
    assert(s.drop_first() =~= x);
    assert(lead_ws(x) == 0);
    assert(lead_ws(s) == 1);
    assert(trim_start(s) =~= x);
    assert(trail_ws(x) == 0);
    assert(trim(s) =~= x);
}

/// A written timestamp: its characters are no whitespace, and its ends are
/// digits.
proof fn lemma_stamp_shape(ms: nat, sep: char)
    requires
        ms <= u32::MAX,
        sep == ',' || sep == '.',
    ensures
        timestamp_text(ms, sep).len() > 0,
        !is_ws(timestamp_text(ms, sep)[0]),
        !is_ws(timestamp_text(ms, sep).last()),
        forall|j: int| 0 <= j < timestamp_text(ms, sep).len() ==> !is_ws(#[trigger] timestamp_text(ms, sep)[j]),
{
    lemma_timestamp_text_chars(ms, sep);
    let a = timestamp_text(ms, sep);
    assert forall|j: int| 0 <= j < a.len() implies !is_ws(#[trigger] a[j]) by {
        assert(plain_digit_char(a[j]) || a[j] == ':' || a[j] == sep);
    }
}

/// A written timing line reads back as the cue's span.
proof fn lemma_timing_read(cue: (u32, u32, Seq<char>), sep: char)
    requires
        sep == ',' || sep == '.',
    ensures
        timing_spec(timing_line(cue, sep)) == Some((cue.0, max_u32(cue.1, cue.0))),
{
    let end = max_u32(cue.1, cue.0);
    let a = timestamp_text(cue.0 as nat, sep);
    let b = timestamp_text(end as nat, sep);
    let t = timing_line(cue, sep);
    lemma_timing_arrow(cue, sep);
    let k = a.len() as int + 1;
    assert(t.take(k) =~= a + seq![' ']);
    assert(t.skip(k + 3) =~= seq![' '] + b);
    lemma_stamp_shape(cue.0 as nat, sep);
    lemma_stamp_shape(end as nat, sep);
    lemma_trim_pad_right(a);
    lemma_trim_pad_left(b);
    assert(timing_halves(t) == Some((a, b)));
    lemma_find_ws_at(b, 0, b.len() as int);
    assert(b.take(find_ws(b, 0)) =~= b);
    lemma_timestamp_round_trip(cue.0, sep);
    lemma_timestamp_round_trip(end, sep);
}

/// The cues a reader gives back from cue `b` on.
pub open spec fn read_back(cues: Seq<(u32, u32, Seq<char>)>, b: int) -> Seq<(u32, u32, Seq<char>)> {
    Seq::new((cues.len() - b) as nat, |j: int| (cues[b + j].0, max_u32(cues[b + j].1, cues[b + j].0), cues[b + j].2))
}

/// The blocks of cues `b..` read as those cues.
proof fn lemma_cues_read(cues: Seq<(u32, u32, Seq<char>)>, b: int, sep: char, shift: int)
    requires
        forall|i: int| 0 <= i < cues.len() ==> plain_text(#[trigger] cues[i].2),
        sep == ',' || sep == '.',
        0 <= b <= cues.len(),
    ensures
        cues_spec(raw_from(cues, b, sep, shift)) == Ok::<Seq<(u32, u32, Seq<char>)>, nat>(read_back(cues, b)),
    decreases cues.len() - b,
{
    let raw = raw_from(cues, b, sep, shift);
    if b == cues.len() {
        assert(read_back(cues, b) =~= Seq::<(u32, u32, Seq<char>)>::empty());
    } else {
        let cue = cues[b];
        assert(plain_text(cue.2));
        lemma_plain_text_trim(cue.2);
        lemma_timing_read(cue, sep);
        assert(raw[0].1 == timing_line(cue, sep));
        assert(raw[0].2 == cue.2);
        assert(raw.drop_first() =~= raw_from(cues, b + 1, sep, shift));
        lemma_cues_read(cues, b + 1, sep, shift);
        assert(read_back(cues, b) =~= seq![(cue.0, max_u32(cue.1, cue.0), cue.2)] + read_back(cues, b + 1));
    }
}

/// Writing cues as a SubRip file and reading the file back gives the same
/// cues (a cue whose end came before its start comes back ending at its
/// start), whenever every cue text is plain: its lines are not blank and
/// have no whitespace at either end, and it holds no `<`, `{` or `&`.
pub proof fn law_srt_round_trip(cues: Seq<(u32, u32, Seq<char>)>)
    requires
        forall|i: int| 0 <= i < cues.len() ==> plain_text(#[trigger] cues[i].2),
    ensures
        spec_parse_srt(srt_text(cues)) == Ok::<Seq<(u32, u32, Seq<char>)>, nat>(
            Seq::new(cues.len(), |i: int| (cues[i].0, max_u32(cues[i].1, cues[i].0), cues[i].2)),
        ),
{
    lemma_file_lines(cues, ',');
    assert(cues.take(0) =~= Seq::<(u32, u32, Seq<char>)>::empty());
    assert(block_start(cues, 0, ',') == 0);
    let none = Seq::<Seq<char>>::empty();
    assert(none + written_lines(cues, ',') =~= written_lines(cues, ','));
    lemma_scan(cues, 0, ',', none, false);
    lemma_cues_read(cues, 0, ',', 0);
    assert(read_back(cues, 0) =~= Seq::new(cues.len(), |i: int| (cues[i].0, max_u32(cues[i].1, cues[i].0), cues[i].2)));
}

/// A written WebVTT file reads as its header, a blank line and the cue
/// lines, numbered from one.
proof fn lemma_vtt_lines(cues: Seq<(u32, u32, Seq<char>)>)
    requires
        forall|i: int| 0 <= i < cues.len() ==> plain_text(#[trigger] cues[i].2),
    ensures
        numbered_lines_spec(vtt_text(cues)) == numbered(seq![webvtt(), Seq::<char>::empty()] + written_lines(cues, '.')),
{
    let e = Seq::<char>::empty();
    let blocks = cue_blocks(cues, '.');
    let text = vtt_text(cues);
    let w = written_lines(cues, '.');
    let pre = seq![webvtt(), e];
    assert(text =~= webvtt() + seq!['\n'] + (e + seq!['\n'] + blocks));
    lemma_file_split(cues, '.');
    lemma_split_join(webvtt(), e + seq!['\n'] + blocks, '\n');
    lemma_split_join(e, blocks, '\n');
    lemma_split_single(webvtt(), '\n');
    lemma_split_single(e, '\n');
    let parts = split_on(text, '\n');
    assert(parts =~= (pre + w).push(e));
    lemma_written_ends(cues, '.');
    assert(text[0] == 'W');
    assert(lead_bom(text) == 0);
    assert(text.skip(0) =~= text);
    let all = pre + w;
    assert forall|i: int| 0 <= i < all.len() implies strip_cr(#[trigger] all[i]) == all[i] by {
        if i >= 2 {
            assert(all[i] == w[i - 2]);
            assert(line_end_ok(w[i - 2]));
        }
    }
    assert(lines_of(text) =~= all);
    assert(numbered_lines_spec(text) =~= numbered(all));
}

/// Writing cues as a WebVTT file and reading the file back gives the same
/// cues (a cue whose end came before its start comes back ending at its
/// start), whenever every cue text is plain: its lines are not blank and
/// have no whitespace at either end, and it holds no `<`, `{` or `&`.
pub proof fn law_vtt_round_trip(cues: Seq<(u32, u32, Seq<char>)>)
    requires
        forall|i: int| 0 <= i < cues.len() ==> plain_text(#[trigger] cues[i].2),
    ensures
        spec_parse_vtt(vtt_text(cues)) == Ok::<Seq<(u32, u32, Seq<char>)>, nat>(
            Seq::new(cues.len(), |i: int| (cues[i].0, max_u32(cues[i].1, cues[i].0), cues[i].2)),
        ),
{
    let e = Seq::<char>::empty();
    let pre = seq![webvtt(), e];
    lemma_vtt_lines(cues);
    let lines = numbered(pre + written_lines(cues, '.'));
    assert(lines[0].1 == webvtt());
    assert(!is_ws(webvtt()[0]));
    assert(!is_blank(lines[0].1));
    assert(first_nonblank(lines, 0) == 0);
    assert(lead_ws(webvtt()) == 0);
    assert(trim_start(webvtt()) =~= webvtt());
    assert(webvtt().take(webvtt().len() as int) =~= webvtt());
    assert(is_header(lines[0].1));
    assert(lines[1].1 == e);
    assert(is_blank(lines[1].1));
    assert(cues.take(0) =~= Seq::<(u32, u32, Seq<char>)>::empty());
    assert(block_start(cues, 0, '.') == 0);
    lemma_scan(cues, 0, '.', pre, true);
    assert(scan_from(lines, 1, true) == scan_from(lines, 2, true));
    lemma_cues_read(cues, 0, '.', 2);
    assert(read_back(cues, 0) =~= Seq::new(cues.len(), |i: int| (cues[i].0, max_u32(cues[i].1, cues[i].0), cues[i].2)));
}

/// A subtitle file written in either format is recognized as that format
/// when it is read back without being told which, and gives the same cues
/// back (a cue whose end came before its start ending at its start),
/// whenever every cue text is plain.
pub proof fn law_subtitles_round_trip(cues: Seq<(u32, u32, Seq<char>)>)
    requires
        forall|i: int| 0 <= i < cues.len() ==> plain_text(#[trigger] cues[i].2),
    ensures
        spec_detect_format(srt_text(cues)) == CaptionFileFormat::Srt,
        spec_detect_format(vtt_text(cues)) == CaptionFileFormat::Vtt,
        spec_parse_subtitles(srt_text(cues)) == Ok::<Seq<(u32, u32, Seq<char>)>, nat>(
            Seq::new(cues.len(), |i: int| (cues[i].0, max_u32(cues[i].1, cues[i].0), cues[i].2)),
        ),
        spec_parse_subtitles(vtt_text(cues)) == Ok::<Seq<(u32, u32, Seq<char>)>, nat>(
            Seq::new(cues.len(), |i: int| (cues[i].0, max_u32(cues[i].1, cues[i].0), cues[i].2)),
        ),
{
    law_srt_round_trip(cues);
    law_vtt_round_trip(cues);
    // a SubRip file starts with the first cue's number
    lemma_file_lines(cues, ',');
    let w = written_lines(cues, ',');
    let lines = numbered(w);
    if cues.len() > 0 {
        lemma_written_step(cues, 0, ',');
        lemma_written_prefix(cues, 1, ',');
        assert(cues.take(0) =~= Seq::<(u32, u32, Seq<char>)>::empty());
        assert(written_lines(cues.take(0), ',') =~= Seq::<Seq<char>>::empty());
        assert(written_lines(cues.take(1), ',')[0] == dec(1));
        assert(w[0] == dec(1));
        lemma_dec_no_break(1);
        lemma_dec(1);
        let d = dec(1);
        assert(!is_ws(d[0]));
        assert(!is_blank(lines[0].1));
        assert(first_nonblank(lines, 0) == 0);
        assert(lead_ws(d) == 0);
        assert(trim_start(d) =~= d);
        assert(plain_digit_char(d[0]));
        if starts_with(d, webvtt()) {
            assert(d.take(webvtt().len() as int)[0] == webvtt()[0]);
        }
        assert(!is_header(lines[0].1));
    } else {
        assert(w =~= Seq::<Seq<char>>::empty());
    }
    // a WebVTT file starts with its header
    lemma_vtt_lines(cues);
    let vl = numbered(seq![webvtt(), Seq::<char>::empty()] + written_lines(cues, '.'));
    assert(vl[0].1 == webvtt());
    assert(!is_ws(webvtt()[0]));
    assert(!is_blank(vl[0].1));
    assert(first_nonblank(vl, 0) == 0);
    assert(lead_ws(webvtt()) == 0);
    assert(trim_start(webvtt()) =~= webvtt());
    assert(webvtt().take(webvtt().len() as int) =~= webvtt());
    assert(is_header(vl[0].1));
}

} // verus!
