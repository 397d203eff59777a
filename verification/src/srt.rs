//! SubRip (`.srt`).

use vstd::prelude::*;

use crate::error::CaptionError;
use crate::format::{
    char_lines, cues_fault, cues_from_blocks, cues_spec, dec, lines_view, numbered_lines_spec, padded,
    push_padded, push_timestamp, scan_cues, scan_fault, scan_from, timestamp_text, timing_spec,
};
use crate::subtitle::{cues_view, SubtitleCue};
use crate::text::{chars_of, string_of, trim, trim_bounds};

verus! {

/// What reading a SubRip file gives: its cues, or the 1-based line of the
/// first problem.
pub open spec fn spec_parse_srt(s: Seq<char>) -> Result<Seq<(u32, u32, Seq<char>)>, nat> {
    match scan_from(numbered_lines_spec(s), 0, false) {
        Err(n) => Err(n),
        Ok(blocks) => cues_spec(blocks),
    }
}

/// What a SubRip file that does not read is reported as.
pub open spec fn srt_fault(s: Seq<char>) -> Seq<char> {
    let lines = numbered_lines_spec(s);
    match scan_from(lines, 0, false) {
        Err(_) => scan_fault(lines, 0, false),
        Ok(blocks) => cues_fault(blocks),
    }
}

/// The span a readable timing line gives.
pub open spec fn timing_of(line: Seq<char>) -> (u32, u32) {
    timing_spec(line)->0
}

/// The blocks whose text is not blank, in order.
pub open spec fn text_blocks(bs: Seq<(nat, Seq<char>, Seq<char>)>) -> Seq<(nat, Seq<char>, Seq<char>)>
    decreases bs.len(),
{
    if bs.len() == 0 {
        Seq::empty()
    } else if crate::text::is_blank(bs[0].2) {
        text_blocks(bs.drop_first())
    } else {
        seq![bs[0]] + text_blocks(bs.drop_first())
    }
}

/// Reading blocks succeeds exactly when every timing line reads, and then
/// gives one cue per block with text, in order.
proof fn lemma_cues_of_blocks(bs: Seq<(nat, Seq<char>, Seq<char>)>)
    ensures
        cues_spec(bs) is Ok <==> forall|k: int| 0 <= k < bs.len() ==> (#[trigger] timing_spec(bs[k].1)) is Some,
        cues_spec(bs) matches Ok(r) ==> r.len() == text_blocks(bs).len() && forall|k: int|
            0 <= k < r.len() ==> #[trigger] r[k] == (
                timing_of(text_blocks(bs)[k].1).0,
                timing_of(text_blocks(bs)[k].1).1,
                text_blocks(bs)[k].2,
            ),
    decreases bs.len(),
{
    if bs.len() > 0 {
        let rest = bs.drop_first();
        lemma_cues_of_blocks(rest);
        assert forall|k: int| 0 < k < bs.len() implies bs[k] == rest[k - 1] by {}
        if (forall|k: int| 0 <= k < bs.len() ==> (#[trigger] timing_spec(bs[k].1)) is Some) {
            assert(timing_spec(bs[0].1) is Some);
            assert forall|k: int| 0 <= k < rest.len() implies (#[trigger] timing_spec(rest[k].1)) is Some by {
                assert(rest[k] == bs[k + 1]);
            }
        } else {
            let k = choose|k: int| 0 <= k < bs.len() && !(#[trigger] timing_spec(bs[k].1) is Some);
            if k > 0 {
                assert(rest[k - 1] == bs[k]);
            }
        }
        match cues_spec(bs) {
            Ok(r) => {
                let tb = text_blocks(bs);
                if !crate::text::is_blank(bs[0].2) {
                    let rr = cues_spec(rest)->Ok_0;
                    assert forall|k: int| 0 < k < r.len() implies #[trigger] r[k] == rr[k - 1] by {}
                    assert forall|k: int| 0 < k < tb.len() implies #[trigger] tb[k] == text_blocks(rest)[k - 1] by {}
                }
            },
            Err(_) => {},
        }
    }
}

/// How a SubRip file reads.
///
/// The file splits into blocks (a timing line, with or without a cue number
/// before it, and the text lines after it up to a blank line). A non-blank
/// line that is neither a timing line nor followed by one fails the whole
/// file; so does any block whose timing line does not read or runs
/// backwards. Otherwise the file gives one cue per block whose text is not
/// blank, in file order (a blank block is dropped, not refused), each
/// running forwards and showing its block's text.
pub proof fn law_srt_blocks(s: Seq<char>)
    ensures
        ({
            let scanned = scan_from(numbered_lines_spec(s), 0, false);
            &&& scanned is Err ==> spec_parse_srt(s) is Err
            &&& scanned matches Ok(bs) ==> {
                &&& (spec_parse_srt(s) is Ok <==> forall|k: int|
                    0 <= k < bs.len() ==> (#[trigger] timing_spec(bs[k].1)) is Some)
                &&& spec_parse_srt(s) matches Ok(r) ==> r.len() == text_blocks(bs).len() && forall|k: int|
                    0 <= k < r.len() ==> {
                        &&& (#[trigger] r[k]).0 <= r[k].1
                        &&& !crate::text::is_blank(r[k].2)
                        &&& r[k] == (
                            timing_of(text_blocks(bs)[k].1).0,
                            timing_of(text_blocks(bs)[k].1).1,
                            text_blocks(bs)[k].2,
                        )
                    }
            }
        }),
{
    match scan_from(numbered_lines_spec(s), 0, false) {
        Ok(bs) => {
            lemma_cues_of_blocks(bs);
            crate::format::lemma_cues_spec_sane(bs);
        },
        Err(_) => {},
    }
}

/// Read a SubRip file.
///
/// Forgiving about everything that does not change meaning — a byte-order mark,
/// CRLF, a missing or out-of-order cue number, stray blank lines, `<i>` markup
/// — and strict about the timing line. Errors carry the 1-based line number so
/// the UI can say where the file went wrong.
pub fn parse_srt(input: &str) -> (r: Result<Vec<SubtitleCue>, CaptionError>)
    ensures
        r matches Ok(cues) ==> spec_parse_srt(input@) == Ok::<Seq<(u32, u32, Seq<char>)>, nat>(
            cues_view(cues@),
        ),
        r matches Err(e) ==> e.parse_line() is Some && spec_parse_srt(input@) == Err::<
            Seq<(u32, u32, Seq<char>)>,
            nat,
        >(e.parse_line()->0) && e.parse_message() == srt_fault(input@),
{
    let v = chars_of(input);
    let lines = char_lines(&v);
    let blocks = match scan_cues(&lines, 0, false) {
        Ok(blocks) => blocks,
        Err(e) => {
            return Err(e);
        },
    };
    cues_from_blocks(&blocks)
}

/// The larger of two values.
pub open spec fn max_u32(a: u32, b: u32) -> u32 {
    if a >= b {
        a
    } else {
        b
    }
}

/// One written cue: its 1-based number, the timing line (an end before the
/// start written as the start), the trimmed text and a blank line.
pub open spec fn cue_block(number: nat, cue: (u32, u32, Seq<char>), sep: char) -> Seq<char> {
    dec(number) + seq!['\n'] + timestamp_text(cue.0 as nat, sep) + seq![' ', '-', '-', '>', ' ']
        + timestamp_text(max_u32(cue.1, cue.0) as nat, sep) + seq!['\n'] + trim(cue.2) + seq![
        '\n',
        '\n',
    ]
}

/// The blocks of `cues`, numbered from one.
pub open spec fn cue_blocks(cues: Seq<(u32, u32, Seq<char>)>, sep: char) -> Seq<char>
    decreases cues.len(),
{
    if cues.len() == 0 {
        Seq::empty()
    } else {
        cue_blocks(cues.drop_last(), sep) + cue_block(cues.len() as nat, cues.last(), sep)
    }
}

proof fn lemma_padded_one(n: nat)
    ensures
        padded(n, 1) == dec(n),
{
    crate::format::lemma_dec(n);
}

/// Append ` --> `.
fn push_arrow(out: &mut Vec<char>)
    ensures
        final(out)@ == old(out)@ + seq![' ', '-', '-', '>', ' '],
{
    out.push(' ');
    out.push('-');
    out.push('-');
    out.push('>');
    out.push(' ');
    assert(out@ =~= old(out)@ + seq![' ', '-', '-', '>', ' ']);
}

/// Append the trimmed text of a cue and the blank line after it.
fn push_cue_text(out: &mut Vec<char>, text: &String)
    ensures
        final(out)@ == old(out)@ + trim(text@) + seq!['\n', '\n'],
{
    let v = chars_of(text.as_str());
    let (a, b) = trim_bounds(&v, 0, v.len());
    crate::format::append_range(out, &v, a, b);
    out.push('\n');
    out.push('\n');
    assert(v@.subrange(0, v@.len() as int) =~= v@);
    assert(out@ =~= old(out)@ + trim(text@) + seq!['\n', '\n']);
}

/// Append one numbered block.
fn push_cue_block(out: &mut Vec<char>, number: u64, cue: &SubtitleCue, sep: char)
    ensures
        final(out)@ == old(out)@ + cue_block(number as nat, cue@, sep),
{
    let ghost s0 = out@;
    push_padded(out, number, 1);
    out.push('\n');
    let ghost s1 = out@;
    push_timestamp(out, cue.start_ms, sep);
    push_arrow(out);
    let end = if cue.end_ms >= cue.start_ms {
        cue.end_ms
    } else {
        cue.start_ms
    };
    push_timestamp(out, end, sep);
    out.push('\n');
    let ghost s2 = out@;
    push_cue_text(out, &cue.text);
    proof {
        lemma_padded_one(number as nat);
        assert(s1 =~= s0 + dec(number as nat) + seq!['\n']);
        assert(s2 =~= s1 + timestamp_text(cue.start_ms as nat, sep) + seq![' ', '-', '-', '>', ' ']
            + timestamp_text(max_u32(cue.end_ms, cue.start_ms) as nat, sep) + seq!['\n']);
        assert(out@ =~= s0 + cue_block(number as nat, cue@, sep));
    }
}

/// Append the numbered blocks of `cues` to `out`.
pub fn push_cue_blocks(out: &mut Vec<char>, cues: &[SubtitleCue], sep: char)
    ensures
        final(out)@ == old(out)@ + cue_blocks(cues_view(cues@), sep),
{
    let ghost start = out@;
    let mut i: usize = 0;
    while i < cues.len()
        invariant
            i <= cues.len(),
            out@ == start + cue_blocks(cues_view(cues@.take(i as int)), sep),
        decreases cues.len() - i,
    {
        let ghost before = out@;
        push_cue_block(out, i as u64 + 1, &cues[i], sep);
        proof {
            let taken = cues_view(cues@.take(i + 1));
            assert(taken.drop_last() =~= cues_view(cues@.take(i as int)));
            assert(taken.last() == cues@[i as int]@);
            assert(out@ =~= start + cue_blocks(taken, sep));
        }
        i += 1;
    }
    assert(cues@.take(i as int) =~= cues@);
}

/// The text [`write_srt`] produces.
pub open spec fn srt_text(cues: Seq<(u32, u32, Seq<char>)>) -> Seq<char> {
    cue_blocks(cues, ',')
}

/// Write a SubRip file: cues numbered from one, comma before the milliseconds.
pub fn write_srt(cues: &[SubtitleCue]) -> (out: String)
    ensures
        out@ == srt_text(cues_view(cues@)),
{
    let mut v: Vec<char> = Vec::new();
    push_cue_blocks(&mut v, cues, ',');
    assert(v@ =~= srt_text(cues_view(cues@)));
    string_of(v.as_slice())
}

} // verus!
