//! WebVTT (`.vtt`).

use vstd::prelude::*;

use crate::error::CaptionError;
use crate::format::{
    char_lines, cues_fault, cues_from_blocks, cues_spec, lines_view, numbered_lines_spec, scan_cues,
    scan_fault, scan_from, starts_with, starts_with_at, Line,
};
use crate::srt::{cue_blocks, push_cue_blocks};
use crate::subtitle::{cues_view, SubtitleCue};
use crate::text::{blank, chars_of, is_blank, string_of, trim_bounds, trim_start};

verus! {

/// `WEBVTT`.
pub open spec fn webvtt() -> Seq<char> {
    seq!['W', 'E', 'B', 'V', 'T', 'T']
}

fn webvtt_chars() -> (r: Vec<char>)
    ensures
        r@ == webvtt(),
{
    let r = vec!['W', 'E', 'B', 'V', 'T', 'T'];
    assert(r@ =~= webvtt());
    r
}

/// First index `k >= i` holding a non-blank line, or `lines.len()`.
pub open spec fn first_nonblank(lines: Seq<(nat, Seq<char>)>, i: int) -> int
    decreases lines.len() - i,
{
    if i >= lines.len() {
        lines.len() as int
    } else if !is_blank(lines[i].1) {
        i
    } else {
        first_nonblank(lines, i + 1)
    }
}

/// Whether a line is a `WEBVTT` header (possibly indented or followed by a
/// description).
pub open spec fn is_header(line: Seq<char>) -> bool {
    starts_with(trim_start(line), webvtt())
}

/// What reading a WebVTT file gives: its cues, or the 1-based line of the
/// first problem (line 1 for an empty file, the header's line when it is not
/// `WEBVTT`).
pub open spec fn spec_parse_vtt(s: Seq<char>) -> Result<Seq<(u32, u32, Seq<char>)>, nat> {
    let lines = numbered_lines_spec(s);
    let h = first_nonblank(lines, 0);
    if h >= lines.len() {
        Err(1)
    } else if !is_header(lines[h].1) {
        Err(lines[h].0)
    } else {
        match scan_from(lines, h + 1, true) {
            Err(n) => Err(n),
            Ok(blocks) => cues_spec(blocks),
        }
    }
}

/// What a WebVTT file that does not read is reported as.
pub open spec fn vtt_fault(s: Seq<char>) -> Seq<char> {
    let lines = numbered_lines_spec(s);
    let h = first_nonblank(lines, 0);
    if h >= lines.len() {
        "the file is empty"@
    } else if !is_header(lines[h].1) {
        "expected a 'WEBVTT' header"@
    } else {
        match scan_from(lines, h + 1, true) {
            Err(_) => scan_fault(lines, h + 1, true),
            Ok(blocks) => cues_fault(blocks),
        }
    }
}

/// Index of the first non-blank line.
pub fn first_nonblank_line(lines: &Vec<Line>) -> (h: usize)
    ensures
        h == first_nonblank(lines_view(lines@), 0),
        h <= lines.len(),
{
    let ghost ls = lines_view(lines@);
    let mut h: usize = 0;
    while h < lines.len() && blank(&lines[h].text)
        invariant
            h <= lines.len(),
            ls == lines_view(lines@),
            first_nonblank(ls, 0) == first_nonblank(ls, h as int),
        decreases lines.len() - h,
    {
        proof {
            assert(ls[h as int] == lines@[h as int]@);
        }
        h += 1;
    }
    proof {
        if h < lines.len() {
            assert(ls[h as int] == lines@[h as int]@);
        }
    }
    h
}

/// Whether `line` is a `WEBVTT` header.
pub fn header_line(line: &Vec<char>) -> (r: bool)
    ensures
        r == is_header(line@),
{
    let (a, _) = trim_bounds(line, 0, line.len());
    proof {
        assert(line@.subrange(0, line@.len() as int) =~= line@);
        assert(trim_start(line@) =~= line@.skip(a as int));
    }
    starts_with_at(line, a, &webvtt_chars())
}

/// Read a WebVTT file.
///
/// `NOTE`, `STYLE`, and `REGION` blocks are skipped, cue settings after the end
/// timestamp are ignored, and inline markup is stripped to the text that will
/// render. The `WEBVTT` header is required.
pub fn parse_vtt(input: &str) -> (r: Result<Vec<SubtitleCue>, CaptionError>)
    ensures
        r matches Ok(cues) ==> spec_parse_vtt(input@) == Ok::<Seq<(u32, u32, Seq<char>)>, nat>(
            cues_view(cues@),
        ),
        r matches Err(e) ==> e.parse_line() is Some && spec_parse_vtt(input@) == Err::<
            Seq<(u32, u32, Seq<char>)>,
            nat,
        >(e.parse_line()->0) && e.parse_message() == vtt_fault(input@),
{
    let v = chars_of(input);
    let lines = char_lines(&v);
    let h = first_nonblank_line(&lines);
    if h >= lines.len() {
        return Err(CaptionError::parse(1, string_of(chars_of("the file is empty").as_slice())));
    }
    proof {
        assert(lines_view(lines@)[h as int] == lines@[h as int]@);
    }
    if !header_line(&lines[h].text) {
        return Err(
            CaptionError::parse(
                lines[h].number,
                string_of(chars_of("expected a 'WEBVTT' header").as_slice()),
            ),
        );
    }
    let blocks = match scan_cues(&lines, h + 1, true) {
        Ok(blocks) => blocks,
        Err(e) => {
            return Err(e);
        },
    };
    cues_from_blocks(&blocks)
}

/// The text [`write_vtt`] produces.
pub open spec fn vtt_text(cues: Seq<(u32, u32, Seq<char>)>) -> Seq<char> {
    webvtt() + seq!['\n', '\n'] + cue_blocks(cues, '.')
}

/// Write a WebVTT file: `WEBVTT` header, cue identifiers from one, dot before
/// the milliseconds.
pub fn write_vtt(cues: &[SubtitleCue]) -> (out: String)
    ensures
        out@ == vtt_text(cues_view(cues@)),
{
    let mut v: Vec<char> = webvtt_chars();
    v.push('\n');
    v.push('\n');
    push_cue_blocks(&mut v, cues, '.');
    assert(v@ =~= vtt_text(cues_view(cues@)));
    string_of(v.as_slice())
}

} // verus!
