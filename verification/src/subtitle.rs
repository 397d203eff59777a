//! Subtitle cues: the file-shaped view of a caption group.

use vstd::prelude::*;

use crate::caption::cue::{words_view, CaptionWord};
use crate::caption::group::CaptionFileFormat;
use crate::caption::layout::{default_layout_spec, layout_valid, CaptionLayout};
use crate::caption::spec::{cue_spec_view, cue_specs_view, CaptionCueSpec};
use crate::reflow::{estimate_chars, estimate_spec, wrap_chars, wrap_spec};
use crate::segment::{lemma_placed_ranges, placed_range, placed_refused, separated_spans, sub_floor};
use crate::time::{sat_add_i64, TimeRange};
use crate::timing::{separate_spans, snap_spans, Placement};
use crate::error::CaptionError;
use crate::format::{char_lines, lines_view, numbered_lines_spec, scan_from};
use crate::srt::{parse_srt, spec_parse_srt};
use crate::text::{chars_of, string_of};
use crate::vtt::{first_nonblank, first_nonblank_line, header_line, is_header, parse_vtt, spec_parse_vtt};

verus! {

/// One cue as a subtitle file states it: a span in milliseconds and text whose
/// newlines are the file's line breaks.
#[derive(Debug, Clone, PartialEq, Eq)]
pub struct SubtitleCue {
    pub start_ms: u32,
    pub end_ms: u32,
    pub text: String,
}

impl View for SubtitleCue {
    type V = (u32, u32, Seq<char>);

    open spec fn view(&self) -> (u32, u32, Seq<char>) {
        (self.start_ms, self.end_ms, self.text@)
    }
}

/// The views of a list of cues.
pub open spec fn cues_view(cues: Seq<SubtitleCue>) -> Seq<(u32, u32, Seq<char>)> {
    Seq::new(cues.len(), |i: int| cues[i]@)
}

impl SubtitleCue {
    pub fn new(start_ms: u32, end_ms: u32, text: &str) -> (cue: SubtitleCue)
        ensures
            cue@ == (start_ms, end_ms, text@),
    {
        let v = chars_of(text);
        SubtitleCue { start_ms, end_ms, text: crate::text::string_of(v.as_slice()) }
    }
}

/// Which format a file is written in, by its first non-blank line.
pub open spec fn spec_detect_format(s: Seq<char>) -> CaptionFileFormat {
    let lines = numbered_lines_spec(s);
    let h = first_nonblank(lines, 0);
    if h < lines.len() && is_header(lines[h].1) {
        CaptionFileFormat::Vtt
    } else {
        CaptionFileFormat::Srt
    }
}

/// Which format `input` is written in, by its header: WebVTT when the first
/// non-blank line starts with `WEBVTT`, SubRip otherwise.
pub fn detect_format(input: &str) -> (f: CaptionFileFormat)
    ensures
        f == spec_detect_format(input@),
{
    let v = chars_of(input);
    let lines = char_lines(&v);
    let h = first_nonblank_line(&lines);
    if h < lines.len() {
        proof {
            assert(lines_view(lines@)[h as int] == lines@[h as int]@);
        }
        if header_line(&lines[h].text) {
            return CaptionFileFormat::Vtt;
        }
    }
    CaptionFileFormat::Srt
}

/// What [`parse_subtitles`] reads a file as: the sniffed format and that
/// format's parse.
pub open spec fn spec_parse_subtitles(s: Seq<char>) -> Result<Seq<(u32, u32, Seq<char>)>, nat> {
    match spec_detect_format(s) {
        CaptionFileFormat::Srt => spec_parse_srt(s),
        CaptionFileFormat::Vtt => spec_parse_vtt(s),
    }
}

/// A file that reads gives cues that run forwards and show something: a
/// block with blank text is dropped, and a block whose timing does not read
/// or runs backwards fails the whole read.
pub proof fn law_read_cues_are_sane(s: Seq<char>)
    ensures
        spec_parse_subtitles(s) matches Ok(r) ==> forall|k: int|
            0 <= k < r.len() ==> (#[trigger] r[k]).0 <= r[k].1 && !crate::text::is_blank(r[k].2),
{
    let lines = numbered_lines_spec(s);
    match spec_detect_format(s) {
        CaptionFileFormat::Srt => {
            match scan_from(lines, 0, false) {
                Ok(blocks) => crate::format::lemma_cues_spec_sane(blocks),
                Err(_) => {},
            }
        },
        CaptionFileFormat::Vtt => {
            let h = first_nonblank(lines, 0);
            if h < lines.len() && is_header(lines[h].1) {
                match scan_from(lines, h + 1, true) {
                    Ok(blocks) => crate::format::lemma_cues_spec_sane(blocks),
                    Err(_) => {},
                }
            }
        },
    }
}

/// What [`parse_subtitles`] reports a file that does not read as: the sniffed
/// format's parser's message.
pub open spec fn subtitles_fault(s: Seq<char>) -> Seq<char> {
    match spec_detect_format(s) {
        CaptionFileFormat::Srt => crate::srt::srt_fault(s),
        CaptionFileFormat::Vtt => crate::vtt::vtt_fault(s),
    }
}

proof fn lemma_lead_ws(w: Seq<char>, x: Seq<char>)
    requires
        forall|j: int| 0 <= j < w.len() ==> crate::text::is_ws(#[trigger] w[j]),
        x.len() > 0,
        !crate::text::is_ws(x[0]),
    ensures
        crate::text::lead_ws(w + x) == w.len(),
    decreases w.len(),
{
    if w.len() == 0 {
        assert(w + x =~= x);
    } else {
        assert((w + x).drop_first() =~= w.drop_first() + x);
        assert((w + x)[0] == w[0]);
        lemma_lead_ws(w.drop_first(), x);
    }
}

proof fn lemma_first_nonblank_at(lines: Seq<(nat, Seq<char>)>, i: int, h: int)
    requires
        0 <= i <= h < lines.len(),
        forall|j: int| i <= j < h ==> crate::text::is_blank(#[trigger] lines[j].1),
        !crate::text::is_blank(lines[h].1),
    ensures
        first_nonblank(lines, i) == h,
    decreases h - i,
{
    if i < h {
        lemma_first_nonblank_at(lines, i + 1, h);
    }
}

/// A file whose first non-blank line starts, after any leading whitespace,
/// with `WEBVTT` (whatever follows on that line) is WebVTT, and reads
/// exactly as WebVTT reads it.
pub proof fn law_webvtt_header_detected(s: Seq<char>, h: int, w: Seq<char>, rest: Seq<char>)
    requires
        0 <= h < numbered_lines_spec(s).len(),
        forall|j: int| 0 <= j < h ==> crate::text::is_blank(#[trigger] numbered_lines_spec(s)[j].1),
        forall|j: int| 0 <= j < w.len() ==> crate::text::is_ws(#[trigger] w[j]),
        numbered_lines_spec(s)[h].1 == w + seq!['W', 'E', 'B', 'V', 'T', 'T'] + rest,
    ensures
        spec_detect_format(s) == CaptionFileFormat::Vtt,
        spec_parse_subtitles(s) == spec_parse_vtt(s),
{
    let lines = numbered_lines_spec(s);
    let hdr = seq!['W', 'E', 'B', 'V', 'T', 'T'];
    let line = lines[h].1;
    assert(('W' as u32) == 0x57);
    assert(!crate::text::is_ws('W'));
    assert(line[w.len() as int] == 'W');
    assert(!crate::text::is_blank(line));
    lemma_first_nonblank_at(lines, 0, h);
    assert(line == w + (hdr + rest));
    lemma_lead_ws(w, hdr + rest);
    assert(crate::text::trim_start(line) =~= hdr + rest);
    assert((hdr + rest).take(6) =~= hdr);
    assert(is_header(line));
}

/// A file with no non-blank line, or whose first non-blank line does not
/// start (after leading whitespace) with `WEBVTT`, is SubRip, and reads
/// exactly as SubRip reads it.
pub proof fn law_other_files_are_subrip(s: Seq<char>, h: int)
    requires
        0 <= h <= numbered_lines_spec(s).len(),
        forall|j: int| 0 <= j < h ==> crate::text::is_blank(#[trigger] numbered_lines_spec(s)[j].1),
        h < numbered_lines_spec(s).len() ==> !crate::text::is_blank(numbered_lines_spec(s)[h].1) && !(
        crate::text::trim_start(numbered_lines_spec(s)[h].1).len() >= 6 && crate::text::trim_start(
            numbered_lines_spec(s)[h].1,
        ).take(6) == seq!['W', 'E', 'B', 'V', 'T', 'T']),
    ensures
        spec_detect_format(s) == CaptionFileFormat::Srt,
        spec_parse_subtitles(s) == spec_parse_srt(s),
{
    let lines = numbered_lines_spec(s);
    if h < lines.len() {
        lemma_first_nonblank_at(lines, 0, h);
    } else {
        lemma_first_nonblank_none(lines, 0);
    }
}

proof fn lemma_first_nonblank_none(lines: Seq<(nat, Seq<char>)>, i: int)
    requires
        0 <= i <= lines.len(),
        forall|j: int| i <= j < lines.len() ==> crate::text::is_blank(#[trigger] lines[j].1),
    ensures
        first_nonblank(lines, i) == lines.len(),
    decreases lines.len() - i,
{
    if i < lines.len() {
        lemma_first_nonblank_none(lines, i + 1);
    }
}

/// Read a subtitle file whose format is whatever it turns out to be: the
/// header decides, not the file name.
pub fn parse_subtitles(input: &str) -> (r: Result<(CaptionFileFormat, Vec<SubtitleCue>), CaptionError>)
    ensures
        r matches Ok((f, cues)) ==> f == spec_detect_format(input@) && spec_parse_subtitles(input@)
            == Ok::<Seq<(u32, u32, Seq<char>)>, nat>(cues_view(cues@)),
        r matches Err(e) ==> e.parse_line() is Some && spec_parse_subtitles(input@) == Err::<
            Seq<(u32, u32, Seq<char>)>,
            nat,
        >(e.parse_line()->0) && e.parse_message() == subtitles_fault(input@),
{
    let format = detect_format(input);
    let parsed = match format {
        CaptionFileFormat::Srt => parse_srt(input),
        CaptionFileFormat::Vtt => parse_vtt(input),
    };
    match parsed {
        Ok(cues) => Ok((format, cues)),
        Err(e) => Err(e),
    }
}

/// How an imported subtitle file becomes cue clips.
#[derive(Debug, Clone, Copy, PartialEq, Eq, Structural)]
pub struct ImportOptions {
    /// The group's rules. Only the minimum hold and gap apply on import: the
    /// file's own durations are otherwise authoritative.
    pub layout: CaptionLayout,
    pub placement: Placement,
    /// Re-wrap each cue to `layout.max_chars_per_line` instead of keeping the
    /// file's line breaks.
    pub rewrap: bool,
    /// Estimate per-word timings so imported subtitles can drive the word
    /// highlight (a subtitle file has none).
    pub estimate_words: bool,
}

impl ImportOptions {
    pub fn new(placement: Placement) -> (o: ImportOptions)
        ensures
            o.layout == default_layout_spec(),
            o.placement == placement,
            !o.rewrap,
            !o.estimate_words,
    {
        ImportOptions {
            layout: CaptionLayout::default_layout(),
            placement,
            rewrap: false,
            estimate_words: false,
        }
    }

    pub fn with_layout(self, layout: CaptionLayout) -> (o: ImportOptions)
        ensures
            o == (ImportOptions { layout, ..self }),
    {
        ImportOptions { layout, ..self }
    }
}

/// The cues with any text, in order.
pub open spec fn usable_cues(cues: Seq<(u32, u32, Seq<char>)>) -> Seq<(u32, u32, Seq<char>)>
    decreases cues.len(),
{
    if cues.len() == 0 {
        Seq::empty()
    } else {
        let u = usable_cues(cues.drop_last());
        if cues.last().2.len() > 0 {
            u.push(cues.last())
        } else {
            u
        }
    }
}

/// The spans of imported cues: each starts no earlier than the previous one
/// ended (overlaps are held apart) and runs at least `min_ms`.
pub open spec fn import_spans(cues: Seq<(u32, u32, Seq<char>)>, min_ms: u32) -> Seq<(u32, u32)>
    decreases cues.len(),
{
    if cues.len() == 0 {
        Seq::empty()
    } else {
        let prev = import_spans(cues.drop_last(), min_ms);
        let prev_end: u32 = if prev.len() == 0 {
            0
        } else {
            prev.last().1
        };
        let c = cues.last();
        let s: u32 = if c.0 >= prev_end {
            c.0
        } else {
            prev_end
        };
        let hold = crate::timing::sat_add_u32(s as int, min_ms as int);
        let e: u32 = if c.1 >= hold {
            c.1
        } else {
            hold as u32
        };
        prev.push((s, e))
    }
}

pub proof fn lemma_import_spans_len(cues: Seq<(u32, u32, Seq<char>)>, min_ms: u32)
    ensures
        import_spans(cues, min_ms).len() == cues.len(),
    decreases cues.len(),
{
    if cues.len() > 0 {
        lemma_import_spans_len(cues.drop_last(), min_ms);
    }
}

/// There are no more cues with text than cues.
pub proof fn lemma_usable_len(cues: Seq<(u32, u32, Seq<char>)>)
    ensures
        usable_cues(cues).len() <= cues.len(),
    decreases cues.len(),
{
    if cues.len() > 0 {
        lemma_usable_len(cues.drop_last());
    }
}

/// An import keeps its cues with text, in file order: one placed cue each,
/// showing its text (re-wrapped only when asked), at least a tick long and
/// ending no later than the next one starts; overlapping cues in the file
/// are pushed apart.
pub proof fn law_imported_cues_ascend(cues: Seq<(u32, u32, Seq<char>)>, o: ImportOptions)
    requires
        cues.len() <= 0x1000_0000_0000_0000,
        place_subtitles_spec(cues, o) is Ok,
    ensures
        ({
            let v = place_subtitles_spec(cues, o)->Ok_0;
            let us = usable_cues(cues);
            &&& v.len() == us.len()
            &&& forall|k: int|
                0 <= k < v.len() ==> (#[trigger] v[k]).0 == (if o.rewrap {
                    wrap_spec(us[k].2, o.layout.max_chars_per_line)
                } else {
                    us[k].2
                })
            &&& forall|k: int| 0 <= k < v.len() ==> (#[trigger] v[k]).1.duration.value >= 1
            &&& forall|k: int| 0 < k < v.len() ==> v[k - 1].1.spec_end() <= (#[trigger] v[k]).1.start.value
        }),
{
    let us = usable_cues(cues);
    lemma_usable_len(cues);
    if us.len() > 0 {
        lemma_import_spans_len(us, o.layout.min_duration_ms);
        let spans = separated_spans(import_spans(us, o.layout.min_duration_ms), o.layout.min_gap_ms);
        lemma_placed_ranges(o.placement, spans);
        let v = imported_spec(us, o);
        assert forall|k: int| 0 <= k < v.len() implies (#[trigger] v[k]).1.duration.value >= 1 by {
            assert(v[k].1 == placed_range(o.placement, spans, k));
        }
        assert forall|k: int| 0 < k < v.len() implies v[k - 1].1.spec_end() <= (#[trigger] v[k]).1.start.value by {
            assert(v[k].1 == placed_range(o.placement, spans, k));
            assert(v[k - 1].1 == placed_range(o.placement, spans, k - 1));
        }
    }
}

/// Each imported span starts no earlier than its cue's file start nor than
/// the span before it ends, and ends no earlier than its cue's file end.
proof fn lemma_import_spans_bounds(cues: Seq<(u32, u32, Seq<char>)>, min_ms: u32)
    ensures
        ({
            let sp = import_spans(cues, min_ms);
            &&& sp.len() == cues.len()
            &&& forall|k: int| 0 <= k < cues.len() ==> (#[trigger] sp[k]).0 >= cues[k].0 && sp[k].1 >= cues[k].1
            &&& forall|k: int| 0 < k < cues.len() ==> (#[trigger] sp[k]).0 >= sp[k - 1].1
        }),
    decreases cues.len(),
{
    lemma_import_spans_len(cues, min_ms);
    if cues.len() > 0 {
        let init = cues.drop_last();
        lemma_import_spans_bounds(init, min_ms);
        lemma_import_spans_len(init, min_ms);
        let sp = import_spans(cues, min_ms);
        let prev = import_spans(init, min_ms);
        assert forall|k: int| 0 <= k < cues.len() - 1 implies sp[k] == prev[k] && cues[k] == init[k] by {}
    }
}

/// Ticks grow with milliseconds.
proof fn lemma_ticks_mono(rate: crate::time::Rational, a: int, b: int)
    requires
        0 <= a <= b,
    ensures
        crate::timing::spec_ticks(rate, a) <= crate::timing::spec_ticks(rate, b),
{
    if rate.den > 0 && rate.num > 0 {
        assert(2 * a * rate.num <= 2 * b * rate.num) by (nonlinear_arith)
            requires
                a <= b,
                rate.num > 0,
        ;
        vstd::arithmetic::div_mod::lemma_div_is_ordered(
            2 * a * rate.num + 1000 * rate.den,
            2 * b * rate.num + 1000 * rate.den,
            2000 * rate.den,
        );
    }
}

/// An imported cue never starts before its own time in the file, nor before
/// the previous cue's time in the file ends: a cue that overlaps the one
/// before it waits until that one is over. Both are in ticks at the
/// placement's rate, shifted by its offset.
pub proof fn law_imported_cue_waits(cues: Seq<(u32, u32, Seq<char>)>, o: ImportOptions)
    requires
        cues.len() <= 0x1000_0000_0000_0000,
        place_subtitles_spec(cues, o) is Ok,
    ensures
        ({
            let v = place_subtitles_spec(cues, o)->Ok_0;
            let us = usable_cues(cues);
            let rate = o.placement.rate;
            let off = o.placement.offset_ticks as int;
            &&& v.len() == us.len()
            &&& forall|k: int|
                0 <= k < v.len() ==> (#[trigger] v[k]).1.start.value >= sat_add_i64(
                    crate::timing::spec_ticks(rate, us[k].0 as int),
                    off,
                )
            &&& forall|k: int|
                0 < k < v.len() ==> (#[trigger] v[k]).1.start.value >= sat_add_i64(
                    crate::timing::spec_ticks(rate, us[k - 1].1 as int),
                    off,
                )
        }),
{
    let us = usable_cues(cues);
    lemma_usable_len(cues);
    law_imported_cues_ascend(cues, o);
    if us.len() > 0 {
        let min = o.layout.min_duration_ms;
        let gap = o.layout.min_gap_ms;
        let imp = import_spans(us, min);
        lemma_import_spans_bounds(us, min);
        let spans = separated_spans(imp, gap);
        crate::timing::lemma_snapped(o.placement.rate, spans);
        let sn = crate::timing::snapped(o.placement.rate, spans);
        let v = imported_spec(us, o);
        let rate = o.placement.rate;
        let off = o.placement.offset_ticks as int;
        assert forall|k: int| 0 <= k < v.len() implies (#[trigger] v[k]).1.start.value >= sat_add_i64(
            crate::timing::spec_ticks(rate, us[k].0 as int),
            off,
        ) && (k > 0 ==> v[k].1.start.value >= sat_add_i64(crate::timing::spec_ticks(rate, us[k - 1].1 as int), off)) by {
            assert(v[k].1 == placed_range(o.placement, spans, k));
            assert(spans[k].0 == imp[k].0);
            lemma_ticks_mono(rate, us[k].0 as int, imp[k].0 as int);
            if k > 0 {
                assert(imp[k - 1].1 >= us[k - 1].1);
                lemma_ticks_mono(rate, us[k - 1].1 as int, imp[k].0 as int);
            }
            crate::timing::lemma_ticks_bounds(rate, imp[k].0 as int);
            crate::timing::lemma_ticks_bounds(rate, us[k].0 as int);
            if k > 0 {
                crate::timing::lemma_ticks_bounds(rate, us[k - 1].1 as int);
            }
        }
    }
}

/// Imported cues placed on the timeline: text kept or re-wrapped, word
/// timings estimated across each placed span when asked.
pub open spec fn imported_spec(us: Seq<(u32, u32, Seq<char>)>, o: ImportOptions) -> Seq<
    (Seq<char>, TimeRange, Seq<(u32, u32, u32, u32)>),
> {
    let spans = separated_spans(import_spans(us, o.layout.min_duration_ms), o.layout.min_gap_ms);
    Seq::new(
        us.len(),
        |k: int|
            {
                let r = placed_range(o.placement, spans, k);
                let text = if o.rewrap {
                    wrap_spec(us[k].2, o.layout.max_chars_per_line)
                } else {
                    us[k].2
                };
                let cs = crate::timing::spec_ms(o.placement.rate, r.start.value - o.placement.offset_ticks);
                let words = if o.estimate_words {
                    estimate_spec(
                        text,
                        sub_floor(spans[k].0, cs as u32) as u32,
                        sub_floor(spans[k].1, cs as u32) as u32,
                    )
                } else {
                    Seq::empty()
                };
                (text, r, words)
            },
    )
}

/// What [`place_subtitles`] gives: `Err(())` when the layout is invalid or a
/// placed cue fails validation, the placed cues otherwise.
pub open spec fn place_subtitles_spec(cues: Seq<(u32, u32, Seq<char>)>, o: ImportOptions) -> Result<
    Seq<(Seq<char>, TimeRange, Seq<(u32, u32, u32, u32)>)>,
    (),
> {
    if !layout_valid(o.layout) {
        Err(())
    } else {
        let us = usable_cues(cues);
        if us.len() == 0 {
            Ok(Seq::empty())
        } else {
            let placed = imported_spec(us, o);
            if exists|k: int| 0 <= k < placed.len() && placed_refused(#[trigger] placed[k]) {
                Err(())
            } else {
                Ok(placed)
            }
        }
    }
}

/// Turn parsed subtitle cues into cue specs ready to become a caption group.
///
/// Cues without text are dropped. Overlapping cues (two speakers talking over
/// each other, which one lane of clips cannot show) are resolved by holding
/// the later cue until the earlier one ends; every cue is held at least the
/// layout's minimum, separated by its gap, and snapped to frames.
pub fn place_subtitles(cues: &[SubtitleCue], options: &ImportOptions) -> (r: Result<Vec<CaptionCueSpec>, CaptionError>)
    requires
        cues@.len() <= 0x1000_0000_0000_0000,
    ensures
        match r {
            Ok(specs) => place_subtitles_spec(cues_view(cues@), *options) == Ok::<_, ()>(
                cue_specs_view(specs@),
            ) && forall|i: int| 0 <= i < specs@.len() ==> (#[trigger] specs@[i]).speaker is None,
            Err(e) => e is Rules && place_subtitles_spec(cues_view(cues@), *options) is Err,
        },
{
    let ghost cv = cues_view(cues@);
    match options.layout.validate() {
        Ok(()) => {},
        Err(e) => {
            return Err(CaptionError::from_model(e));
        },
    }
    // The cues with text.
    let mut usable: Vec<&SubtitleCue> = Vec::new();
    let mut i: usize = 0;
    proof {
        assert(cv.take(0) =~= Seq::<(u32, u32, Seq<char>)>::empty());
    }
    while i < cues.len()
        invariant
            cv == cues_view(cues@),
            i <= cues@.len(),
            usable@.len() <= i,
            Seq::new(usable@.len(), |k: int| usable@[k]@) == usable_cues(cv.take(i as int)),
        decreases cues@.len() - i,
    {
        let ghost before = Seq::new(usable@.len(), |k: int| usable@[k]@);
        if !cues[i].text.as_str().is_empty() {
            usable.push(&cues[i]);
        }
        i += 1;
        proof {
            let t = cv.take(i as int);
            assert(t.drop_last() =~= cv.take(i - 1));
            assert(t.last() == cues@[i - 1]@);
            assert(Seq::new(usable@.len(), |k: int| usable@[k]@) =~= usable_cues(t));
        }
    }
    assert(cv.take(cues@.len() as int) =~= cv);
    let ghost us = usable_cues(cv);
    if usable.len() == 0 {
        proof {
            assert(cue_specs_view(Seq::<CaptionCueSpec>::empty()) =~= Seq::empty());
        }
        return Ok(Vec::new());
    }
    // Their spans, held apart and at least the minimum long.
    let min_ms = options.layout.min_duration_ms;
    let mut spans: Vec<(u32, u32)> = Vec::new();
    let mut previous_end: u32 = 0;
    let mut k: usize = 0;
    proof {
        lemma_import_spans_len(us, min_ms);
        assert(us.take(0) =~= Seq::<(u32, u32, Seq<char>)>::empty());
    }
    while k < usable.len()
        invariant
            us == Seq::new(usable@.len(), |j: int| usable@[j]@),
            k <= usable@.len(),
            spans@ == import_spans(us.take(k as int), min_ms),
            spans@.len() == k,
            previous_end == (if k == 0 { 0 } else { spans@.last().1 }),
        decreases usable@.len() - k,
    {
        let cue = usable[k];
        let start = if cue.start_ms >= previous_end {
            cue.start_ms
        } else {
            previous_end
        };
        let hold: u32 = if start as u64 + min_ms as u64 > 0xFFFF_FFFF {
            u32::MAX
        } else {
            start + min_ms
        };
        let end = if cue.end_ms >= hold {
            cue.end_ms
        } else {
            hold
        };
        previous_end = end;
        spans.push((start, end));
        k += 1;
        proof {
            let t = us.take(k as int);
            assert(t.drop_last() =~= us.take(k - 1));
            assert(t.last() == usable@[k - 1]@);
            lemma_import_spans_len(us.take(k - 1), min_ms);
        }
    }
    assert(us.take(usable@.len() as int) =~= us);
    separate_spans(&mut spans, options.layout.min_gap_ms);
    let ghost sep = separated_spans(import_spans(us, min_ms), options.layout.min_gap_ms);
    assert(spans@ =~= sep);
    let placement = options.placement;
    let ranges = snap_spans(placement, &spans);
    let ghost placed = imported_spec(us, *options);
    proof {
        crate::timing::lemma_snapped(placement.rate, spans@);
    }
    let mut specs: Vec<CaptionCueSpec> = Vec::new();
    k = 0;
    while k < usable.len()
        invariant
            us == Seq::new(usable@.len(), |j: int| usable@[j]@),
            k <= usable@.len(),
            placed == imported_spec(us, *options),
            layout_valid(options.layout),
            us == usable_cues(cues_view(cues@)),
            us.len() > 0,
            placement == options.placement,
            min_ms == options.layout.min_duration_ms,
            spans@ == sep,
            sep == separated_spans(import_spans(us, min_ms), options.layout.min_gap_ms),
            spans@.len() == usable@.len(),
            ranges@.len() == spans@.len(),
            spans@.len() <= 0x1000_0000_0000_0000,
            crate::timing::snapped(placement.rate, spans@).len() == spans@.len(),
            forall|i: int|
                0 <= i < spans@.len() ==> {
                    let s = #[trigger] crate::timing::snapped(placement.rate, spans@)[i];
                    &&& 0 <= s.0 < s.1
                    &&& s.1 <= crate::timing::max_tick() + i + 1
                },
            forall|i: int|
                0 <= i < spans@.len() ==> {
                    let s = crate::timing::snapped(placement.rate, spans@)[i];
                    &&& (#[trigger] ranges@[i]).start.value == sat_add_i64(
                        s.0,
                        placement.offset_ticks as int,
                    )
                    &&& ranges@[i].duration.value == s.1 - s.0
                    &&& ranges@[i].start.rate == placement.rate
                    &&& ranges@[i].duration.rate == placement.rate
                },
            specs@.len() == k,
            forall|i: int| 0 <= i < k ==> #[trigger] cue_spec_view(specs@[i]) == placed[i],
            forall|i: int| 0 <= i < k ==> (#[trigger] specs@[i]).speaker is None,
            forall|i: int| 0 <= i < k ==> !placed_refused(#[trigger] placed[i]),
        decreases usable@.len() - k,
    {
        let cue = usable[k];
        let timeline = ranges[k];
        let span = spans[k];
        proof {
            assert(placed_range(placement, spans@, k as int) == timeline);
            assert(us[k as int] == cue@);
        }
        let chars = chars_of(cue.text.as_str());
        let text: Vec<char> = if options.rewrap {
            wrap_chars(&chars, options.layout.max_chars_per_line)
        } else {
            chars
        };
        let shifted = timeline.start.value as i128 - placement.offset_ticks as i128;
        assert(i64::MIN <= shifted <= i64::MAX);
        let clip_start_ms = placement.ms(shifted as i64);
        let words = if options.estimate_words {
            let from: u32 = if span.0 >= clip_start_ms {
                span.0 - clip_start_ms
            } else {
                0
            };
            let to: u32 = if span.1 >= clip_start_ms {
                span.1 - clip_start_ms
            } else {
                0
            };
            let reread = chars_of(string_of(text.as_slice()).as_str());
            estimate_chars(&reread, from, to)
        } else {
            proof {
                assert(words_view(Seq::<CaptionWord>::empty()) =~= Seq::empty());
            }
            Vec::new()
        };
        let spec = CaptionCueSpec {
            text: string_of(text.as_slice()),
            timeline,
            words,
            speaker: None,
        };
        proof {
            assert(cue_spec_view(spec) == placed[k as int]);
        }
        match spec.validate() {
            Ok(()) => {},
            Err(e) => {
                proof {
                    assert(placed_refused(placed[k as int]));
                }
                return Err(CaptionError::from_model(e));
            },
        }
        specs.push(spec);
        k += 1;
    }
    proof {
        assert(cue_specs_view(specs@) =~= placed);
    }
    Ok(specs)
}

/// Whether cue `a` sorts no later than cue `b`: by start, then by end.
pub open spec fn cue_key_le(a: (u32, u32, Seq<char>), b: (u32, u32, Seq<char>)) -> bool {
    a.0 < b.0 || (a.0 == b.0 && a.1 <= b.1)
}

/// `x` inserted into `s` after every cue that sorts no later than it, scanning
/// from the back (one step of a stable insertion sort).
pub open spec fn insert_cue(s: Seq<(u32, u32, Seq<char>)>, x: (u32, u32, Seq<char>)) -> Seq<
    (u32, u32, Seq<char>),
>
    decreases s.len(),
{
    if s.len() == 0 {
        seq![x]
    } else if cue_key_le(s.last(), x) {
        s.push(x)
    } else {
        insert_cue(s.drop_last(), x).push(s.last())
    }
}

/// `s` sorted by start and end, cues with equal keys keeping their order.
pub open spec fn sort_cues(s: Seq<(u32, u32, Seq<char>)>) -> Seq<(u32, u32, Seq<char>)>
    decreases s.len(),
{
    if s.len() == 0 {
        Seq::empty()
    } else {
        insert_cue(sort_cues(s.drop_last()), s.last())
    }
}

/// Cues in ascending order of start, then end.
pub open spec fn cues_sorted(s: Seq<(u32, u32, Seq<char>)>) -> bool {
    forall|i: int, j: int| 0 <= i < j < s.len() ==> cue_key_le(s[i], s[j])
}

/// Inserting at `pos` is [`insert_cue`] when everything after `pos` sorts
/// after `x` and the cue before it does not.
pub proof fn lemma_insert_at(s: Seq<(u32, u32, Seq<char>)>, x: (u32, u32, Seq<char>), pos: int)
    requires
        0 <= pos <= s.len(),
        pos > 0 ==> cue_key_le(s[pos - 1], x),
        forall|j: int| pos <= j < s.len() ==> !cue_key_le(#[trigger] s[j], x),
    ensures
        insert_cue(s, x) == s.take(pos) + seq![x] + s.skip(pos),
    decreases s.len(),
{
    if s.len() == 0 {
        assert(s.take(pos) + seq![x] + s.skip(pos) =~= seq![x]);
    } else if pos == s.len() {
        assert(s.take(pos) + seq![x] + s.skip(pos) =~= s.push(x));
    } else {
        let init = s.drop_last();
        assert(!cue_key_le(s[s.len() - 1], x));
        lemma_insert_at(init, x, pos);
        assert(init.take(pos) + seq![x] + init.skip(pos) + seq![s.last()] =~= s.take(pos) + seq![x]
            + s.skip(pos));
    }
}

/// Insertion keeps a sorted list sorted, and holds the same cues plus `x`.
pub proof fn lemma_insert_sorted(s: Seq<(u32, u32, Seq<char>)>, x: (u32, u32, Seq<char>))
    requires
        cues_sorted(s),
    ensures
        cues_sorted(insert_cue(s, x)),
        insert_cue(s, x).to_multiset() == s.to_multiset().insert(x),
    decreases s.len(),
{
    broadcast use vstd::seq_lib::group_to_multiset_ensures;

    if s.len() == 0 {
        assert(seq![x] =~= s.push(x));
    } else if cue_key_le(s.last(), x) {
        let r = s.push(x);
        assert forall|i: int, j: int| 0 <= i < j < r.len() implies cue_key_le(r[i], r[j]) by {
            if j == s.len() && i < s.len() - 1 {
                assert(cue_key_le(s[i], s[s.len() - 1]));
            }
        }
    } else {
        let init = s.drop_last();
        let last = s.last();
        assert(cues_sorted(init));
        lemma_insert_sorted(init, x);
        let t = insert_cue(init, x);
        let r = t.push(last);
        assert forall|i: int| 0 <= i < t.len() implies cue_key_le(#[trigger] t[i], last) by {
            assert(t.contains(t[i]));
            assert(t.to_multiset().count(t[i]) > 0);
            if t[i] != x {
                assert(init.to_multiset().count(t[i]) > 0);
                assert(init.contains(t[i]));
                let k = choose|k: int| 0 <= k < init.len() && init[k] == t[i];
                assert(init[k] == s[k]);
                assert(cue_key_le(s[k], s[s.len() - 1]));
            }
        }
        assert forall|i: int, j: int| 0 <= i < j < r.len() implies cue_key_le(r[i], r[j]) by {
            if j == t.len() {
                assert(r[i] == t[i]);
            }
        }
        assert(s =~= init.push(last));
        assert(r.to_multiset() =~= s.to_multiset().insert(x));
    }
}

/// Sorting gives sorted cues, the same ones.
pub proof fn lemma_sort_cues(s: Seq<(u32, u32, Seq<char>)>)
    ensures
        cues_sorted(sort_cues(s)),
        sort_cues(s).to_multiset() == s.to_multiset(),
    decreases s.len(),
{
    broadcast use vstd::seq_lib::group_to_multiset_ensures;

    if s.len() > 0 {
        lemma_sort_cues(s.drop_last());
        lemma_insert_sorted(sort_cues(s.drop_last()), s.last());
        assert(s =~= s.drop_last().push(s.last()));
    } else {
        assert(s.to_multiset().len() == 0);
        assert(sort_cues(s).to_multiset() =~= s.to_multiset());
    }
}

/// A placed clip `(range, text)` back in subtitle milliseconds.
pub open spec fn clip_cue(c: (TimeRange, Seq<char>), p: Placement) -> (u32, u32, Seq<char>) {
    (
        crate::timing::spec_ms(p.rate, c.0.start.value - p.offset_ticks) as u32,
        crate::timing::spec_ms(p.rate, c.0.spec_end() - p.offset_ticks) as u32,
        c.1,
    )
}

/// The plain values of `(range, text)` pairs.
pub open spec fn clips_view(clips: Seq<(TimeRange, String)>) -> Seq<(TimeRange, Seq<char>)> {
    Seq::new(clips.len(), |i: int| (clips[i].0, clips[i].1@))
}

/// Whether every clip's start and end, less the offset, fit in `i64`.
pub open spec fn clips_fit(clips: Seq<(TimeRange, String)>, p: Placement) -> bool {
    forall|i: int|
        0 <= i < clips.len() ==> {
            &&& i64::MIN <= (#[trigger] clips[i]).0.start.value - p.offset_ticks <= i64::MAX
            &&& i64::MIN <= clips[i].0.spec_end() - p.offset_ticks <= i64::MAX
        }
}

/// Whether `a` sorts no later than `b` ([`cue_key_le`]).
fn cue_le(a: &SubtitleCue, b: &SubtitleCue) -> (r: bool)
    ensures
        r == cue_key_le(a@, b@),
{
    a.start_ms < b.start_ms || (a.start_ms == b.start_ms && a.end_ms <= b.end_ms)
}

/// Convert placed cue clips back into subtitle cues, for sidecar export:
/// times in milliseconds relative to the placement, sorted by start then end,
/// clips with equal times keeping their order.
///
/// Takes `(timeline range, text)` pairs so the caller does the model walk and
/// this stays a pure conversion.
pub fn subtitles_from_clips(clips: Vec<(TimeRange, String)>, placement: Placement) -> (cues: Vec<SubtitleCue>)
    requires
        clips_fit(clips@, placement),
    ensures
        cues_view(cues@) == sort_cues(
            Seq::new(clips@.len(), |i: int| clip_cue(clips_view(clips@)[i], placement)),
        ),
        cues_sorted(cues_view(cues@)),
        cues_view(cues@).to_multiset() == Seq::new(
            clips@.len(),
            |i: int| clip_cue(clips_view(clips@)[i], placement),
        ).to_multiset(),
{
    let ghost mapped = Seq::new(clips@.len(), |i: int| clip_cue(clips_view(clips@)[i], placement));
    let mut out: Vec<SubtitleCue> = Vec::new();
    let mut i: usize = 0;
    proof {
        assert(mapped.take(0) =~= Seq::<(u32, u32, Seq<char>)>::empty());
        assert(cues_view(out@) =~= Seq::<(u32, u32, Seq<char>)>::empty());
    }
    while i < clips.len()
        invariant
            mapped == Seq::new(clips@.len(), |i: int| clip_cue(clips_view(clips@)[i], placement)),
            clips_fit(clips@, placement),
            i <= clips@.len(),
            cues_view(out@) == sort_cues(mapped.take(i as int)),
        decreases clips@.len() - i,
    {
        let range = clips[i].0;
        assert(i64::MIN <= clips@[i as int].0.start.value - placement.offset_ticks <= i64::MAX);
        let start = placement.ms(range.start.value - placement.offset_ticks);
        let end = placement.ms(range.end_tick() - placement.offset_ticks);
        let cue = SubtitleCue { start_ms: start, end_ms: end, text: clips[i].1.clone() };
        assert(cue@ == mapped[i as int]);
        let ghost cur = cues_view(out@);
        proof {
            crate::subtitle::lemma_sort_cues(mapped.take(i as int));
        }
        let mut pos = out.len();
        while pos > 0 && !cue_le(&out[pos - 1], &cue)
            invariant
                pos <= out@.len(),
                cur == cues_view(out@),
                forall|j: int| pos <= j < out@.len() ==> !cue_key_le(#[trigger] cur[j], cue@),
            decreases pos,
        {
            assert(cur[pos - 1] == out@[pos - 1]@);
            pos -= 1;
        }
        proof {
            if pos > 0 {
                assert(cur[pos - 1] == out@[pos - 1]@);
            }
            lemma_insert_at(cur, cue@, pos as int);
        }
        let ghost before = out@;
        out.insert(pos, cue);
        i += 1;
        proof {
            let t = mapped.take(i as int);
            assert(t.drop_last() =~= mapped.take(i - 1));
            assert(cues_view(out@) =~= cur.take(pos as int) + seq![mapped[i - 1]] + cur.skip(pos as int));
        }
    }
    proof {
        assert(mapped.take(clips@.len() as int) =~= mapped);
        lemma_sort_cues(mapped);
    }
    out
}

} // verus!
