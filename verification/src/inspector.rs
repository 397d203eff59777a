//! Lookups behind the caption inspector: which group the sheet shows, the
//! subtitle-style clock the cue list prints, and the sheet's raw numbers
//! read back into the model's terms.

use vstd::prelude::*;

use crate::caption::group::chars_eq;
use crate::caption::highlight::CaptionHighlightMode;
use crate::format::{padded, push_padded};
use crate::text::{chars_of, string_of};

verus! {

/// Which of the listed caption groups (by id) the inspector shows for
/// `group_id`: the first with that id, and none for an empty id, which is
/// how the sheet says "no group".
pub fn group(group_ids: &Vec<String>, group_id: &str) -> (r: Option<usize>)
    ensures
        group_id@.len() == 0 ==> r is None,
        group_id@.len() > 0 ==> match r {
            Some(i) => i < group_ids@.len() && group_ids@[i as int]@ == group_id@ && forall|j: int|
                0 <= j < i ==> group_ids@[j]@ != group_id@,
            None => forall|j: int| 0 <= j < group_ids@.len() ==> group_ids@[j]@ != group_id@,
        },
{
    let wanted = chars_of(group_id);
    if wanted.len() == 0 {
        return None;
    }
    let mut i: usize = 0;
    while i < group_ids.len()
        invariant
            wanted@ == group_id@,
            wanted@.len() > 0,
            i <= group_ids@.len(),
            forall|j: int| 0 <= j < i ==> group_ids@[j]@ != group_id@,
        decreases group_ids@.len() - i,
    {
        let candidate = chars_of(group_ids[i].as_str());
        if chars_eq(&candidate, &wanted) {
            return Some(i);
        }
        i += 1;
    }
    None
}

/// `x / n` rounded toward zero, for a positive `n`.
pub open spec fn div_trunc(x: int, n: int) -> int {
    if x >= 0 {
        x / n
    } else {
        -((-x) / n)
    }
}

/// Hundredths of a second at `tick` of a `num / den` rate, rounded toward
/// zero.
pub open spec fn hundredths(tick: int, num: int, den: int) -> int {
    div_trunc(tick * 100 * den, num)
}

/// `tick` as `m:ss.cs` (a minus sign before negative times); `0:00.00` for an
/// unusable rate.
pub open spec fn clock_text(tick: int, num: int, den: int) -> Seq<char> {
    if num <= 0 || den <= 0 {
        seq!['0', ':', '0', '0', '.', '0', '0']
    } else {
        let h = hundredths(tick, num, den);
        let a = if h < 0 {
            -h
        } else {
            h
        };
        let sign = if h < 0 {
            seq!['-']
        } else {
            Seq::<char>::empty()
        };
        sign + padded((a / 6000) as nat, 0) + seq![':'] + padded(((a / 100) % 60) as nat, 2) + seq!['.']
            + padded((a % 100) as nat, 2)
    }
}

/// Whether the hundredths of `tick` can be computed in `i64`.
pub open spec fn clock_fits(tick: int, num: int, den: int) -> bool {
    num <= 0 || den <= 0 || -0x7FFF_FFFF_FFFF_FFFF <= tick * 100 * den <= 0x7FFF_FFFF_FFFF_FFFF
}

/// A tick as `m:ss.cs`: subtitle style rather than SMPTE, since cue lists are
/// read as speech timings and hundredths say more there than a frame index.
pub fn clock(tick: i32, fps_num: i32, fps_den: i32) -> (r: String)
    requires
        clock_fits(tick as int, fps_num as int, fps_den as int),
    ensures
        r@ == clock_text(tick as int, fps_num as int, fps_den as int),
{
    if fps_num <= 0 || fps_den <= 0 {
        let out = vec!['0', ':', '0', '0', '.', '0', '0'];
        proof {
            assert(out@ =~= clock_text(tick as int, fps_num as int, fps_den as int));
        }
        return string_of(out.as_slice());
    }
    let x: i64 = tick as i64 * 100 * fps_den as i64;
    let h: i64 = x / fps_num as i64;
    proof {
        assert(h == hundredths(tick as int, fps_num as int, fps_den as int)) by {
            let xi = tick as int * 100 * fps_den as int;
            if xi < 0 {
                assert(-xi > 0);
            }
        }
    }
    let a: u64 = if h < 0 {
        (0 - h) as u64
    } else {
        h as u64
    };
    let mut out: Vec<char> = Vec::new();
    if h < 0 {
        out.push('-');
    }
    push_padded(&mut out, a / 6000, 0);
    out.push(':');
    push_padded(&mut out, (a / 100) % 60, 2);
    out.push('.');
    push_padded(&mut out, a % 100, 2);
    proof {
        let sign = if h < 0 {
            seq!['-']
        } else {
            Seq::<char>::empty()
        };
        assert(out@ =~= sign + padded((a / 6000) as nat, 0) + seq![':'] + padded(((a / 100) % 60) as nat, 2)
            + seq!['.'] + padded((a % 100) as nat, 2));
    }
    string_of(out.as_slice())
}

/// The cue list's timecode for a cue: `start → end` as two clocks.
pub fn timecode(start: i32, duration: i32, fps_num: i32, fps_den: i32) -> (r: String)
    requires
        i32::MIN <= start + duration <= i32::MAX,
        clock_fits(start as int, fps_num as int, fps_den as int),
        clock_fits(start + duration, fps_num as int, fps_den as int),
    ensures
        r@ == clock_text(start as int, fps_num as int, fps_den as int) + seq![' ', '→', ' '] + clock_text(
            start + duration,
            fps_num as int,
            fps_den as int,
        ),
{
    let from = chars_of(clock(start, fps_num, fps_den).as_str());
    let to = chars_of(clock(start + duration, fps_num, fps_den).as_str());
    let mut out = from;
    out.push(' ');
    out.push('→');
    out.push(' ');
    let mut i: usize = 0;
    let ghost head = out@;
    while i < to.len()
        invariant
            i <= to@.len(),
            out@ == head + to@.take(i as int),
        decreases to@.len() - i,
    {
        out.push(to[i]);
        proof {
            assert(to@.take(i + 1) =~= to@.take(i as int).push(to@[i as int]));
        }
        i += 1;
    }
    proof {
        assert(to@.take(to@.len() as int) =~= to@);
    }
    string_of(out.as_slice())
}


/// The highlight mode the sheet's number picks: 0 off, 1 word, 2 line, and
/// none for any other number.
pub fn highlight_mode(mode: i32) -> (r: Option<CaptionHighlightMode>)
    ensures
        r == (if mode == 0 {
            Some(CaptionHighlightMode::Off)
        } else if mode == 1 {
            Some(CaptionHighlightMode::Word)
        } else if mode == 2 {
            Some(CaptionHighlightMode::Line)
        } else {
            None
        }),
{
    if mode == 0 {
        Some(CaptionHighlightMode::Off)
    } else if mode == 1 {
        Some(CaptionHighlightMode::Word)
    } else if mode == 2 {
        Some(CaptionHighlightMode::Line)
    } else {
        None
    }
}

/// `value` clamped into `lo..=hi`.
pub open spec fn clamped(value: int, lo: int, hi: int) -> int {
    if value < lo {
        lo
    } else if value > hi {
        hi
    } else {
        value
    }
}

/// A line budget from the sheet, clamped into what a layout holds. The
/// layout's own validation decides the real bounds; this only keeps a wild
/// value from wrapping around.
pub fn line_budget(max_chars_per_line: i32) -> (r: u16)
    ensures
        r == clamped(max_chars_per_line as int, 0, u16::MAX as int),
{
    if max_chars_per_line < 0 {
        0
    } else if max_chars_per_line > 0xFFFF {
        0xFFFF
    } else {
        max_chars_per_line as u16
    }
}

/// A line count from the sheet, clamped into what a layout holds.
pub fn line_count(max_lines: i32) -> (r: u8)
    ensures
        r == clamped(max_lines as int, 0, u8::MAX as int),
{
    if max_lines < 0 {
        0
    } else if max_lines > 0xFF {
        0xFF
    } else {
        max_lines as u8
    }
}

/// A colour channel from the sheet, clamped into `0..=255`.
pub fn channel(value: i32) -> (r: u8)
    ensures
        r == clamped(value as int, 0, 255),
{
    if value < 0 {
        0
    } else if value > 255 {
        255
    } else {
        value as u8
    }
}

} // verus!
