//! Caption layout rules: how speech breaks into readable lines.

use vstd::prelude::*;

use crate::error::ModelError;
use crate::text::chars_of;

verus! {

/// Fewest characters a line may be limited to.
pub const MIN_CAPTION_CHARS_PER_LINE: u16 = 8;

/// Most characters a line may be limited to.
pub const MAX_CAPTION_CHARS_PER_LINE: u16 = 256;

/// Most lines one cue may hold.
pub const MAX_CAPTION_LINES: u8 = 6;

/// Longest a cue may be held, in milliseconds.
pub const MAX_CAPTION_DURATION_MS: u32 = 30_000;

/// How a caption group breaks speech into readable lines.
///
/// These are the segmentation rules: the recognizer and subtitle importers
/// consult them when splitting words into cues, and re-flowing a group applies
/// them again.
#[derive(Debug, Clone, Copy, PartialEq, Eq, Structural)]
pub struct CaptionLayout {
    /// Soft ceiling on characters per line before the segmenter breaks.
    pub max_chars_per_line: u16,
    /// Lines allowed in one cue before it becomes a new cue.
    pub max_lines: u8,
    /// Shortest a cue may be held, even for a single quick word.
    pub min_duration_ms: u32,
    /// Longest a cue may run before it is split.
    pub max_duration_ms: u32,
    /// Gap left between consecutive cues, so lines visibly change.
    pub min_gap_ms: u32,
}

/// Whether the rules are usable: a line budget in range, at least one and at
/// most [`MAX_CAPTION_LINES`] lines, `0 < min <= max <= 30 s` holds, and the gap
/// no longer than the minimum hold.
pub open spec fn layout_valid(l: CaptionLayout) -> bool {
    &&& MIN_CAPTION_CHARS_PER_LINE <= l.max_chars_per_line <= MAX_CAPTION_CHARS_PER_LINE
    &&& 1 <= l.max_lines <= MAX_CAPTION_LINES
    &&& 0 < l.min_duration_ms <= l.max_duration_ms <= MAX_CAPTION_DURATION_MS
    &&& l.min_gap_ms <= l.min_duration_ms
}

/// The default rules: two lines of up to 32 characters, held 0.6–5 s, 40 ms
/// apart.
pub open spec fn default_layout_spec() -> CaptionLayout {
    CaptionLayout {
        max_chars_per_line: 32,
        max_lines: 2,
        min_duration_ms: 600,
        max_duration_ms: 5_000,
        min_gap_ms: 40,
    }
}

/// The first rule `l` breaks, as [`CaptionLayout::validate`] words it.
pub open spec fn layout_fault_text(l: CaptionLayout) -> Seq<char> {
    if l.max_chars_per_line < MIN_CAPTION_CHARS_PER_LINE || l.max_chars_per_line > MAX_CAPTION_CHARS_PER_LINE {
        "caption max_chars_per_line must be within 8..=256"@
    } else if l.max_lines == 0 || l.max_lines > MAX_CAPTION_LINES {
        "caption max_lines must be within 1..=6"@
    } else if l.min_duration_ms == 0 || l.max_duration_ms > MAX_CAPTION_DURATION_MS || l.min_duration_ms
        > l.max_duration_ms {
        "caption durations must satisfy 0 < min <= max <= 30000 ms"@
    } else {
        "caption min_gap_ms must not exceed min_duration_ms"@
    }
}

impl CaptionLayout {
    /// Two short lines, held 0.6–5 s, 40 ms apart.
    pub fn default_layout() -> (l: CaptionLayout)
        ensures
            l == default_layout_spec(),
            layout_valid(l),
    {
        CaptionLayout {
            max_chars_per_line: 32,
            max_lines: 2,
            min_duration_ms: 600,
            max_duration_ms: 5_000,
            min_gap_ms: 40,
        }
    }

    /// Total characters one cue may hold across all its lines.
    pub fn max_chars_per_cue(&self) -> (n: usize)
        ensures
            n == self.max_chars_per_line * (if self.max_lines == 0 {
                1
            } else {
                self.max_lines as int
            }),
    {
        let lines: usize = if self.max_lines == 0 {
            1
        } else {
            self.max_lines as usize
        };
        assert(self.max_chars_per_line as int * lines as int <= 65535 * 255) by (nonlinear_arith)
            requires
                self.max_chars_per_line <= 65535,
                lines <= 255,
        ;
        self.max_chars_per_line as usize * lines
    }

    /// Check the rules; `Ok` exactly when [`layout_valid`] holds, else the
    /// first broken rule, named.
    pub fn validate(&self) -> (r: Result<(), ModelError>)
        ensures
            r is Ok <==> layout_valid(*self),
            r matches Err(e) ==> (e matches ModelError::InvalidParam(m) && m@ == layout_fault_text(*self)),
    {
        if self.max_chars_per_line < MIN_CAPTION_CHARS_PER_LINE || self.max_chars_per_line
            > MAX_CAPTION_CHARS_PER_LINE {
            return Err(
                ModelError::invalid(chars_of("caption max_chars_per_line must be within 8..=256")),
            );
        }
        if self.max_lines == 0 || self.max_lines > MAX_CAPTION_LINES {
            return Err(ModelError::invalid(chars_of("caption max_lines must be within 1..=6")));
        }
        if self.min_duration_ms == 0 || self.max_duration_ms > MAX_CAPTION_DURATION_MS
            || self.min_duration_ms > self.max_duration_ms {
            return Err(
                ModelError::invalid(
                    chars_of("caption durations must satisfy 0 < min <= max <= 30000 ms"),
                ),
            );
        }
        if self.min_gap_ms > self.min_duration_ms {
            return Err(
                ModelError::invalid(chars_of("caption min_gap_ms must not exceed min_duration_ms")),
            );
        }
        Ok(())
    }
}

impl Default for CaptionLayout {
    fn default() -> (l: CaptionLayout)
        ensures
            l == default_layout_spec(),
    {
        CaptionLayout::default_layout()
    }
}

} // verus!
