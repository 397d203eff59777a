//! What the Auto Captions dialog says while a transcription runs: the phase
//! it is in, and how far a download or inference step has got.

use vstd::prelude::*;

use crate::format::{dec, padded, push_padded};
use crate::text::{chars_of, string_of};

verus! {

/// One phase of a transcription.
#[derive(Debug, Clone, Copy, PartialEq, Eq, Structural)]
pub enum Stage {
    Preparing,
    Cached,
    Model,
    Decoding,
    Transcribing,
    Placing,
    Cancelling,
}

impl Stage {
    /// The spec value of [`Self::label`].
    pub open spec fn spec_label(self) -> Seq<char> {
        match self {
            Stage::Preparing => "Checking the clip's audio…"@,
            Stage::Cached => "Reading the cached transcript…"@,
            Stage::Model => "Installing the speech model…"@,
            Stage::Decoding => "Decoding audio…"@,
            Stage::Transcribing => "Transcribing speech…"@,
            Stage::Placing => "Writing captions…"@,
            Stage::Cancelling => "Cancelling…"@,
        }
    }

    /// What the dialog says during this phase.
    pub fn label(self) -> (r: String)
        ensures
            r@ == self.spec_label(),
    {
        let text = match self {
            Stage::Preparing => "Checking the clip's audio…",
            Stage::Cached => "Reading the cached transcript…",
            Stage::Model => "Installing the speech model…",
            Stage::Decoding => "Decoding audio…",
            Stage::Transcribing => "Transcribing speech…",
            Stage::Placing => "Writing captions…",
            Stage::Cancelling => "Cancelling…",
        };
        string_of(chars_of(text).as_slice())
    }

    /// Phases that cannot say how far along they are, so the dialog animates
    /// instead of showing a bar that never moves.
    pub fn is_indeterminate(self) -> (r: bool)
        ensures
            r == (self is Preparing || self is Cached || self is Decoding || self is Placing || self is Cancelling),
    {
        match self {
            Stage::Preparing | Stage::Cached | Stage::Decoding | Stage::Placing | Stage::Cancelling => true,
            _ => false,
        }
    }
}

/// Thousandths done of a `done` of `total` bytes download: none for an
/// unknown total, otherwise the part done (capped at the total) rounded down.
pub fn per_mille_of(done: u64, total: u64) -> (r: Option<u32>)
    requires
        (if done < total {
            done
        } else {
            total
        }) * 1000 <= u64::MAX,
    ensures
        total == 0 ==> r is None,
        total > 0 ==> r == Some(
            ((if done < total {
                done
            } else {
                total
            }) * 1000 / total as int) as u32,
        ),
{
    if total == 0 {
        return None;
    }
    let part = if done < total {
        done
    } else {
        total
    };
    Some(((part * 1000) / total) as u32)
}

/// Thousandths done for a step that reports whole percent (capped at 100).
pub fn per_mille_of_percent(percent: u8) -> (r: u32)
    ensures
        r == (if percent < 100 {
            percent
        } else {
            100
        }) * 10,
{
    let p: u32 = if percent < 100 {
        percent as u32
    } else {
        100
    };
    p * 10
}

/// The detail line of a download: `"{done} MB of {total} MB"` in whole
/// megabytes (10^6 bytes, rounded down), the part done capped at the total;
/// none while the total is unknown.
pub fn byte_detail(done: u64, total: u64) -> (r: Option<String>)
    ensures
        total == 0 ==> r is None,
        total > 0 ==> (r matches Some(s) && s@ == dec(((if done < total {
            done
        } else {
            total
        }) / 1_000_000) as nat) + " MB of "@ + dec((total / 1_000_000) as nat) + " MB"@),
{
    if total == 0 {
        return None;
    }
    let part = if done < total {
        done
    } else {
        total
    };
    let mut out: Vec<char> = Vec::new();
    push_padded(&mut out, part / 1_000_000, 0);
    let middle = chars_of(" MB of ");
    let tail = chars_of(" MB");
    let mut i: usize = 0;
    let ghost head = out@;
    while i < middle.len()
        invariant
            i <= middle@.len(),
            out@ == head + middle@.take(i as int),
        decreases middle@.len() - i,
    {
        out.push(middle[i]);
        proof {
            assert(middle@.take(i + 1) =~= middle@.take(i as int).push(middle@[i as int]));
        }
        i += 1;
    }
    proof {
        assert(middle@.take(middle@.len() as int) =~= middle@);
    }
    push_padded(&mut out, total / 1_000_000, 0);
    let mut j: usize = 0;
    let ghost head2 = out@;
    while j < tail.len()
        invariant
            j <= tail@.len(),
            out@ == head2 + tail@.take(j as int),
        decreases tail@.len() - j,
    {
        out.push(tail[j]);
        proof {
            assert(tail@.take(j + 1) =~= tail@.take(j as int).push(tail@[j as int]));
        }
        j += 1;
    }
    proof {
        assert(tail@.take(tail@.len() as int) =~= tail@);
        assert(padded((part / 1_000_000) as nat, 0) == dec((part / 1_000_000) as nat));
        assert(padded((total / 1_000_000) as nat, 0) == dec((total / 1_000_000) as nat));
        assert(out@ =~= dec((part / 1_000_000) as nat) + " MB of "@ + dec((total / 1_000_000) as nat) + " MB"@);
    }
    Some(string_of(out.as_slice()))
}

} // verus!
