//! Shared subtitle-file syntax: timestamps, inline markup, line numbering and
//! the cue-block walk that SubRip and WebVTT have in common.

use vstd::prelude::*;

use crate::error::CaptionError;
use crate::subtitle::{cues_view, SubtitleCue};
use crate::text::{
    blank, chars_of, find_from, is_blank, is_whitespace, is_ws, lemma_find_from, string_of, trim,
    trim_bounds, trim_start,
};

verus! {

/// `'0'..='9'`.
pub open spec fn is_digit(c: char) -> bool {
    '0' <= c && c <= '9'
}

/// The value of a digit character.
pub open spec fn digit_val(c: char) -> nat {
    (c as u32 - '0' as u32) as nat
}

/// Every character is an ASCII digit.
pub open spec fn all_digits(s: Seq<char>) -> bool {
    forall|i: int| 0 <= i < s.len() ==> is_digit(#[trigger] s[i])
}

/// The decimal number a digit string spells.
pub open spec fn decimal(s: Seq<char>) -> nat
    decreases s.len(),
{
    if s.len() == 0 {
        0
    } else {
        decimal(s.drop_last()) * 10 + digit_val(s.last())
    }
}

/// `s` split at every `sep` (`str::split`): one more piece than separators.
pub open spec fn split_on(s: Seq<char>, sep: char) -> Seq<Seq<char>>
    decreases s.len(),
{
    let k = find_from(s, 0, sep);
    if k >= s.len() {
        seq![s]
    } else {
        proof {
            lemma_find_from(s, 0, sep);
        }
        seq![s.take(k)] + split_on(s.skip(k + 1), sep)
    }
}

/// One colon-separated field of a timestamp: trimmed, non-empty, all digits.
pub open spec fn field_value(p: Seq<char>) -> Option<nat> {
    let t = trim(p);
    if t.len() > 0 && all_digits(t) {
        Some(decimal(t))
    } else {
        None
    }
}

/// The fields read as base-60 digits (`HH:MM:SS` → seconds).
pub open spec fn sexagesimal(parts: Seq<Seq<char>>) -> Option<nat>
    decreases parts.len(),
{
    if parts.len() == 0 {
        Some(0)
    } else {
        match (sexagesimal(parts.drop_last()), field_value(parts.last())) {
            (Some(a), Some(b)) => Some(a * 60 + b),
            _ => None,
        }
    }
}

/// The `i`-th fraction digit's value, zero past the end.
pub open spec fn frac_digit(t: Seq<char>, i: int) -> nat {
    if i < t.len() {
        digit_val(t[i])
    } else {
        0
    }
}

/// A fraction of a second read to millisecond precision: padded or truncated
/// to three digits.
pub open spec fn fraction_ms(f: Seq<char>) -> Option<nat> {
    let t = trim(f);
    if t.len() > 0 && all_digits(t) {
        Some(frac_digit(t, 0) * 100 + frac_digit(t, 1) * 10 + frac_digit(t, 2))
    } else {
        None
    }
}

/// First index `k >= i` holding `,` or `.`, or `s.len()`.
pub open spec fn find_fraction(s: Seq<char>, i: int) -> int
    decreases s.len() - i,
{
    if i >= s.len() {
        s.len() as int
    } else if s[i] == ',' || s[i] == '.' {
        i
    } else {
        find_fraction(s, i + 1)
    }
}

pub proof fn lemma_find_fraction(s: Seq<char>, i: int)
    requires
        0 <= i <= s.len(),
    ensures
        i <= find_fraction(s, i) <= s.len(),
        forall|k: int| i <= k < find_fraction(s, i) ==> s[k] != ',' && s[k] != '.',
        find_fraction(s, i) < s.len() ==> (s[find_fraction(s, i)] == ',' || s[find_fraction(
            s,
            i,
        )] == '.'),
    decreases s.len() - i,
{
    if i < s.len() && s[i] != ',' && s[i] != '.' {
        lemma_find_fraction(s, i + 1);
    }
}

/// The exact milliseconds a timestamp spells, before any range check:
/// `[[HH:]MM:]SS[(,|.)fff…]`, whitespace around the whole and each field
/// ignored, at most three colon-separated fields.
pub open spec fn timestamp_ms(s: Seq<char>) -> Option<nat> {
    let t = trim(s);
    let k = find_fraction(t, 0);
    let parts = split_on(t.take(k), ':');
    let frac = if k < t.len() {
        fraction_ms(t.skip(k + 1))
    } else {
        Some(0)
    };
    if t.len() == 0 || parts.len() > 3 {
        None
    } else {
        match (sexagesimal(parts), frac) {
            (Some(sec), Some(ms)) => Some(sec * 1000 + ms),
            _ => None,
        }
    }
}

/// What [`parse_timestamp`] returns: the timestamp's milliseconds when they fit
/// a `u32`.
pub open spec fn spec_parse_timestamp(s: Seq<char>) -> Option<u32> {
    match timestamp_ms(s) {
        Some(v) => if v <= u32::MAX {
            Some(v as u32)
        } else {
            None
        },
        None => None,
    }
}

/// The cap above which every value is "too large for a `u32`".
pub open spec fn cap() -> nat {
    0x1_0000_0000
}

pub open spec fn clip(v: nat) -> nat {
    if v < cap() {
        v
    } else {
        cap()
    }
}

proof fn lemma_decimal_push(s: Seq<char>, c: char)
    ensures
        decimal(s.push(c)) == decimal(s) * 10 + digit_val(c),
{
    assert(s.push(c).drop_last() =~= s);
}

/// Read `v[lo..hi]` as digits, clipped at `cap()`; `None` when it is empty or
/// holds a non-digit.
fn read_digits(v: &Vec<char>, lo: usize, hi: usize) -> (r: Option<u64>)
    requires
        lo <= hi <= v.len(),
    ensures
        r is Some <==> (hi > lo && all_digits(v@.subrange(lo as int, hi as int))),
        r matches Some(x) ==> x == clip(decimal(v@.subrange(lo as int, hi as int))),
{
    if lo == hi {
        return None;
    }
    let mut value: u64 = 0;
    let mut i = lo;
    while i < hi
        invariant
            lo <= i <= hi <= v.len(),
            all_digits(v@.subrange(lo as int, i as int)),
            value == clip(decimal(v@.subrange(lo as int, i as int))),
        decreases hi - i,
    {
        let c = v[i];
        if !('0' <= c && c <= '9') {
            proof {
                assert(v@.subrange(lo as int, hi as int)[i - lo] == c);
            }
            return None;
        }
        let d = (c as u32 - '0' as u32) as u64;
        proof {
            assert(v@.subrange(lo as int, i + 1) =~= v@.subrange(lo as int, i as int).push(c));
            lemma_decimal_push(v@.subrange(lo as int, i as int), c);
        }
        if value >= 0x1_0000_0000 {
            value = 0x1_0000_0000;
        } else {
            value = value * 10 + d;
            if value > 0x1_0000_0000 {
                value = 0x1_0000_0000;
            }
        }
        i += 1;
    }
    Some(value)
}


proof fn lemma_clip_step(a: nat, b: nat)
    ensures
        clip(clip(a) * 60 + clip(b)) == clip(a * 60 + b),
{
}

proof fn lemma_split_on_nonempty(s: Seq<char>, sep: char)
    ensures
        split_on(s, sep).len() >= 1,
{
    lemma_find_from(s, 0, sep);
}

proof fn lemma_sexagesimal_none_extends(p: Seq<Seq<char>>, q: Seq<Seq<char>>)
    requires
        sexagesimal(p) is None,
    ensures
        sexagesimal(p + q) is None,
    decreases q.len(),
{
    if q.len() == 0 {
        assert(p + q =~= p);
    } else {
        assert((p + q).drop_last() =~= p + q.drop_last());
        lemma_sexagesimal_none_extends(p, q.drop_last());
    }
}

/// Value of the fraction field `v[lo..hi]` as milliseconds.
#[verifier::loop_isolation(false)]
fn fraction_value(v: &Vec<char>, lo: usize, hi: usize) -> (r: Option<u64>)
    requires
        lo <= hi <= v.len(),
    ensures
        r matches Some(x) ==> fraction_ms(v@.subrange(lo as int, hi as int)) == Some(x as nat),
        r is None ==> fraction_ms(v@.subrange(lo as int, hi as int)) is None,
{
    let (a, b) = trim_bounds(v, lo, hi);
    let ghost t = v@.subrange(a as int, b as int);
    if a == b {
        return None;
    }
    let mut i = a;
    while i < b
        invariant
            a <= i <= b <= v.len(),
            t == v@.subrange(a as int, b as int),
            forall|j: int| a <= j < i ==> is_digit(#[trigger] v@[j]),
        decreases b - i,
    {
        if !('0' <= v[i] && v[i] <= '9') {
            proof {
                assert(t[i - a] == v@[i as int]);
                assert(!is_digit(t[i - a]));
            }
            return None;
        }
        i += 1;
    }
    assert(all_digits(t)) by {
        assert forall|j: int| 0 <= j < t.len() implies is_digit(#[trigger] t[j]) by {
            assert(t[j] == v@[a + j]);
        }
    }
    let d0 = (v[a] as u32 - '0' as u32) as u64;
    let d1 = if b - a > 1 {
        (v[a + 1] as u32 - '0' as u32) as u64
    } else {
        0
    };
    let d2 = if b - a > 2 {
        (v[a + 2] as u32 - '0' as u32) as u64
    } else {
        0
    };
    proof {
        assert(t[0] == v@[a as int]);
        if b - a > 1 {
            assert(t[1] == v@[a + 1]);
        }
        if b - a > 2 {
            assert(t[2] == v@[a + 2]);
        }
    }
    Some(d0 * 100 + d1 * 10 + d2)
}

/// [`parse_timestamp`] over the characters `v[lo..hi]`.
#[verifier::loop_isolation(false)]
pub fn parse_timestamp_chars(v: &Vec<char>, lo: usize, hi: usize) -> (r: Option<u32>)
    requires
        lo <= hi <= v.len(),
    ensures
        r == spec_parse_timestamp(v@.subrange(lo as int, hi as int)),
{
    let ghost s = v@.subrange(lo as int, hi as int);
    let (a, b) = trim_bounds(v, lo, hi);
    let ghost t = v@.subrange(a as int, b as int);
    assert(t == trim(s));
    if a == b {
        return None;
    }
    let mut k = a;
    while k < b && v[k] != ',' && v[k] != '.'
        invariant
            a <= k <= b <= v.len(),
            forall|j: int| a <= j < k ==> v@[j] != ',' && v@[j] != '.',
        decreases b - k,
    {
        k += 1;
    }
    proof {
        assert forall|j: int| 0 <= j < k - a implies t[j] != ',' && t[j] != '.' by {
            assert(t[j] == v@[a + j]);
        }
        if k < b {
            assert(t[k - a] == v@[k as int]);
        }
        lemma_find_fraction_char(t, k - a);
        assert(t.take(k - a) =~= v@.subrange(a as int, k as int));
        if k < b {
            assert(t.skip(k - a + 1) =~= v@.subrange(k + 1, b as int));
        }
    }
    let ghost whole = v@.subrange(a as int, k as int);
    let ghost parts = split_on(whole, ':');
    let ghost frac_spec = if k < b {
        fraction_ms(v@.subrange(k + 1, b as int))
    } else {
        Some(0nat)
    };
    assert(find_fraction(trim(s), 0) == k - a);
    assert(trim(s).take(k - a) == whole);
    assert(split_on(trim(s).take(find_fraction(trim(s), 0)), ':') == parts);
    assert(timestamp_ms(s) == (if parts.len() > 3 {
        None
    } else {
        match (sexagesimal(parts), frac_spec) {
            (Some(sec), Some(ms)) => Some(sec * 1000 + ms),
            _ => None,
        }
    }));
    let mut seconds: u64 = 0;
    let mut count: usize = 0;
    let mut ps = a;
    let ghost mut done: Seq<Seq<char>> = seq![];
    loop
        invariant
            a <= ps <= k < b <= v.len() || (a <= ps <= k == b <= v.len()),
            done + split_on(v@.subrange(ps as int, k as int), ':') == parts,
            sexagesimal(done) is Some,
            seconds == clip(sexagesimal(done)->0),
            count == done.len(),
            count <= 3,
        decreases k - ps,
    {
        let ghost rest = v@.subrange(ps as int, k as int);
        let mut e = ps;
        while e < k && v[e] != ':'
            invariant
                ps <= e <= k < v.len() || (ps <= e <= k <= v.len()),
                forall|j: int| ps <= j < e ==> v@[j] != ':',
            decreases k - e,
        {
            e += 1;
        }
        proof {
            assert forall|j: int| 0 <= j < e - ps implies rest[j] != ':' by {
                assert(rest[j] == v@[ps + j]);
            }
            if e < k {
                assert(rest[e - ps] == v@[e as int]);
            }
            lemma_find_from_char(rest, e - ps, ':');
            lemma_split_on_nonempty(rest, ':');
        }
        let ghost part = v@.subrange(ps as int, e as int);
        if count == 3 {
            proof {
                assert(parts.len() > 3);
                assert(timestamp_ms(s) is None);
            }
            return None;
        }
        proof {
            if e < k {
                assert(rest.take(e - ps) =~= part);
                assert(rest.skip(e - ps + 1) =~= v@.subrange(e + 1, k as int));
                lemma_split_on_nonempty(v@.subrange(e + 1, k as int), ':');
                assert(split_on(rest, ':') == seq![part] + split_on(
                    v@.subrange(e + 1, k as int),
                    ':',
                ));
            } else {
                assert(rest =~= part);
                assert(split_on(rest, ':') == seq![part]);
            }
        }
        let (pa, pb) = trim_bounds(v, ps, e);
        let x = match read_digits(v, pa, pb) {
            Some(x) => x,
            None => {
                proof {
                    assert(field_value(part) is None);
                    assert(done.push(part).drop_last() =~= done);
                    assert(sexagesimal(done.push(part)) is None);
                    let tail = if e < k {
                        split_on(v@.subrange(e + 1, k as int), ':')
                    } else {
                        seq![]
                    };
                    assert(parts =~= done.push(part) + tail);
                    lemma_sexagesimal_none_extends(done.push(part), tail);
                    assert(sexagesimal(parts) is None);
                    assert(timestamp_ms(s) is None);
                }
                return None;
            },
        };
        proof {
            assert(field_value(part) == Some(decimal(v@.subrange(pa as int, pb as int))));
            assert(done.push(part).drop_last() =~= done);
            lemma_clip_step(sexagesimal(done)->0, decimal(v@.subrange(pa as int, pb as int)));
        }
        let next = seconds * 60 + x;
        seconds = if next > 0x1_0000_0000 {
            0x1_0000_0000
        } else {
            next
        };
        count += 1;
        proof {
            done = done.push(part);
        }
        if e == k {
            proof {
                assert(done =~= parts);
            }
            break;
        }
        proof {
            assert(done + split_on(v@.subrange(e + 1, k as int), ':') =~= parts);
        }
        ps = e + 1;
    }
    let frac: u64 = if k < b {
        match fraction_value(v, k + 1, b) {
            Some(f) => f,
            None => return None,
        }
    } else {
        0
    };
    proof {
        assert(sexagesimal(parts) == Some(sexagesimal(done)->0));
    }
    if seconds >= 0x1_0000_0000 {
        assert(timestamp_ms(s) matches Some(x) && x > u32::MAX);
        return None;
    }
    assert(timestamp_ms(s) == Some((seconds * 1000 + frac) as nat));
    let total = seconds * 1000 + frac;
    if total > 0xFFFF_FFFF {
        None
    } else {
        Some(total as u32)
    }
}

proof fn lemma_find_fraction_char(s: Seq<char>, k: int)
    requires
        0 <= k <= s.len(),
        forall|j: int| 0 <= j < k ==> s[j] != ',' && s[j] != '.',
        k < s.len() ==> (s[k] == ',' || s[k] == '.'),
    ensures
        find_fraction(s, 0) == k,
{
    lemma_find_fraction_from(s, 0, k);
}

proof fn lemma_find_fraction_from(s: Seq<char>, i: int, k: int)
    requires
        0 <= i <= k <= s.len(),
        forall|j: int| i <= j < k ==> s[j] != ',' && s[j] != '.',
        k < s.len() ==> (s[k] == ',' || s[k] == '.'),
    ensures
        find_fraction(s, i) == k,
    decreases k - i,
{
    if i < k {
        lemma_find_fraction_from(s, i + 1, k);
    }
}

proof fn lemma_find_from_char(s: Seq<char>, k: int, c: char)
    requires
        0 <= k <= s.len(),
        forall|j: int| 0 <= j < k ==> s[j] != c,
        k < s.len() ==> s[k] == c,
    ensures
        find_from(s, 0, c) == k,
{
    lemma_find_from_at(s, 0, k, c);
}

pub proof fn lemma_find_from_at(s: Seq<char>, i: int, k: int, c: char)
    requires
        0 <= i <= k <= s.len(),
        forall|j: int| i <= j < k ==> s[j] != c,
        k < s.len() ==> s[k] == c,
    ensures
        find_from(s, i, c) == k,
    decreases k - i,
{
    if i < k {
        lemma_find_from_at(s, i + 1, k, c);
    }
}

/// Parse `HH:MM:SS,mmm`, `HH:MM:SS.mmm`, or the hour-less `MM:SS.mmm` into
/// milliseconds.
///
/// Both separators are accepted for both formats, and fractions of any length
/// are read to millisecond precision. `None` for anything malformed or past
/// what a `u32` of milliseconds holds.
pub fn parse_timestamp(text: &str) -> (r: Option<u32>)
    ensures
        r == spec_parse_timestamp(text@),
{
    let v = chars_of(text);
    let r = parse_timestamp_chars(&v, 0, v.len());
    assert(v@.subrange(0, v@.len() as int) =~= v@);
    r
}


/// The digit character for `d < 10`.
pub open spec fn digit_char(d: nat) -> char {
    (('0' as u32) + d) as char
}

/// The decimal representation of `n`, without leading zeros.
pub open spec fn dec(n: nat) -> Seq<char>
    decreases n,
{
    if n < 10 {
        seq![digit_char(n)]
    } else {
        dec(n / 10).push(digit_char(n % 10))
    }
}

/// `n` in decimal, left-padded with zeros to at least `w` characters
/// (`{n:0w}`).
pub open spec fn padded(n: nat, w: nat) -> Seq<char> {
    let d = dec(n);
    if d.len() >= w {
        d
    } else {
        Seq::new((w - d.len()) as nat, |i: int| '0') + d
    }
}

/// `HH:MM:SS<sep>mmm` for `ms` milliseconds.
pub open spec fn timestamp_text(ms: nat, sep: char) -> Seq<char> {
    let seconds = ms / 1000;
    let minutes = seconds / 60;
    let hours = minutes / 60;
    padded(hours, 2) + seq![':'] + padded(minutes % 60, 2) + seq![':'] + padded(seconds % 60, 2)
        + seq![sep] + padded(ms % 1000, 3)
}

/// Append the decimal digits of `n`, zero-padded to `w` characters.
pub fn push_padded(out: &mut Vec<char>, n: u64, w: usize)
    ensures
        final(out)@ == old(out)@ + padded(n as nat, w as nat),
{
    let mut digits: Vec<char> = Vec::new();
    let mut q = n;
    while q >= 10
        invariant
            dec(n as nat) == dec(q as nat) + digits@,
        decreases q,
    {
        let d = q % 10;
        let c = char_of_digit(d);
        let ghost before = digits@;
        digits.insert(0, c);
        proof {
            assert(dec(q as nat) == dec((q / 10) as nat).push(digit_char((q % 10) as nat)));
            assert(digits@ =~= seq![c] + before);
            assert(dec(q as nat) + before =~= dec((q / 10) as nat) + digits@);
        }
        q = q / 10;
    }
    let c = char_of_digit(q);
    digits.insert(0, c);
    assert(digits@ =~= dec(n as nat));
    let mut pad = digits.len();
    while pad < w
        invariant
            old(out)@ == old(out)@,
            out@ == old(out)@ + Seq::new((pad - digits.len()) as nat, |i: int| '0'),
            digits.len() <= pad,
            pad == digits.len() || pad <= w,
            digits@ == dec(n as nat),
        decreases w - pad,
    {
        out.push('0');
        pad += 1;
        assert(out@ =~= old(out)@ + Seq::new((pad - digits.len()) as nat, |i: int| '0'));
    }
    let ghost zeros = out@;
    let mut i: usize = 0;
    while i < digits.len()
        invariant
            0 <= i <= digits.len(),
            out@ == zeros + digits@.take(i as int),
        decreases digits.len() - i,
    {
        out.push(digits[i]);
        i += 1;
        assert(out@ =~= zeros + digits@.take(i as int));
    }
    assert(digits@.take(i as int) =~= digits@);
    proof {
        if digits.len() >= w {
            assert(zeros =~= old(out)@);
        }
        assert(out@ =~= old(out)@ + padded(n as nat, w as nat));
    }
}

fn char_of_digit(d: u64) -> (c: char)
    requires
        d < 10,
    ensures
        c == digit_char(d as nat),
        is_digit(c),
        digit_val(c) == d,
{
    let c = if d == 0 {
        '0'
    } else if d == 1 {
        '1'
    } else if d == 2 {
        '2'
    } else if d == 3 {
        '3'
    } else if d == 4 {
        '4'
    } else if d == 5 {
        '5'
    } else if d == 6 {
        '6'
    } else if d == 7 {
        '7'
    } else if d == 8 {
        '8'
    } else {
        '9'
    };
    c
}

/// Append `HH:MM:SS<separator>mmm` for `ms`.
pub fn push_timestamp(out: &mut Vec<char>, ms: u32, separator: char)
    ensures
        final(out)@ == old(out)@ + timestamp_text(ms as nat, separator),
{
    let ghost start = out@;
    let seconds = ms / 1000;
    let millis = ms % 1000;
    let minutes = seconds / 60;
    let secs = seconds % 60;
    let hours = minutes / 60;
    let mins = minutes % 60;
    push_padded(out, hours as u64, 2);
    out.push(':');
    push_padded(out, mins as u64, 2);
    out.push(':');
    push_padded(out, secs as u64, 2);
    out.push(separator);
    push_padded(out, millis as u64, 3);
    assert(out@ =~= start + timestamp_text(ms as nat, separator));
}

/// Render milliseconds as `HH:MM:SS<separator>mmm`.
pub fn format_timestamp(ms: u32, separator: char) -> (out: String)
    ensures
        out@ == timestamp_text(ms as nat, separator),
{
    let mut v: Vec<char> = Vec::new();
    push_timestamp(&mut v, ms, separator);
    assert(v@ =~= timestamp_text(ms as nat, separator));
    string_of(v.as_slice())
}

/// First index `k >= i` holding a tag opener (`<` or `{`), or `s.len()`.
pub open spec fn find_open(s: Seq<char>, i: int) -> int
    decreases s.len() - i,
{
    if i >= s.len() {
        s.len() as int
    } else if s[i] == '<' || s[i] == '{' {
        i
    } else {
        find_open(s, i + 1)
    }
}

pub proof fn lemma_find_open(s: Seq<char>, i: int)
    requires
        0 <= i <= s.len(),
    ensures
        i <= find_open(s, i) <= s.len(),
        forall|k: int| i <= k < find_open(s, i) ==> s[k] != '<' && s[k] != '{',
        find_open(s, i) < s.len() ==> (s[find_open(s, i)] == '<' || s[find_open(s, i)] == '{'),
    decreases s.len() - i,
{
    if i < s.len() && s[i] != '<' && s[i] != '{' {
        lemma_find_open(s, i + 1);
    }
}

pub proof fn lemma_find_open_at(s: Seq<char>, i: int, k: int)
    requires
        0 <= i <= k <= s.len(),
        forall|j: int| i <= j < k ==> s[j] != '<' && s[j] != '{',
        k < s.len() ==> (s[k] == '<' || s[k] == '{'),
    ensures
        find_open(s, i) == k,
    decreases k - i,
{
    if i < k {
        lemma_find_open_at(s, i + 1, k);
    }
}

/// `s` with every closed `<…>` tag and `{…}` override block removed; an
/// opener with no closer ends the stripping and is kept with the rest.
pub open spec fn strip_tags(s: Seq<char>) -> Seq<char>
    decreases s.len(),
{
    let open = find_open(s, 0);
    if open >= s.len() {
        s
    } else {
        let close = if s[open] == '<' {
            '>'
        } else {
            '}'
        };
        let end = find_from(s, open, close);
        if end >= s.len() {
            s
        } else {
            proof {
                lemma_find_open(s, 0);
                lemma_find_from(s, open, close);
            }
            s.take(open) + strip_tags(s.skip(end + 1))
        }
    }
}

/// The entity patterns subtitle files use, in lookup order.
pub open spec fn entity_pat(k: int) -> Seq<char> {
    if k == 0 {
        seq!['&', 'a', 'm', 'p', ';']
    } else if k == 1 {
        seq!['&', 'l', 't', ';']
    } else if k == 2 {
        seq!['&', 'g', 't', ';']
    } else if k == 3 {
        seq!['&', 'q', 'u', 'o', 't', ';']
    } else if k == 4 {
        seq!['&', '#', '3', '9', ';']
    } else if k == 5 {
        seq!['&', 'a', 'p', 'o', 's', ';']
    } else if k == 6 {
        seq!['&', 'n', 'b', 's', 'p', ';']
    } else if k == 7 {
        seq!['&', 'l', 'r', 'm', ';']
    } else {
        seq!['&', 'r', 'l', 'm', ';']
    }
}

/// What each entity decodes to.
pub open spec fn entity_rep(k: int) -> Seq<char> {
    if k == 0 {
        seq!['&']
    } else if k == 1 {
        seq!['<']
    } else if k == 2 {
        seq!['>']
    } else if k == 3 {
        seq!['"']
    } else if k == 4 || k == 5 {
        seq!['\'']
    } else if k == 6 {
        seq![' ']
    } else {
        Seq::empty()
    }
}

/// How many entities there are.
pub open spec fn entity_count() -> int {
    9
}

/// Whether `p` is a prefix of `s`.
pub open spec fn starts_with(s: Seq<char>, p: Seq<char>) -> bool {
    p.len() <= s.len() && s.take(p.len() as int) == p
}

/// The first entity (from `k` on) that `tail` starts with, or `entity_count()`.
pub open spec fn entity_from(tail: Seq<char>, k: int) -> int
    decreases entity_count() - k,
{
    if k >= entity_count() {
        entity_count()
    } else if starts_with(tail, entity_pat(k)) {
        k
    } else {
        entity_from(tail, k + 1)
    }
}

/// `s` with the known entities decoded; any other `&` is kept as is.
pub open spec fn decode_entities_spec(s: Seq<char>) -> Seq<char>
    decreases s.len(),
{
    let start = find_from(s, 0, '&');
    if start >= s.len() {
        s
    } else {
        proof {
            lemma_find_from(s, 0, '&');
        }
        let tail = s.skip(start);
        let k = entity_from(tail, 0);
        if k < entity_count() {
            proof {
                lemma_entity_pat_len(k);
                lemma_entity_from(tail, 0);
            }
            s.take(start) + entity_rep(k) + decode_entities_spec(tail.skip(entity_pat(k).len() as int))
        } else {
            s.take(start) + seq!['&'] + decode_entities_spec(tail.skip(1))
        }
    }
}

proof fn lemma_not_prefix(t: Seq<char>, p: Seq<char>, i: int)
    requires
        0 <= i < p.len(),
        i < t.len(),
        t[i] != p[i],
    ensures
        !starts_with(t, p),
{
    if starts_with(t, p) {
        assert(t.take(p.len() as int)[i] == t[i]);
    }
}

proof fn lemma_entity_found(tail: Seq<char>, j: int, k: int)
    requires
        0 <= j <= k < entity_count(),
        starts_with(tail, entity_pat(k)),
        forall|q: int| j <= q < k ==> !starts_with(tail, #[trigger] entity_pat(q)),
    ensures
        entity_from(tail, j) == k,
    decreases k - j,
{
    if j < k {
        lemma_entity_found(tail, j + 1, k);
    }
}

/// Text free of `&`, then the entity `e` (entity `k`), then anything,
/// decodes to the text, what `k` stands for, and the rest decoded.
proof fn lemma_decode_at(a: Seq<char>, e: Seq<char>, b: Seq<char>, k: int)
    requires
        forall|j: int| 0 <= j < a.len() ==> a[j] != '&',
        0 <= k < entity_count(),
        e == entity_pat(k),
        forall|q: int| 0 <= q < k ==> !starts_with(e + b, #[trigger] entity_pat(q)),
    ensures
        decode_entities_spec(a + e + b) == a + entity_rep(k) + decode_entities_spec(b),
{
    let s = a + e + b;
    let n = a.len() as int;
    lemma_entity_pat_len(k);
    assert forall|j: int| 0 <= j < n implies s[j] != '&' by {
        assert(s[j] == a[j]);
    }
    assert(s[n] == e[0]);
    lemma_find_from_at(s, 0, n, '&');
    let tail = s.skip(n);
    assert(tail =~= e + b);
    assert((e + b).take(e.len() as int) =~= e);
    lemma_entity_found(tail, 0, k);
    assert(s.take(n) =~= a);
    assert(tail.skip(e.len() as int) =~= b);
}

/// Reading cue text decodes each entity into its own character: `&#39;` and
/// `&apos;` into an apostrophe, `&quot;` into a double quote, `&amp;`,
/// `&lt;` and `&gt;` into `&`, `<` and `>`, `&nbsp;` into a space, and
/// `&lrm;` and `&rlm;` into nothing; the text before it (free of `&`) is
/// kept, what follows is decoded in turn, and text without `&` is kept as
/// it is.
pub proof fn law_entities_decode(a: Seq<char>, b: Seq<char>)
    requires
        forall|j: int| 0 <= j < a.len() ==> a[j] != '&',
    ensures
        decode_entities_spec(a + seq!['&', '#', '3', '9', ';'] + b) == a + seq!['\''] + decode_entities_spec(b),
        decode_entities_spec(a + seq!['&', 'a', 'p', 'o', 's', ';'] + b) == a + seq!['\''] + decode_entities_spec(b),
        decode_entities_spec(a + seq!['&', 'q', 'u', 'o', 't', ';'] + b) == a + seq!['"'] + decode_entities_spec(b),
        decode_entities_spec(a + seq!['&', 'a', 'm', 'p', ';'] + b) == a + seq!['&'] + decode_entities_spec(b),
        decode_entities_spec(a + seq!['&', 'l', 't', ';'] + b) == a + seq!['<'] + decode_entities_spec(b),
        decode_entities_spec(a + seq!['&', 'g', 't', ';'] + b) == a + seq!['>'] + decode_entities_spec(b),
        decode_entities_spec(a + seq!['&', 'n', 'b', 's', 'p', ';'] + b) == a + seq![' '] + decode_entities_spec(b),
        decode_entities_spec(a + seq!['&', 'l', 'r', 'm', ';'] + b) == a + decode_entities_spec(b),
        decode_entities_spec(a + seq!['&', 'r', 'l', 'm', ';'] + b) == a + decode_entities_spec(b),
        decode_entities_spec(a) == a,
{
    let e4 = seq!['&', '#', '3', '9', ';'];
    assert forall|q: int| 0 <= q < 4 implies !starts_with(e4 + b, #[trigger] entity_pat(q)) by {
        assert((e4 + b)[1] == '#');
        lemma_not_prefix(e4 + b, entity_pat(q), 1);
    }
    lemma_decode_at(a, e4, b, 4);
    let e5 = seq!['&', 'a', 'p', 'o', 's', ';'];
    assert forall|q: int| 0 <= q < 5 implies !starts_with(e5 + b, #[trigger] entity_pat(q)) by {
        assert((e5 + b)[1] == 'a' && (e5 + b)[2] == 'p');
        if q == 0 {
            lemma_not_prefix(e5 + b, entity_pat(q), 2);
        } else {
            lemma_not_prefix(e5 + b, entity_pat(q), 1);
        }
    }
    lemma_decode_at(a, e5, b, 5);
    let e3 = seq!['&', 'q', 'u', 'o', 't', ';'];
    assert forall|q: int| 0 <= q < 3 implies !starts_with(e3 + b, #[trigger] entity_pat(q)) by {
        assert((e3 + b)[1] == 'q');
        lemma_not_prefix(e3 + b, entity_pat(q), 1);
    }
    lemma_decode_at(a, e3, b, 3);
    lemma_decode_at(a, seq!['&', 'a', 'm', 'p', ';'], b, 0);
    let e1 = seq!['&', 'l', 't', ';'];
    assert forall|q: int| 0 <= q < 1 implies !starts_with(e1 + b, #[trigger] entity_pat(q)) by {
        assert((e1 + b)[1] == 'l');
        lemma_not_prefix(e1 + b, entity_pat(q), 1);
    }
    lemma_decode_at(a, e1, b, 1);
    let e2 = seq!['&', 'g', 't', ';'];
    assert forall|q: int| 0 <= q < 2 implies !starts_with(e2 + b, #[trigger] entity_pat(q)) by {
        assert((e2 + b)[1] == 'g');
        lemma_not_prefix(e2 + b, entity_pat(q), 1);
    }
    lemma_decode_at(a, e2, b, 2);
    let e6 = seq!['&', 'n', 'b', 's', 'p', ';'];
    assert forall|q: int| 0 <= q < 6 implies !starts_with(e6 + b, #[trigger] entity_pat(q)) by {
        assert((e6 + b)[1] == 'n');
        lemma_not_prefix(e6 + b, entity_pat(q), 1);
    }
    lemma_decode_at(a, e6, b, 6);
    let e7 = seq!['&', 'l', 'r', 'm', ';'];
    assert forall|q: int| 0 <= q < 7 implies !starts_with(e7 + b, #[trigger] entity_pat(q)) by {
        assert((e7 + b)[1] == 'l' && (e7 + b)[2] == 'r');
        if q == 1 {
            lemma_not_prefix(e7 + b, entity_pat(q), 2);
        } else {
            lemma_not_prefix(e7 + b, entity_pat(q), 1);
        }
    }
    lemma_decode_at(a, e7, b, 7);
    assert(a + entity_rep(7) + decode_entities_spec(b) =~= a + decode_entities_spec(b));
    let e8 = seq!['&', 'r', 'l', 'm', ';'];
    assert forall|q: int| 0 <= q < 8 implies !starts_with(e8 + b, #[trigger] entity_pat(q)) by {
        assert((e8 + b)[1] == 'r');
        lemma_not_prefix(e8 + b, entity_pat(q), 1);
    }
    lemma_decode_at(a, e8, b, 8);
    assert(a + entity_rep(8) + decode_entities_spec(b) =~= a + decode_entities_spec(b));
    crate::text::lemma_find_from(a, 0, '&');
}

/// Cue text as it will render: tags stripped, then entities decoded.
pub open spec fn strip_markup_spec(s: Seq<char>) -> Seq<char> {
    decode_entities_spec(strip_tags(s))
}

pub proof fn lemma_entity_from(tail: Seq<char>, k: int)
    requires
        0 <= k <= entity_count(),
    ensures
        k <= entity_from(tail, k) <= entity_count(),
        entity_from(tail, k) < entity_count() ==> starts_with(tail, entity_pat(entity_from(tail, k))),
    decreases entity_count() - k,
{
    if k < entity_count() && !starts_with(tail, entity_pat(k)) {
        lemma_entity_from(tail, k + 1);
    }
}

pub proof fn lemma_entity_pat_len(k: int)
    ensures
        entity_pat(k).len() >= 4,
        entity_pat(k)[0] == '&',
{
}

/// The entity pattern `k` as characters.
fn entity_chars(k: usize) -> (r: (Vec<char>, Vec<char>))
    requires
        k < 9,
    ensures
        r.0@ == entity_pat(k as int),
        r.1@ == entity_rep(k as int),
{
    let r = if k == 0 {
        (vec!['&', 'a', 'm', 'p', ';'], vec!['&'])
    } else if k == 1 {
        (vec!['&', 'l', 't', ';'], vec!['<'])
    } else if k == 2 {
        (vec!['&', 'g', 't', ';'], vec!['>'])
    } else if k == 3 {
        (vec!['&', 'q', 'u', 'o', 't', ';'], vec!['"'])
    } else if k == 4 {
        (vec!['&', '#', '3', '9', ';'], vec!['\''])
    } else if k == 5 {
        (vec!['&', 'a', 'p', 'o', 's', ';'], vec!['\''])
    } else if k == 6 {
        (vec!['&', 'n', 'b', 's', 'p', ';'], vec![' '])
    } else if k == 7 {
        (vec!['&', 'l', 'r', 'm', ';'], vec![])
    } else {
        (vec!['&', 'r', 'l', 'm', ';'], vec![])
    };
    assert(r.0@ =~= entity_pat(k as int));
    assert(r.1@ =~= entity_rep(k as int));
    r
}

/// Whether `v[i..]` starts with `p`.
pub fn starts_with_at(v: &Vec<char>, i: usize, p: &Vec<char>) -> (r: bool)
    requires
        i <= v.len(),
    ensures
        r == starts_with(v@.skip(i as int), p@),
{
    if p.len() > v.len() - i {
        return false;
    }
    let mut j: usize = 0;
    while j < p.len()
        invariant
            j <= p.len() <= v.len() - i,
            forall|t: int| 0 <= t < j ==> v@[i + t] == p@[t],
        decreases p.len() - j,
    {
        if v[i + j] != p[j] {
            proof {
                assert(v@.skip(i as int).take(p.len() as int)[j as int] == v@[i + j]);
            }
            return false;
        }
        j += 1;
    }
    assert(v@.skip(i as int).take(p.len() as int) =~= p@);
    true
}

/// Append `v[lo..hi]` to `out`.
pub fn append_range(out: &mut Vec<char>, v: &Vec<char>, lo: usize, hi: usize)
    requires
        lo <= hi <= v.len(),
    ensures
        final(out)@ == old(out)@ + v@.subrange(lo as int, hi as int),
{
    let mut i = lo;
    while i < hi
        invariant
            lo <= i <= hi <= v.len(),
            out@ == old(out)@ + v@.subrange(lo as int, i as int),
        decreases hi - i,
    {
        out.push(v[i]);
        i += 1;
        assert(out@ =~= old(out)@ + v@.subrange(lo as int, i as int));
    }
}

/// Remove inline tags from `v[lo..hi]` (the first half of `strip_markup`).
#[verifier::loop_isolation(false)]
fn strip_tags_chars(v: &Vec<char>) -> (out: Vec<char>)
    ensures
        out@ == strip_tags(v@),
{
    let mut out: Vec<char> = Vec::new();
    let mut pos: usize = 0;
    assert(v@.skip(0) =~= v@);
    loop
        invariant
            pos <= v.len(),
            out@ + strip_tags(v@.skip(pos as int)) == strip_tags(v@),
        decreases v.len() - pos,
    {
        let ghost rest = v@.skip(pos as int);
        let mut open = pos;
        while open < v.len() && v[open] != '<' && v[open] != '{'
            invariant
                pos <= open <= v.len(),
                forall|j: int| pos <= j < open ==> v@[j] != '<' && v@[j] != '{',
            decreases v.len() - open,
        {
            open += 1;
        }
        proof {
            assert forall|j: int| 0 <= j < open - pos implies rest[j] != '<' && rest[j] != '{' by {
                assert(rest[j] == v@[pos + j]);
            }
            if open < v.len() {
                assert(rest[open - pos] == v@[open as int]);
            }
            lemma_find_open_at(rest, 0, open - pos);
        }
        if open == v.len() {
            append_range(&mut out, v, pos, v.len());
            proof {
                assert(v@.subrange(pos as int, v.len() as int) =~= rest);
            }
            break;
        }
        let close = if v[open] == '<' {
            '>'
        } else {
            '}'
        };
        let mut end = open;
        while end < v.len() && v[end] != close
            invariant
                open <= end <= v.len(),
                forall|j: int| open <= j < end ==> v@[j] != close,
            decreases v.len() - end,
        {
            end += 1;
        }
        proof {
            assert forall|j: int| open - pos <= j < end - pos implies rest[j] != close by {
                assert(rest[j] == v@[pos + j]);
            }
            if end < v.len() {
                assert(rest[end - pos] == v@[end as int]);
            }
            lemma_find_from_at(rest, open - pos, end - pos, close);
        }
        if end == v.len() {
            append_range(&mut out, v, pos, v.len());
            proof {
                assert(v@.subrange(pos as int, v.len() as int) =~= rest);
            }
            break;
        }
        append_range(&mut out, v, pos, open);
        proof {
            assert(rest.take(open - pos) =~= v@.subrange(pos as int, open as int));
            assert(rest.skip(end - pos + 1) =~= v@.skip(end + 1));
        }
        pos = end + 1;
    }
    assert(strip_tags(v@.skip(0)) == strip_tags(v@)) by {
        assert(v@.skip(0) =~= v@);
    }
    out
}

/// Decode the entities of `v`.
#[verifier::loop_isolation(false)]
fn decode_entities_chars(v: &Vec<char>) -> (out: Vec<char>)
    ensures
        out@ == decode_entities_spec(v@),
{
    let mut out: Vec<char> = Vec::new();
    let mut pos: usize = 0;
    assert(v@.skip(0) =~= v@);
    loop
        invariant
            pos <= v.len(),
            out@ + decode_entities_spec(v@.skip(pos as int)) == decode_entities_spec(v@),
        decreases v.len() - pos,
    {
        let ghost rest = v@.skip(pos as int);
        let mut start = pos;
        while start < v.len() && v[start] != '&'
            invariant
                pos <= start <= v.len(),
                forall|j: int| pos <= j < start ==> v@[j] != '&',
            decreases v.len() - start,
        {
            start += 1;
        }
        proof {
            assert forall|j: int| 0 <= j < start - pos implies rest[j] != '&' by {
                assert(rest[j] == v@[pos + j]);
            }
            if start < v.len() {
                assert(rest[start - pos] == v@[start as int]);
            }
            lemma_find_from_at(rest, 0, start - pos, '&');
        }
        if start == v.len() {
            append_range(&mut out, v, pos, v.len());
            proof {
                assert(v@.subrange(pos as int, v.len() as int) =~= rest);
            }
            break;
        }
        append_range(&mut out, v, pos, start);
        let ghost tail = rest.skip(start - pos);
        proof {
            assert(tail =~= v@.skip(start as int));
            assert(rest.take(start - pos) =~= v@.subrange(pos as int, start as int));
        }
        let mut k: usize = 0;
        let mut found = false;
        while k < 9
            invariant
                k <= 9,
                !found,
                entity_from(tail, 0) == entity_from(tail, k as int),
                tail == v@.skip(start as int),
            decreases 9 - k,
        {
            let (pat, _) = entity_chars(k);
            if starts_with_at(v, start, &pat) {
                break;
            }
            k += 1;
        }
        if k < 9 {
            let (pat, rep) = entity_chars(k);
            proof {
                lemma_entity_pat_len(k as int);
                assert(starts_with(tail, entity_pat(k as int)));
                assert(entity_from(tail, k as int) == k);
            }
            let mut i: usize = 0;
            let ghost before = out@;
            while i < rep.len()
                invariant
                    i <= rep.len(),
                    out@ == before + rep@.take(i as int),
                decreases rep.len() - i,
            {
                out.push(rep[i]);
                i += 1;
                assert(out@ =~= before + rep@.take(i as int));
            }
            proof {
                assert(rep@.take(i as int) =~= rep@);
                assert(tail.skip(entity_pat(k as int).len() as int) =~= v@.skip(
                    start + pat.len(),
                ));
            }
            pos = start + pat.len();
        } else {
            proof {
                assert(entity_from(tail, 0) == 9);
                assert(tail.skip(1) =~= v@.skip(start + 1));
            }
            out.push('&');
            pos = start + 1;
        }
    }
    out
}


/// Strip inline styling so the cue text is what the caption will actually
/// render: `<…>` tags (including WebVTT karaoke timestamps) and `{…}` override
/// blocks are removed, then the handful of entities subtitle files use are
/// decoded. An unclosed bracket is kept verbatim.
pub fn strip_markup(text: &str) -> (out: String)
    ensures
        out@ == strip_markup_spec(text@),
{
    let v = chars_of(text);
    let stripped = strip_tags_chars(&v);
    let decoded = decode_entities_chars(&stripped);
    string_of(decoded.as_slice())
}

/// Character-level [`strip_markup`].
pub fn strip_markup_chars(v: &Vec<char>) -> (out: Vec<char>)
    ensures
        out@ == strip_markup_spec(v@),
{
    let stripped = strip_tags_chars(v);
    decode_entities_chars(&stripped)
}

/// Decode `&amp;`, `&lt;`, `&gt;`, `&quot;`, `&#39;`, `&apos;`, `&nbsp;`,
/// `&lrm;` and `&rlm;`; any other `&` is kept.
pub fn decode_entities(text: &str) -> (out: String)
    ensures
        out@ == decode_entities_spec(text@),
{
    let v = chars_of(text);
    let decoded = decode_entities_chars(&v);
    string_of(decoded.as_slice())
}

/// Number of leading byte-order marks.
pub open spec fn lead_bom(s: Seq<char>) -> nat
    decreases s.len(),
{
    if s.len() > 0 && s[0] == '\u{feff}' {
        1 + lead_bom(s.drop_first())
    } else {
        0
    }
}

/// A line without the `\r` of a CRLF ending.
pub open spec fn strip_cr(l: Seq<char>) -> Seq<char> {
    if l.len() > 0 && l.last() == '\r' {
        l.drop_last()
    } else {
        l
    }
}

/// `str::lines`: the pieces between `\n`s, a `\r` before each `\n` dropped,
/// and no empty piece after a final `\n`.
pub open spec fn lines_of(s: Seq<char>) -> Seq<Seq<char>> {
    let parts = split_on(s, '\n');
    let n = parts.len();
    let ended = Seq::new((n - 1) as nat, |i: int| strip_cr(parts[i]));
    if n == 0 || parts[n - 1].len() == 0 {
        ended
    } else {
        ended.push(parts[n - 1])
    }
}

/// The file's lines with 1-based numbers, byte-order marks removed.
pub open spec fn numbered_lines_spec(s: Seq<char>) -> Seq<(nat, Seq<char>)> {
    let lines = lines_of(s.skip(lead_bom(s) as int));
    Seq::new(lines.len(), |i: int| ((i + 1) as nat, lines[i]))
}

/// One numbered line of a subtitle file.
pub struct Line {
    pub number: usize,
    pub text: Vec<char>,
}

impl View for Line {
    type V = (nat, Seq<char>);

    open spec fn view(&self) -> (nat, Seq<char>) {
        (self.number as nat, self.text@)
    }
}

/// The views of a list of lines.
pub open spec fn lines_view(lines: Seq<Line>) -> Seq<(nat, Seq<char>)> {
    Seq::new(lines.len(), |i: int| lines[i]@)
}

proof fn lemma_lead_bom(s: Seq<char>, k: int)
    requires
        0 <= k <= s.len(),
        forall|i: int| 0 <= i < k ==> #[trigger] s[i] == '\u{feff}',
        k < s.len() ==> s[k] != '\u{feff}',
    ensures
        lead_bom(s) == k,
    decreases s.len(),
{
    if k > 0 {
        assert forall|i: int| 0 <= i < k - 1 implies #[trigger] s.drop_first()[i] == '\u{feff}' by {
            assert(s.drop_first()[i] == s[i + 1]);
        }
        if k < s.len() {
            assert(s.drop_first()[k - 1] == s[k]);
        }
        lemma_lead_bom(s.drop_first(), k - 1);
    }
}

/// Split characters into numbered lines (see [`numbered_lines_spec`]).
#[verifier::loop_isolation(false)]
pub fn char_lines(v: &Vec<char>) -> (out: Vec<Line>)
    ensures
        lines_view(out@) == numbered_lines_spec(v@),
{
    let mut b: usize = 0;
    while b < v.len() && v[b] == '\u{feff}'
        invariant
            b <= v.len(),
            forall|i: int| 0 <= i < b ==> #[trigger] v@[i] == '\u{feff}',
        decreases v.len() - b,
    {
        b += 1;
    }
    proof {
        lemma_lead_bom(v@, b as int);
    }
    let ghost s = v@.skip(b as int);
    let ghost parts = split_on(s, '\n');
    let mut out: Vec<Line> = Vec::new();
    let mut ps = b;
    let ghost mut done: Seq<Seq<char>> = seq![];
    assert(v@.subrange(b as int, v.len() as int) =~= s);
    loop
        invariant
            b <= ps <= v.len(),
            done + split_on(v@.subrange(ps as int, v.len() as int), '\n') == parts,
            done.len() == out.len(),
            out.len() <= ps - b,
            forall|i: int| 0 <= i < out.len() ==> (#[trigger] out@[i])@ == ((i + 1) as nat, strip_cr(done[i])),
        decreases v.len() - ps,
    {
        let ghost rest = v@.subrange(ps as int, v.len() as int);
        let mut e = ps;
        while e < v.len() && v[e] != '\n'
            invariant
                ps <= e <= v.len(),
                forall|j: int| ps <= j < e ==> v@[j] != '\n',
            decreases v.len() - e,
        {
            e += 1;
        }
        proof {
            assert forall|j: int| 0 <= j < e - ps implies rest[j] != '\n' by {
                assert(rest[j] == v@[ps + j]);
            }
            if e < v.len() {
                assert(rest[e - ps] == v@[e as int]);
            }
            lemma_find_from_at(rest, 0, e - ps, '\n');
        }
        let ghost part = v@.subrange(ps as int, e as int);
        if e == v.len() {
            proof {
                assert(rest =~= part);
                assert(split_on(rest, '\n') == seq![part]);
                assert(parts =~= done.push(part));
            }
            if e > ps {
                let mut text: Vec<char> = Vec::new();
                append_range(&mut text, v, ps, e);
                let number = out.len() + 1;
                out.push(Line { number, text });
            }
            proof {
                let lines = lines_of(s);
                assert(parts.len() == done.len() + 1);
                assert(parts[parts.len() - 1] == part);
                assert forall|i: int| 0 <= i < done.len() implies parts[i] == done[i] by {}
                assert(lines_view(out@) =~= numbered_lines_spec(v@));
            }
            break;
        }
        let mut end = e;
        if end > ps && v[end - 1] == '\r' {
            end -= 1;
        }
        let mut text: Vec<char> = Vec::new();
        append_range(&mut text, v, ps, end);
        let number = out.len() + 1;
        out.push(Line { number, text });
        proof {
            assert(rest.take(e - ps) =~= part);
            assert(rest.skip(e - ps + 1) =~= v@.subrange(e + 1, v.len() as int));
            lemma_split_on_nonempty(v@.subrange(e + 1, v.len() as int), '\n');
            assert(split_on(rest, '\n') == seq![part] + split_on(
                v@.subrange(e + 1, v.len() as int),
                '\n',
            ));
            assert(strip_cr(part) =~= v@.subrange(ps as int, end as int));
            done = done.push(part);
            assert(done + split_on(v@.subrange(e + 1, v.len() as int), '\n') =~= parts);
        }
        ps = e + 1;
    }
    out
}

/// The file's lines with 1-based numbers, byte-order mark removed.
pub fn numbered_lines(input: &str) -> (out: Vec<(usize, String)>)
    ensures
        out.len() == numbered_lines_spec(input@).len(),
        forall|i: int| 0 <= i < out.len() ==> (#[trigger] out@[i]).0 == numbered_lines_spec(
            input@,
        )[i].0 && out@[i].1@ == numbered_lines_spec(input@)[i].1,
{
    let v = chars_of(input);
    let lines = char_lines(&v);
    let mut out: Vec<(usize, String)> = Vec::new();
    let mut i: usize = 0;
    while i < lines.len()
        invariant
            i <= lines.len(),
            out.len() == i,
            lines_view(lines@) == numbered_lines_spec(v@),
            forall|j: int| 0 <= j < i ==> (#[trigger] out@[j]).0 == lines@[j].number && out@[j].1@
                == lines@[j].text@,
        decreases lines.len() - i,
    {
        let text = string_of(lines[i].text.as_slice());
        out.push((lines[i].number, text));
        i += 1;
    }
    proof {
        assert forall|j: int| 0 <= j < out.len() implies (#[trigger] out@[j]).0
            == numbered_lines_spec(input@)[j].0 && out@[j].1@ == numbered_lines_spec(input@)[j].1 by {
            assert(lines_view(lines@)[j] == lines@[j]@);
        }
    }
    out
}


/// First index `k >= i` where `s[k..k+3]` is `-->`, or `s.len()`.
pub open spec fn find_arrow(s: Seq<char>, i: int) -> int
    decreases s.len() - i,
{
    if i + 3 > s.len() {
        s.len() as int
    } else if s[i] == '-' && s[i + 1] == '-' && s[i + 2] == '>' {
        i
    } else {
        find_arrow(s, i + 1)
    }
}

/// Whether the line holds the `-->` that separates a cue's timestamps.
pub open spec fn has_arrow(s: Seq<char>) -> bool {
    find_arrow(s, 0) < s.len()
}

pub proof fn lemma_find_arrow(s: Seq<char>, i: int)
    requires
        0 <= i,
    ensures
        find_arrow(s, i) == s.len() || (i <= find_arrow(s, i) && find_arrow(s, i) + 3 <= s.len()),
        find_arrow(s, i) < s.len() ==> s[find_arrow(s, i)] == '-' && s[find_arrow(s, i) + 1]
            == '-' && s[find_arrow(s, i) + 2] == '>',
        forall|k: int|
            i <= k < find_arrow(s, i) && k + 3 <= s.len() ==> !(#[trigger] s[k] == '-' && s[k + 1]
                == '-' && s[k + 2] == '>'),
    decreases s.len() - i,
{
    if i + 3 <= s.len() && !(s[i] == '-' && s[i + 1] == '-' && s[i + 2] == '>') {
        lemma_find_arrow(s, i + 1);
    }
}

/// Index of the first `-->` in `v`, or `v.len()`.
pub fn find_arrow_exec(v: &Vec<char>) -> (k: usize)
    ensures
        k == find_arrow(v@, 0),
{
    let mut i: usize = 0;
    while i < v.len() && v.len() - i >= 3
        invariant
            i <= v.len(),
            find_arrow(v@, 0) == find_arrow(v@, i as int),
        decreases v.len() - i,
    {
        if v[i] == '-' && v[i + 1] == '-' && v[i + 2] == '>' {
            return i;
        }
        i += 1;
    }
    v.len()
}

/// The WebVTT metadata keywords that open a non-cue block.
pub open spec fn keyword(k: int) -> Seq<char> {
    if k == 0 {
        seq!['N', 'O', 'T', 'E']
    } else if k == 1 {
        seq!['S', 'T', 'Y', 'L', 'E']
    } else {
        seq!['R', 'E', 'G', 'I', 'O', 'N']
    }
}

/// Whether `l` is keyword `k` alone or followed by a space.
pub open spec fn keyword_match(l: Seq<char>, k: int) -> bool {
    l == keyword(k) || starts_with(l, keyword(k).push(' '))
}

/// A WebVTT `NOTE`, `STYLE` or `REGION` block's first line.
pub open spec fn is_metadata(line: Seq<char>) -> bool {
    let l = trim_start(line);
    keyword_match(l, 0) || keyword_match(l, 1) || keyword_match(l, 2)
}

fn keyword_chars(k: usize) -> (r: Vec<char>)
    requires
        k < 3,
    ensures
        r@ == keyword(k as int),
{
    let r = if k == 0 {
        vec!['N', 'O', 'T', 'E']
    } else if k == 1 {
        vec!['S', 'T', 'Y', 'L', 'E']
    } else {
        vec!['R', 'E', 'G', 'I', 'O', 'N']
    };
    assert(r@ =~= keyword(k as int));
    r
}

/// Whether `line[a..]` is keyword `k` alone or followed by a space.
fn keyword_at(line: &Vec<char>, a: usize, k: usize) -> (r: bool)
    requires
        a <= line.len(),
        k < 3,
    ensures
        r == keyword_match(line@.skip(a as int), k as int),
{
    let ghost l = line@.skip(a as int);
    let kw = keyword_chars(k);
    let mut spaced = keyword_chars(k);
    spaced.push(' ');
    if line.len() - a == kw.len() && starts_with_at(line, a, &kw) {
        assert(l.take(kw@.len() as int) == kw@);
        assert(l =~= kw@);
        return true;
    }
    proof {
        if l == keyword(k as int) {
            assert(l.take(l.len() as int) =~= l);
        }
    }
    starts_with_at(line, a, &spaced)
}

/// Whether `line` opens a WebVTT metadata block.
pub fn is_metadata_block(line: &Vec<char>) -> (r: bool)
    ensures
        r == is_metadata(line@),
{
    let (a, _) = trim_bounds(line, 0, line.len());
    proof {
        assert(line@.subrange(0, line@.len() as int) =~= line@);
        assert(trim_start(line@) =~= line@.skip(a as int));
    }
    keyword_at(line, a, 0) || keyword_at(line, a, 1) || keyword_at(line, a, 2)
}

/// One cue block as it appeared in the file, before its timing is read.
pub struct RawCue {
    /// 1-based line number of the timing line, for error reporting.
    pub number: usize,
    pub timing: Vec<char>,
    /// The cue's text lines, trimmed, joined with `\n`, markup stripped.
    pub text: Vec<char>,
}

impl View for RawCue {
    type V = (nat, Seq<char>, Seq<char>);

    open spec fn view(&self) -> (nat, Seq<char>, Seq<char>) {
        (self.number as nat, self.timing@, self.text@)
    }
}

/// First index `k >= j` holding a blank line, or `lines.len()`.
pub open spec fn next_blank(lines: Seq<(nat, Seq<char>)>, j: int) -> int
    decreases lines.len() - j,
{
    if j >= lines.len() {
        lines.len() as int
    } else if is_blank(lines[j].1) {
        j
    } else {
        next_blank(lines, j + 1)
    }
}

pub proof fn lemma_next_blank(lines: Seq<(nat, Seq<char>)>, j: int)
    requires
        0 <= j,
    ensures
        j <= next_blank(lines, j) || (j > lines.len() && next_blank(lines, j) == lines.len()),
        next_blank(lines, j) <= lines.len() || next_blank(lines, j) == j,
        j <= lines.len() ==> next_blank(lines, j) <= lines.len(),
        forall|k: int| j <= k < next_blank(lines, j) ==> !is_blank(#[trigger] lines[k].1),
        next_blank(lines, j) < lines.len() ==> is_blank(lines[next_blank(lines, j)].1),
    decreases lines.len() - j,
{
    if j < lines.len() && !is_blank(lines[j].1) {
        lemma_next_blank(lines, j + 1);
    }
}

/// The lines `j..k`, each trimmed, joined with `\n`.
pub open spec fn joined(lines: Seq<(nat, Seq<char>)>, j: int, k: int) -> Seq<char>
    decreases k - j,
{
    if k <= j {
        Seq::empty()
    } else if k == j + 1 {
        trim(lines[j].1)
    } else {
        joined(lines, j, k - 1) + seq!['\n'] + trim(lines[k - 1].1)
    }
}

/// Put `cues` in front of a scan result.
pub open spec fn prepend_cues(
    cues: Seq<(nat, Seq<char>, Seq<char>)>,
    r: Result<Seq<(nat, Seq<char>, Seq<char>)>, nat>,
) -> Result<Seq<(nat, Seq<char>, Seq<char>)>, nat> {
    match r {
        Ok(rest) => Ok(cues + rest),
        Err(n) => Err(n),
    }
}

/// The cue blocks of `lines[i..]`: blank lines separate blocks, an optional
/// identifier line may precede the timing line, the text runs to the next
/// blank line, and (when `skip`) WebVTT metadata blocks are dropped. `Err`
/// carries the line number of a block with no timing line.
pub open spec fn scan_from(lines: Seq<(nat, Seq<char>)>, i: int, skip: bool) -> Result<
    Seq<(nat, Seq<char>, Seq<char>)>,
    nat,
>
    decreases lines.len() - i,
{
    if i < 0 || i >= lines.len() {
        Ok(Seq::empty())
    } else {
        let number = lines[i].0;
        let line = lines[i].1;
        proof {
            lemma_next_blank(lines, i + 1);
        }
        if is_blank(line) {
            scan_from(lines, i + 1, skip)
        } else if skip && is_metadata(line) {
            scan_from(lines, next_blank(lines, i + 1), skip)
        } else if !has_arrow(line) && !(i + 1 < lines.len() && has_arrow(lines[i + 1].1)) {
            Err(number)
        } else {
            let t = if has_arrow(line) {
                i
            } else {
                i + 1
            };
            proof {
                lemma_next_blank(lines, t + 1);
            }
            let k = next_blank(lines, t + 1);
            let cue = (lines[t].0, lines[t].1, strip_markup_spec(joined(lines, t + 1, k)));
            prepend_cues(seq![cue], scan_from(lines, k, skip))
        }
    }
}

/// What a scan that fails is reported as: the first non-blank line outside
/// a skipped block that is neither a timing line nor followed by one.
pub open spec fn scan_fault(lines: Seq<(nat, Seq<char>)>, i: int, skip: bool) -> Seq<char>
    decreases lines.len() - i,
{
    if i < 0 || i >= lines.len() {
        Seq::empty()
    } else {
        let line = lines[i].1;
        proof {
            lemma_next_blank(lines, i + 1);
        }
        if is_blank(line) {
            scan_fault(lines, i + 1, skip)
        } else if skip && is_metadata(line) {
            scan_fault(lines, next_blank(lines, i + 1), skip)
        } else if !has_arrow(line) && !(i + 1 < lines.len() && has_arrow(lines[i + 1].1)) {
            "expected a '-->' timing line after '"@ + trim(line) + seq!['\'']
        } else {
            let t = if has_arrow(line) {
                i
            } else {
                i + 1
            };
            proof {
                lemma_next_blank(lines, t + 1);
            }
            scan_fault(lines, next_blank(lines, t + 1), skip)
        }
    }
}

/// The views of scanned cue blocks.
pub open spec fn raw_view(cues: Seq<RawCue>) -> Seq<(nat, Seq<char>, Seq<char>)> {
    Seq::new(cues.len(), |i: int| cues[i]@)
}

/// Index of the first blank line at or after `start`.
fn skip_block(lines: &Vec<Line>, start: usize) -> (k: usize)
    requires
        start <= lines.len(),
    ensures
        k == next_blank(lines_view(lines@), start as int),
        start <= k <= lines.len(),
{
    let ghost ls = lines_view(lines@);
    let mut index = start;
    while index < lines.len() && !blank(&lines[index].text)
        invariant
            start <= index <= lines.len(),
            ls == lines_view(lines@),
            next_blank(ls, index as int) == next_blank(ls, start as int),
        decreases lines.len() - index,
    {
        proof {
            assert(ls[index as int] == lines@[index as int]@);
        }
        index += 1;
    }
    proof {
        if index < lines.len() {
            assert(ls[index as int] == lines@[index as int]@);
        }
    }
    index
}

/// The trimmed lines `start..` up to the next blank line, joined with `\n`,
/// and where that block ends.
fn join_block(lines: &Vec<Line>, start: usize) -> (r: (Vec<char>, usize))
    requires
        start <= lines.len(),
    ensures
        r.1 == next_blank(lines_view(lines@), start as int),
        start <= r.1 <= lines.len(),
        r.0@ == joined(lines_view(lines@), start as int, r.1 as int),
{
    let ghost ls = lines_view(lines@);
    let mut k = start;
    let mut text: Vec<char> = Vec::new();
    while k < lines.len() && !blank(&lines[k].text)
        invariant
            start <= k <= lines.len(),
            ls == lines_view(lines@),
            next_blank(ls, start as int) == next_blank(ls, k as int),
            text@ == joined(ls, start as int, k as int),
        decreases lines.len() - k,
    {
        proof {
            assert(ls[k as int] == lines@[k as int]@);
        }
        if k > start {
            text.push('\n');
        }
        let (a, b) = trim_bounds(&lines[k].text, 0, lines[k].text.len());
        append_range(&mut text, &lines[k].text, a, b);
        proof {
            assert(lines[k as int].text@.subrange(0, lines[k as int].text@.len() as int)
                =~= lines[k as int].text@);
            if k > start {
                assert(text@ =~= joined(ls, start as int, k as int) + seq!['\n'] + trim(
                    ls[k as int].1,
                ));
            } else {
                assert(text@ =~= trim(ls[k as int].1));
            }
        }
        k += 1;
    }
    proof {
        if k < lines.len() {
            assert(ls[k as int] == lines@[k as int]@);
        }
    }
    (text, k)
}

/// Whether a line holds `-->`.
fn line_has_arrow(line: &Vec<char>) -> (r: bool)
    ensures
        r == has_arrow(line@),
{
    find_arrow_exec(line) < line.len()
}

/// Split a subtitle file's lines into cue blocks (see [`scan_from`]).
#[verifier::rlimit(40)]
pub fn scan_cues(lines: &Vec<Line>, start: usize, skip_metadata: bool) -> (r: Result<
    Vec<RawCue>,
    CaptionError,
>)
    requires
        start <= lines.len(),
    ensures
        r matches Ok(cues) ==> scan_from(lines_view(lines@), start as int, skip_metadata) == Ok::<
            Seq<(nat, Seq<char>, Seq<char>)>,
            nat,
        >(raw_view(cues@)),
        r matches Err(e) ==> scan_from(lines_view(lines@), start as int, skip_metadata) == Err::<
            Seq<(nat, Seq<char>, Seq<char>)>,
            nat,
        >(e.parse_line()->0) && e.parse_line() is Some && e.parse_message() == scan_fault(
            lines_view(lines@),
            start as int,
            skip_metadata,
        ),
{
    let ghost ls = lines_view(lines@);
    let mut cues: Vec<RawCue> = Vec::new();
    let mut index: usize = start;
    assert(raw_view(cues@) =~= Seq::<(nat, Seq<char>, Seq<char>)>::empty());
    proof {
        match scan_from(ls, start as int, skip_metadata) {
            Ok(r) => {
                assert(Seq::<(nat, Seq<char>, Seq<char>)>::empty() + r =~= r);
            },
            Err(_) => {},
        }
    }
    loop
        invariant
            index <= lines.len(),
            ls == lines_view(lines@),
            scan_from(ls, start as int, skip_metadata) == prepend_cues(
                raw_view(cues@),
                scan_from(ls, index as int, skip_metadata),
            ),
            scan_fault(ls, start as int, skip_metadata) == scan_fault(ls, index as int, skip_metadata),
        decreases lines.len() - index,
    {
        if index >= lines.len() {
            proof {
                assert(raw_view(cues@) + Seq::empty() =~= raw_view(cues@));
            }
            return Ok(cues);
        }
        let number = lines[index].number;
        proof {
            assert(ls[index as int] == lines@[index as int]@);
            lemma_next_blank(ls, index + 1);
        }
        if blank(&lines[index].text) {
            index += 1;
            continue;
        }
        if skip_metadata && is_metadata_block(&lines[index].text) {
            index = skip_block(lines, index + 1);
            continue;
        }
        let mut t = index;
        if !line_has_arrow(&lines[index].text) {
            let next_arrow = index + 1 < lines.len() && line_has_arrow(&lines[index + 1].text);
            proof {
                if index + 1 < lines.len() {
                    assert(ls[index + 1] == lines@[index + 1]@);
                }
            }
            if !next_arrow {
                let mut message = chars_of("expected a '-->' timing line after '");
                let (a, b) = trim_bounds(&lines[index].text, 0, lines[index].text.len());
                append_range(&mut message, &lines[index].text, a, b);
                message.push('\'');
                proof {
                    assert(lines@[index as int].text@.subrange(0, lines@[index as int].text@.len() as int)
                        =~= lines@[index as int].text@);
                    assert(scan_from(ls, index as int, skip_metadata) == Err::<
                        Seq<(nat, Seq<char>, Seq<char>)>,
                        nat,
                    >(number as nat));
                }
                return Err(CaptionError::parse(number, string_of(message.as_slice())));
            }
            t = index + 1;
        }
        let mut timing: Vec<char> = Vec::new();
        append_range(&mut timing, &lines[t].text, 0, lines[t].text.len());
        let timing_number = lines[t].number;
        proof {
            assert(timing@ =~= lines@[t as int].text@);
            assert(ls[t as int] == lines@[t as int]@);
            lemma_next_blank(ls, t + 1);
        }
        let (text, k) = join_block(lines, t + 1);
        let stripped = strip_markup_chars(&text);
        let ghost cue_view = (timing_number as nat, timing@, stripped@);
        let ghost prev = raw_view(cues@);
        proof {
            assert(scan_from(ls, index as int, skip_metadata) == prepend_cues(
                seq![cue_view],
                scan_from(ls, k as int, skip_metadata),
            ));
        }
        cues.push(RawCue { number: timing_number, timing, text: stripped });
        proof {
            assert(raw_view(cues@) =~= prev.push(cue_view));
            assert(prev.push(cue_view) =~= prev + seq![cue_view]);
            match scan_from(ls, k as int, skip_metadata) {
                Ok(r) => {
                    assert(prev + (seq![cue_view] + r) =~= (prev + seq![cue_view]) + r);
                },
                Err(_) => {},
            }
        }
        index = k;
    }
}


/// First index `k >= i` holding whitespace, or `s.len()`.
pub open spec fn find_ws(s: Seq<char>, i: int) -> int
    decreases s.len() - i,
{
    if i >= s.len() {
        s.len() as int
    } else if is_ws(s[i]) {
        i
    } else {
        find_ws(s, i + 1)
    }
}

pub proof fn lemma_find_ws_at(s: Seq<char>, i: int, k: int)
    requires
        0 <= i <= k <= s.len(),
        forall|j: int| i <= j < k ==> !is_ws(#[trigger] s[j]),
        k < s.len() ==> is_ws(s[k]),
    ensures
        find_ws(s, i) == k,
    decreases k - i,
{
    if i < k {
        lemma_find_ws_at(s, i + 1, k);
    }
}

/// The two halves of a timing line, each trimmed (`split_once("-->")`).
pub open spec fn timing_halves(line: Seq<char>) -> Option<(Seq<char>, Seq<char>)> {
    let a = find_arrow(line, 0);
    if a >= line.len() {
        None
    } else {
        Some((trim(line.take(a)), trim(line.skip(a + 3))))
    }
}

/// A timing line read as a millisecond span: both timestamps readable (the
/// end being the first token after the arrow, before any WebVTT settings) and
/// the end not before the start.
pub open spec fn timing_spec(line: Seq<char>) -> Option<(u32, u32)> {
    match timing_halves(line) {
        None => None,
        Some((start, end)) => {
            let token = end.take(find_ws(end, 0));
            match (spec_parse_timestamp(start), spec_parse_timestamp(token)) {
                (Some(x), Some(y)) => if y < x {
                    None
                } else {
                    Some((x, y))
                },
                _ => None,
            }
        },
    }
}

/// What an unreadable timing line is reported as: no arrow, an end before
/// the start, or a timestamp that does not read.
pub open spec fn timing_fault(line: Seq<char>) -> Seq<char> {
    match timing_halves(line) {
        None => "missing '-->' in the timing"@,
        Some((start, end)) => {
            let token = end.take(find_ws(end, 0));
            match (spec_parse_timestamp(start), spec_parse_timestamp(token)) {
                (Some(x), Some(y)) => "cue ends before it starts"@,
                _ => "unreadable timestamp in '"@ + trim(line) + seq!['\''],
            }
        },
    }
}

/// Split a timing line into its start and end halves, each trimmed. The end
/// half keeps any trailing WebVTT cue settings.
pub fn split_timing(line: &str) -> (r: Option<(String, String)>)
    ensures
        r is Some <==> timing_halves(line@) is Some,
        r matches Some((a, b)) ==> timing_halves(line@) == Some((a@, b@)),
{
    let v = chars_of(line);
    let a = find_arrow_exec(&v);
    if a >= v.len() {
        return None;
    }
    proof {
        lemma_find_arrow(v@, 0);
    }
    let (s0, s1) = trim_bounds(&v, 0, a);
    let (e0, e1) = trim_bounds(&v, a + 3, v.len());
    proof {
        assert(v@.take(a as int) =~= v@.subrange(0, a as int));
        assert(v@.skip(a + 3) =~= v@.subrange(a + 3, v.len() as int));
    }
    Some((crate::text::string_of_range(&v, s0, s1), crate::text::string_of_range(&v, e0, e1)))
}

/// Read a timing line into a millisecond span; a failure reports `number`.
#[verifier::loop_isolation(false)]
pub fn parse_timing(number: usize, line: &Vec<char>) -> (r: Result<(u32, u32), CaptionError>)
    ensures
        r matches Ok(span) ==> timing_spec(line@) == Some(span),
        r matches Err(e) ==> timing_spec(line@) is None && e.parse_line() == Some(number as nat)
            && e.parse_message() == timing_fault(line@),
{
    let v = line;
    let a = find_arrow_exec(v);
    if a >= v.len() {
        let message = chars_of("missing '-->' in the timing");
        return Err(CaptionError::parse(number, string_of(message.as_slice())));
    }
    proof {
        lemma_find_arrow(v@, 0);
    }
    let (s0, s1) = trim_bounds(v, 0, a);
    let (e0, e1) = trim_bounds(v, a + 3, v.len());
    proof {
        assert(v@.take(a as int) =~= v@.subrange(0, a as int));
        assert(v@.skip(a + 3) =~= v@.subrange(a + 3, v.len() as int));
    }
    let ghost end = v@.subrange(e0 as int, e1 as int);
    let mut w = e0;
    while w < e1 && !is_whitespace(v[w])
        invariant
            e0 <= w <= e1 <= v.len(),
            forall|j: int| e0 <= j < w ==> !is_ws(#[trigger] v@[j]),
        decreases e1 - w,
    {
        w += 1;
    }
    proof {
        assert forall|j: int| 0 <= j < w - e0 implies !is_ws(#[trigger] end[j]) by {
            assert(end[j] == v@[e0 + j]);
        }
        if w < e1 {
            assert(end[w - e0] == v@[w as int]);
        }
        lemma_find_ws_at(end, 0, w - e0);
        assert(end.take(w - e0) =~= v@.subrange(e0 as int, w as int));
    }
    let start_ms = parse_timestamp_chars(v, s0, s1);
    let end_ms = parse_timestamp_chars(v, e0, w);
    match (start_ms, end_ms) {
        (Some(x), Some(y)) => {
            if y < x {
                let message = chars_of("cue ends before it starts");
                Err(CaptionError::parse(number, string_of(message.as_slice())))
            } else {
                Ok((x, y))
            }
        },
        _ => {
            let mut message = chars_of("unreadable timestamp in '");
            let (t0, t1) = trim_bounds(v, 0, v.len());
            append_range(&mut message, v, t0, t1);
            message.push('\'');
            proof {
                assert(v@.subrange(0, v@.len() as int) =~= v@);
            }
            Err(CaptionError::parse(number, string_of(message.as_slice())))
        },
    }
}

/// The subtitle cues of scanned blocks: each block's timing read (a bad one
/// is an error at its line), blocks with blank text dropped.
pub open spec fn cues_spec(blocks: Seq<(nat, Seq<char>, Seq<char>)>) -> Result<
    Seq<(u32, u32, Seq<char>)>,
    nat,
>
    decreases blocks.len(),
{
    if blocks.len() == 0 {
        Ok(Seq::empty())
    } else {
        let b = blocks[0];
        match timing_spec(b.1) {
            None => Err(b.0),
            Some((x, y)) => {
                let rest = cues_spec(blocks.drop_first());
                if is_blank(b.2) {
                    rest
                } else {
                    match rest {
                        Ok(r) => Ok(seq![(x, y, b.2)] + r),
                        Err(n) => Err(n),
                    }
                }
            },
        }
    }
}

/// Every cue read from blocks runs forwards and has something to show.
pub proof fn lemma_cues_spec_sane(blocks: Seq<(nat, Seq<char>, Seq<char>)>)
    ensures
        cues_spec(blocks) matches Ok(r) ==> forall|k: int|
            0 <= k < r.len() ==> (#[trigger] r[k]).0 <= r[k].1 && !is_blank(r[k].2),
    decreases blocks.len(),
{
    if blocks.len() > 0 {
        lemma_cues_spec_sane(blocks.drop_first());
        match cues_spec(blocks) {
            Ok(r) => {
                match timing_spec(blocks[0].1) {
                    Some((x, y)) => {
                        if !is_blank(blocks[0].2) {
                            let rest = cues_spec(blocks.drop_first())->Ok_0;
                            assert forall|k: int| 0 < k < r.len() implies (#[trigger] r[k]) == rest[k - 1] by {}
                        }
                    },
                    None => {},
                }
            },
            Err(_) => {},
        }
    }
}

/// What the first block with an unreadable timing is reported as.
pub open spec fn cues_fault(blocks: Seq<(nat, Seq<char>, Seq<char>)>) -> Seq<char>
    decreases blocks.len(),
{
    if blocks.len() == 0 {
        Seq::empty()
    } else {
        match timing_spec(blocks[0].1) {
            None => timing_fault(blocks[0].1),
            Some(_) => cues_fault(blocks.drop_first()),
        }
    }
}

/// Assemble the cue blocks of an already-scanned file.
#[verifier::loop_isolation(false)]
pub fn cues_from_blocks(blocks: &Vec<RawCue>) -> (r: Result<Vec<SubtitleCue>, CaptionError>)
    ensures
        r matches Ok(cues) ==> cues_spec(raw_view(blocks@)) == Ok::<
            Seq<(u32, u32, Seq<char>)>,
            nat,
        >(cues_view(cues@)),
        r matches Err(e) ==> e.parse_line() is Some && cues_spec(raw_view(blocks@)) == Err::<
            Seq<(u32, u32, Seq<char>)>,
            nat,
        >(e.parse_line()->0) && e.parse_message() == cues_fault(raw_view(blocks@)),
{
    let ghost all = raw_view(blocks@);
    let mut cues: Vec<SubtitleCue> = Vec::new();
    let mut i: usize = 0;
    proof {
        assert(all.skip(0) =~= all);
        match cues_spec(all) {
            Ok(r) => {
                assert(cues_view(cues@) + r =~= r);
            },
            Err(_) => {},
        }
    }
    loop
        invariant
            i <= blocks.len(),
            all == raw_view(blocks@),
            cues_spec(all) == (match cues_spec(all.skip(i as int)) {
                Ok(r) => Ok(cues_view(cues@) + r),
                Err(n) => Err::<Seq<(u32, u32, Seq<char>)>, nat>(n),
            }),
            cues_fault(all) == cues_fault(all.skip(i as int)),
        decreases blocks.len() - i,
    {
        if i >= blocks.len() {
            proof {
                assert(all.skip(i as int) =~= Seq::<(nat, Seq<char>, Seq<char>)>::empty());
                assert(cues_view(cues@) + Seq::<(u32, u32, Seq<char>)>::empty() =~= cues_view(
                    cues@,
                ));
            }
            return Ok(cues);
        }
        let block = &blocks[i];
        proof {
            assert(all.skip(i as int)[0] == block@);
            assert(all.skip(i as int).drop_first() =~= all.skip(i + 1));
        }
        let (start_ms, end_ms) = match parse_timing(block.number, &block.timing) {
            Ok(span) => span,
            Err(e) => {
                return Err(e);
            },
        };
        if !blank(&block.text) {
            let ghost prev = cues_view(cues@);
            let mut text: Vec<char> = Vec::new();
            append_range(&mut text, &block.text, 0, block.text.len());
            assert(text@ =~= block.text@);
            cues.push(SubtitleCue { start_ms, end_ms, text: string_of(text.as_slice()) });
            proof {
                assert(cues_view(cues@) =~= prev.push((start_ms, end_ms, block.text@)));
                match cues_spec(all.skip(i + 1)) {
                    Ok(r) => {
                        assert(prev + (seq![(start_ms, end_ms, block.text@)] + r) =~= cues_view(
                            cues@,
                        ) + r);
                    },
                    Err(_) => {},
                }
            }
        }
        i += 1;
    }
}


proof fn lemma_digit_char(d: nat)
    requires
        d < 10,
    ensures
        is_digit(digit_char(d)),
        digit_val(digit_char(d)) == d,
        !is_ws(digit_char(d)),
        digit_char(d) != ':' && digit_char(d) != ',' && digit_char(d) != '.',
        digit_char(d) != '<' && digit_char(d) != '{' && digit_char(d) != '&',
        digit_char(d) != '-' && digit_char(d) != '\n' && digit_char(d) != '\u{feff}',
{
    assert((('0' as u32) + d) as u32 == 48 + d);
    vstd::utf8::char_u32_cast(digit_char(d), (48 + d) as u32);
}

/// Characters that never appear in a rendered number.
pub open spec fn plain_digit_char(c: char) -> bool {
    &&& is_digit(c)
    &&& !is_ws(c)
    &&& c != ':' && c != ',' && c != '.' && c != '<' && c != '{' && c != '&' && c != '-'
    &&& c != '\n' && c != '\u{feff}'
}

/// Facts about `dec`: a non-empty digit string that reads back as `n`.
pub proof fn lemma_dec(n: nat)
    ensures
        dec(n).len() >= 1,
        all_digits(dec(n)),
        decimal(dec(n)) == n,
        n < 10 ==> dec(n).len() == 1,
        n < 100 ==> dec(n).len() <= 2,
        n < 1000 ==> dec(n).len() <= 3,
        forall|i: int| 0 <= i < dec(n).len() ==> plain_digit_char(#[trigger] dec(n)[i]),
    decreases n,
{
    if n < 10 {
        lemma_digit_char(n);
        assert(dec(n).drop_last() =~= Seq::<char>::empty());
        assert(decimal(dec(n).drop_last()) == 0);
        assert(decimal(dec(n)) == decimal(dec(n).drop_last()) * 10 + digit_val(dec(n).last()));
    } else {
        lemma_dec(n / 10);
        lemma_digit_char(n % 10);
        let d = dec(n);
        assert(d.drop_last() =~= dec(n / 10));
        assert(d.last() == digit_char(n % 10));
        assert(decimal(d) == decimal(dec(n / 10)) * 10 + n % 10);
        assert forall|i: int| 0 <= i < d.len() implies plain_digit_char(#[trigger] d[i]) by {
            if i < d.len() - 1 {
                assert(d[i] == dec(n / 10)[i]);
            }
        }
    }
}

proof fn lemma_decimal_zero_prefix(z: nat, d: Seq<char>)
    ensures
        decimal(Seq::new(z, |i: int| '0') + d) == decimal(d),
    decreases d.len(), z,
{
    let zs = Seq::new(z, |i: int| '0');
    if d.len() > 0 {
        assert((zs + d).drop_last() =~= zs + d.drop_last());
        lemma_decimal_zero_prefix(z, d.drop_last());
    } else if z > 0 {
        assert((zs + d).drop_last() =~= Seq::new((z - 1) as nat, |i: int| '0') + d);
        lemma_decimal_zero_prefix((z - 1) as nat, d);
        assert(digit_val('0') == 0);
    } else {
        assert(zs + d =~= d);
    }
}

/// Facts about `padded`: digits only, reading back as `n`.
pub proof fn lemma_padded(n: nat, w: nat)
    ensures
        all_digits(padded(n, w)),
        decimal(padded(n, w)) == n,
        padded(n, w).len() >= w,
        padded(n, w).len() >= 1,
        w <= 1 ==> padded(n, w) == dec(n),
        n < 100 && w == 2 ==> padded(n, w).len() == 2,
        n < 1000 && w == 3 ==> padded(n, w).len() == 3,
        forall|i: int| 0 <= i < padded(n, w).len() ==> plain_digit_char(#[trigger] padded(n, w)[i]),
{
    lemma_dec(n);
    let d = dec(n);
    if d.len() < w {
        let z = (w - d.len()) as nat;
        let p = padded(n, w);
        lemma_decimal_zero_prefix(z, d);
        lemma_digit_char(0);
        assert(digit_char(0) == '0');
        assert forall|i: int| 0 <= i < p.len() implies plain_digit_char(#[trigger] p[i]) by {
            if i >= z {
                assert(p[i] == d[i - z]);
            } else {
                assert(p[i] == '0');
            }
        }
        assert forall|i: int| 0 <= i < p.len() implies is_digit(#[trigger] p[i]) by {
            assert(plain_digit_char(p[i]));
        }
    }
}

pub proof fn lemma_no_ws_trim(s: Seq<char>)
    requires
        forall|i: int| 0 <= i < s.len() ==> !is_ws(#[trigger] s[i]),
    ensures
        trim(s) == s,
{
    crate::text::lemma_lead_ws_char(s, 0);
    assert(s.skip(0) =~= s);
    crate::text::lemma_trail_ws_char(s, s.len() as int);
    assert(s.take(s.len() as int) =~= s);
}

proof fn lemma_three_digits(t: Seq<char>)
    requires
        t.len() == 3,
    ensures
        decimal(t) == frac_digit(t, 0) * 100 + frac_digit(t, 1) * 10 + frac_digit(t, 2),
{
    let t2 = t.drop_last();
    let t1 = t2.drop_last();
    let t0 = t1.drop_last();
    assert(t0.len() == 0);
    assert(decimal(t1) == decimal(t0) * 10 + digit_val(t[0]));
    assert(decimal(t2) == decimal(t1) * 10 + digit_val(t[1]));
}

/// The characters of a rendered timestamp: digits, two colons and the
/// separator.
pub proof fn lemma_timestamp_text_chars(ms: nat, sep: char)
    requires
        ms <= u32::MAX,
    ensures
        forall|i: int|
            0 <= i < timestamp_text(ms, sep).len() ==> (plain_digit_char(
                #[trigger] timestamp_text(ms, sep)[i],
            ) || timestamp_text(ms, sep)[i] == ':' || timestamp_text(ms, sep)[i] == sep),
        timestamp_text(ms, sep).len() >= 12,
        plain_digit_char(timestamp_text(ms, sep)[0]),
        plain_digit_char(timestamp_text(ms, sep).last()),
{
    let seconds = ms / 1000;
    let minutes = seconds / 60;
    let hours = minutes / 60;
    let ph = padded(hours, 2);
    let pm = padded(minutes % 60, 2);
    let ps = padded(seconds % 60, 2);
    let pf = padded(ms % 1000, 3);
    lemma_padded(hours, 2);
    lemma_padded(minutes % 60, 2);
    lemma_padded(seconds % 60, 2);
    lemma_padded(ms % 1000, 3);
    let text = timestamp_text(ms, sep);
    let a = ph.len() as int;
    let b = a + 1 + pm.len();
    let c = b + 1 + ps.len();
    assert forall|i: int| 0 <= i < text.len() implies (plain_digit_char(#[trigger] text[i])
        || text[i] == ':' || text[i] == sep) by {
        if i < a {
            assert(text[i] == ph[i]);
        } else if i == a {
        } else if i < b {
            assert(text[i] == pm[i - a - 1]);
        } else if i == b {
        } else if i < c {
            assert(text[i] == ps[i - b - 1]);
        } else if i == c {
        } else {
            assert(text[i] == pf[i - c - 1]);
        }
    }
    assert(text[0] == ph[0]);
    assert(text.last() == pf[pf.len() - 1]);
}

/// Formatting a timestamp and reading it back gives the same milliseconds,
/// with either separator.
pub proof fn lemma_timestamp_round_trip(ms: u32, sep: char)
    requires
        sep == ',' || sep == '.',
    ensures
        spec_parse_timestamp(timestamp_text(ms as nat, sep)) == Some(ms),
{
    let m = ms as nat;
    let seconds = m / 1000;
    let minutes = seconds / 60;
    let hours = minutes / 60;
    let ph = padded(hours, 2);
    let pm = padded(minutes % 60, 2);
    let ps = padded(seconds % 60, 2);
    let pf = padded(m % 1000, 3);
    lemma_padded(hours, 2);
    lemma_padded(minutes % 60, 2);
    lemma_padded(seconds % 60, 2);
    lemma_padded(m % 1000, 3);
    let text = timestamp_text(m, sep);
    let colon = seq![':'];
    assert(text =~= ph + colon + pm + colon + ps + seq![sep] + pf);
    let a = ph.len() as int;
    let b = a + 1 + pm.len();
    let c = b + 1 + ps.len();
    assert forall|i: int| 0 <= i < text.len() implies !is_ws(#[trigger] text[i]) by {
        if i < a {
            assert(text[i] == ph[i]);
        } else if i == a {
        } else if i < b {
            assert(text[i] == pm[i - a - 1]);
        } else if i == b {
        } else if i < c {
            assert(text[i] == ps[i - b - 1]);
        } else if i == c {
        } else {
            assert(text[i] == pf[i - c - 1]);
        }
    }
    lemma_no_ws_trim(text);
    assert forall|k: int| 0 <= k < c implies text[k] != ',' && text[k] != '.' by {
        if k < a {
            assert(text[k] == ph[k]);
        } else if k == a {
        } else if k < b {
            assert(text[k] == pm[k - a - 1]);
        } else if k == b {
        } else {
            assert(text[k] == ps[k - b - 1]);
        }
    }
    lemma_find_fraction_from(text, 0, c);
    let whole = text.take(c);
    assert(whole =~= ph + colon + pm + colon + ps);
    assert forall|k: int| 0 <= k < a implies whole[k] != ':' by {
        assert(whole[k] == ph[k]);
    }
    lemma_find_from_at(whole, 0, a, ':');
    let r1 = whole.skip(a + 1);
    assert(r1 =~= pm + colon + ps);
    assert forall|k: int| 0 <= k < pm.len() implies r1[k] != ':' by {
        assert(r1[k] == pm[k]);
    }
    lemma_find_from_at(r1, 0, pm.len() as int, ':');
    let r2 = r1.skip(pm.len() as int + 1);
    assert(r2 =~= ps);
    assert forall|k: int| 0 <= k < ps.len() implies r2[k] != ':' by {
        assert(r2[k] == ps[k]);
    }
    lemma_find_from_at(r2, 0, ps.len() as int, ':');
    assert(whole.take(a) =~= ph);
    assert(r1.take(pm.len() as int) =~= pm);
    assert(split_on(r2, ':') == seq![ps]);
    assert(split_on(r1, ':') =~= seq![pm] + seq![ps]);
    let parts = split_on(whole, ':');
    assert(parts =~= seq![ph, pm, ps]);
    assert forall|i: int| 0 <= i < ph.len() implies !is_ws(#[trigger] ph[i]) by {
        assert(plain_digit_char(ph[i]));
    }
    assert forall|i: int| 0 <= i < pm.len() implies !is_ws(#[trigger] pm[i]) by {
        assert(plain_digit_char(pm[i]));
    }
    assert forall|i: int| 0 <= i < ps.len() implies !is_ws(#[trigger] ps[i]) by {
        assert(plain_digit_char(ps[i]));
    }
    assert forall|i: int| 0 <= i < pf.len() implies !is_ws(#[trigger] pf[i]) by {
        assert(plain_digit_char(pf[i]));
    }
    lemma_no_ws_trim(ph);
    lemma_no_ws_trim(pm);
    lemma_no_ws_trim(ps);
    lemma_no_ws_trim(pf);
    assert(field_value(ph) == Some(hours));
    assert(field_value(pm) == Some(minutes % 60));
    assert(field_value(ps) == Some(seconds % 60));
    assert(parts.drop_last() =~= seq![ph, pm]);
    assert(parts.drop_last().drop_last() =~= seq![ph]);
    assert(seq![ph].drop_last() =~= Seq::<Seq<char>>::empty());
    assert(sexagesimal(Seq::<Seq<char>>::empty()) == Some(0nat));
    assert(seq![ph].last() == ph);
    assert(sexagesimal(seq![ph]) == Some(hours));
    assert(sexagesimal(seq![ph, pm]) == Some(hours * 60 + minutes % 60));
    assert(sexagesimal(parts) == Some((hours * 60 + minutes % 60) * 60 + seconds % 60));
    assert(text.skip(c + 1) =~= pf);
    lemma_three_digits(pf);
    assert(fraction_ms(pf) == Some(m % 1000));
    assert(hours * 60 + minutes % 60 == minutes) by (nonlinear_arith)
        requires
            hours == minutes / 60,
    ;
    assert(minutes * 60 + seconds % 60 == seconds) by (nonlinear_arith)
        requires
            minutes == seconds / 60,
    ;
    assert(seconds * 1000 + m % 1000 == m) by (nonlinear_arith)
        requires
            seconds == m / 1000,
    ;
    assert(timestamp_ms(text) == Some(m));
}

} // verus!
