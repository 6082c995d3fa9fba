//! Small scanning helpers shared by the line-oriented text parsers.
//!
//! Every subtitle format handled by this crate is line-oriented and has a fixed shape, so the
//! parsers are plain scanners: each one either consumes the exact syntax it expects and returns
//! the remainder, or returns `None`. The grammar is stated over the characters of a line, with
//! positions, by the specification functions of this module.

use crate::text::{
    chars_of, chars_view, decimal, digit_char, has_at, is_blank, is_unicode_ws, lead_len,
    padded, skip_blanks_at, slice_of, string_of, trail_len,
    trim_blanks_end,
};
use crate::errors::IntErrorKind;
use crate::timetypes::{components_fit, fits_i64};
use vstd::prelude::*;

verus! {

// ---------------------------------------------------------------------------------------------
// numbers

pub open spec fn is_digit(c: char) -> bool {
    '0' <= c <= '9'
}

pub open spec fn digit_value(c: char) -> int {
    c as int - '0' as int
}

/// The end of the run of ASCII digits that starts at `i`.
pub open spec fn digits_end(s: Seq<char>, i: int) -> int
    decreases s.len() - i,
{
    if 0 <= i < s.len() && is_digit(s[i]) {
        digits_end(s, i + 1)
    } else {
        i
    }
}

/// The value of the decimal digits `s[i..j]`.
pub open spec fn digits_value(s: Seq<char>, i: int, j: int) -> int
    decreases j - i,
{
    if j <= i {
        0
    } else {
        10 * digits_value(s, i, j - 1) + digit_value(s[j - 1])
    }
}

/// An optionally negative run of ASCII digits at `i` whose value fits into an `i64`: the value
/// and the position after the last digit.
pub open spec fn number_at(s: Seq<char>, i: int) -> Option<(int, int)> {
    let neg = 0 <= i < s.len() && s[i] == '-';
    let d = if neg {
        i + 1
    } else {
        i
    };
    let e = digits_end(s, d);
    if e == d {
        None
    } else {
        let v = digits_value(s, d, e);
        if (neg && v > i64::MAX + 1) || (!neg && v > i64::MAX) {
            None
        } else {
            Some(
                (
                    if neg {
                        -v
                    } else {
                        v
                    },
                    e,
                ),
            )
        }
    }
}

/// The run of digits at `i` ends at the first non-digit.
pub proof fn lemma_digits_end(s: Seq<char>, i: int)
    requires
        0 <= i <= s.len(),
    ensures
        i <= digits_end(s, i) <= s.len(),
        forall|j: int| i <= j < digits_end(s, i) ==> is_digit(#[trigger] s[j]),
        digits_end(s, i) < s.len() ==> !is_digit(s[digits_end(s, i)]),
    decreases s.len() - i,
{
    if i < s.len() && is_digit(s[i]) {
        lemma_digits_end(s, i + 1);
    }
}

/// Appending digits never makes a number smaller.
pub proof fn lemma_digits_value_grows(s: Seq<char>, i: int, j: int, k: int)
    requires
        i <= j <= k <= s.len(),
        0 <= i,
        forall|m: int| i <= m < k ==> is_digit(#[trigger] s[m]),
    ensures
        0 <= digits_value(s, i, j) <= digits_value(s, i, k),
    decreases k - i,
{
    if k > j {
        lemma_digits_value_grows(s, i, j, k - 1);
        assert(is_digit(s[k - 1]));
    } else if j > i {
        lemma_digits_value_grows(s, i, j - 1, j - 1);
        assert(is_digit(s[j - 1]));
    }
}

fn is_digit_char(c: char) -> (r: bool)
    ensures
        r == is_digit(c),
{
    '0' <= c && c <= '9'
}

/// The number at `i` of `s`, as `number_at` states it.
pub fn scan_number(s: &[char], i: usize) -> (r: Option<(i64, usize)>)
    requires
        i <= s@.len(),
    ensures
        match r {
            Some((v, e)) => number_at(s@, i as int) == Some((v as int, e as int)),
            None => number_at(s@, i as int) is None,
        },
        r matches Some((v, e)) ==> i < e <= s@.len(),
{
    let neg = i < s.len() && s[i] == '-';
    let d = if neg {
        i + 1
    } else {
        i
    };
    let mut k = d;
    let limit: i128 = if neg {
        9223372036854775808
    } else {
        9223372036854775807
    };
    let mut acc: i128 = 0;
    let mut overflow = false;
    proof {
        lemma_digits_end(s@, d as int);
    }
    while k < s.len() && is_digit_char(s[k])
        invariant
            d <= k <= s@.len(),
            s@.len() == s.len(),
            k <= digits_end(s@, d as int),
            digits_end(s@, d as int) == digits_end(s@, k as int),
            forall|j: int| d <= j < digits_end(s@, d as int) ==> is_digit(#[trigger] s@[j]),
            limit == (if neg {
                i64::MAX + 1
            } else {
                i64::MAX as int
            }),
            !overflow ==> acc == digits_value(s@, d as int, k as int),
            overflow ==> digits_value(s@, d as int, k as int) > limit,
            0 <= acc <= limit,
        decreases s@.len() - k,
    {
        let dv = (s[k] as u32 - '0' as u32) as i128;
        proof {
            lemma_digits_value_grows(s@, d as int, k as int, k + 1);
            lemma_digits_end(s@, k + 1);
        }
        if !overflow {
            if acc * 10 + dv > limit {
                overflow = true;
            } else {
                acc = acc * 10 + dv;
            }
        }
        k = k + 1;
    }
    if k == d {
        return None;
    }
    proof {
        lemma_digits_value_grows(s@, d as int, k as int, k as int);
    }
    if overflow {
        return None;
    }
    let v: i64 = if neg {
        (-acc) as i64
    } else {
        acc as i64
    };
    Some((v, k))
}

// ---------------------------------------------------------------------------------------------
// whitespace and byte order marks

/// The position of the first character at or after `i` that is not a space or tab.
pub open spec fn blanks_end(s: Seq<char>, i: int) -> int {
    i + lead_len(s.skip(i), |c: char| is_blank(c))
}

/// The position just after the last character of `s[i..j]` that is not a space or tab (`i` if
/// there is none).
pub open spec fn blanks_start(s: Seq<char>, i: int, j: int) -> int {
    j - trail_len(s.subrange(i, j), |c: char| is_blank(c))
}

/// Splits off a leading UTF-8 byte order mark.
///
/// Returns `(bom, rest)`; `bom` is empty when the string does not start with one.
pub fn split_bom(s: &str) -> (r: (&str, &str))
    ensures
        r.0@ + r.1@ == s@,
        r.0@ == (if s@.len() > 0 && s@[0] == '\u{feff}' {
            seq!['\u{feff}']
        } else {
            Seq::<char>::empty()
        }),
{
    let n = s.unicode_len();
    if n > 0 && s.get_char(0) == '\u{feff}' {
        let bom = s.substring_char(0, 1);
        let rest = s.substring_char(1, n);
        assert(bom@ =~= seq!['\u{feff}']);
        assert(bom@ + rest@ =~= s@);
        (bom, rest)
    } else {
        let none = s.substring_char(0, 0);
        assert(none@ + s@ =~= s@);
        (none, s)
    }
}

/// Skips spaces and tabs (and nothing else: `\r` is a line ending here, not filler).
pub fn skip_ws(s: &str) -> (r: &str)
    ensures
        r@ == s@.skip(blanks_end(s@, 0)),
{
    let cs = chars_of(s);
    let k = skip_blanks_at(cs.as_slice(), 0);
    s.substring_char(k, cs.len())
}

/// Splits a string into `(leading whitespace, trimmed middle, trailing whitespace)`.
///
/// Only `' '` and `'\t'` count as whitespace, so line endings are never eaten.
pub fn trim_non_destructive(s: &str) -> (r: (&str, &str, &str))
    ensures
        r.0@ + r.1@ + r.2@ == s@,
        r.0@ == s@.take(blanks_end(s@, 0)),
        r.1@ == s@.subrange(blanks_end(s@, 0), blanks_start(s@, blanks_end(s@, 0), s@.len() as int)),
{
    let cs = chars_of(s);
    let a = skip_blanks_at(cs.as_slice(), 0);
    let b = trim_blanks_end(cs.as_slice(), a, cs.len());
    let r0 = s.substring_char(0, a);
    let r1 = s.substring_char(a, b);
    let r2 = s.substring_char(b, cs.len());
    assert(r0@ + r1@ + r2@ =~= s@);
    (r0, r1, r2)
}

/// Parses an optionally negative run of ASCII digits.
///
/// Returns the value and the unconsumed remainder, or `None` if there is no digit or the number
/// does not fit into an `i64`.
pub fn take_number(s: &str) -> (r: Option<(i64, &str)>)
    ensures
        r is None <==> number_at(s@, 0) is None,
        r matches Some((v, rest)) ==> number_at(s@, 0) == Some(
            (v as int, s@.len() - rest@.len()),
        ) && rest@ == s@.skip(s@.len() - rest@.len()),
{
    let cs = chars_of(s);
    match scan_number(cs.as_slice(), 0) {
        None => None,
        Some((v, e)) => {
            let rest = s.substring_char(e, cs.len());
            Some((v, rest))
        },
    }
}

// ---------------------------------------------------------------------------------------------
// timestamps

/// A separator `sep` at `i` followed by a number.
pub open spec fn sep_number_at(s: Seq<char>, i: int, sep: char) -> Option<(int, int)> {
    if 0 <= i < s.len() && s[i] == sep {
        number_at(s, i + 1)
    } else {
        None
    }
}

/// `hours:minutes:seconds` at `i`: the three numbers and the position after them.
#[verifier::opaque]
pub open spec fn hms_at(s: Seq<char>, i: int) -> Option<(int, int, int, int)> {
    match number_at(s, i) {
        None => None,
        Some((h, a)) => match sep_number_at(s, a, ':') {
            None => None,
            Some((m, b)) => match sep_number_at(s, b, ':') {
                None => None,
                Some((sec, c)) => Some((h, m, sec, c)),
            },
        },
    }
}

/// The milliseconds that the components stand for, when every step of the sum fits an `i64`.
pub open spec fn checked_clock(h: int, m: int, sec: int, ms: int) -> Option<int> {
    if components_fit(h, m, sec, ms) {
        Some(ms + 1000 * (sec + 60 * (m + 60 * h)))
    } else {
        None
    }
}

/// A `SubRip` timestamp like `00:24:45,670` at `i`: milliseconds and the position after it.
#[verifier::opaque]
pub open spec fn srt_timestamp_at(s: Seq<char>, i: int) -> Option<(int, int)> {
    match hms_at(s, i) {
        None => None,
        Some((h, m, sec, c)) => match sep_number_at(s, c, ',') {
            None => None,
            Some((ms, e)) => match checked_clock(h, m, sec, ms) {
                None => None,
                Some(t) => Some((t, e)),
            },
        },
    }
}

/// A whole `SubRip` timespan line: optional blanks, a timestamp, blanks, `-->`, blanks, a
/// timestamp and optional blanks.
pub open spec fn srt_timespan_spec(s: Seq<char>) -> Option<(int, int)> {
    match srt_timestamp_at(s, blanks_end(s, 0)) {
        None => None,
        Some((a, i)) => {
            let j = blanks_end(s, i);
            if !has_at(s, j, seq!['-', '-', '>']) {
                None
            } else {
                match srt_timestamp_at(s, blanks_end(s, j + 3)) {
                    None => None,
                    Some((b, k)) => if blanks_end(s, k) == s.len() {
                        Some((a, b))
                    } else {
                        None
                    },
                }
            }
        },
    }
}

/// A `SubStation Alpha` timepoint like `0:19:41.99` that makes up the whole of `s`.
#[verifier::opaque]
pub open spec fn ssa_timepoint_spec(s: Seq<char>) -> Option<int> {
    match hms_at(s, 0) {
        None => None,
        Some((h, m, sec, c)) => if 0 <= c < s.len() && (s[c] == '.' || s[c] == ':') {
            match number_at(s, c + 1) {
                None => None,
                Some((cs, e)) => if e != s.len() || !fits_i64(cs * 10) {
                    None
                } else {
                    checked_clock(h, m, sec, cs * 10)
                },
            }
        } else {
            None
        },
    }
}

/// A `VobSub` `.idx` timestamp like `00:41:36:961` that makes up the whole of `s`.
pub open spec fn idx_timestamp_spec(s: Seq<char>) -> Option<int> {
    match hms_at(s, 0) {
        None => None,
        Some((h, m, sec, c)) => match sep_number_at(s, c, ':') {
            None => None,
            Some((ms, e)) => if e != s.len() {
                None
            } else {
                checked_clock(h, m, sec, ms)
            },
        },
    }
}

fn sep_number(s: &[char], i: usize, sep: char) -> (r: Option<(i64, usize)>)
    requires
        i <= s@.len(),
    ensures
        match r {
            Some((v, e)) => sep_number_at(s@, i as int, sep) == Some((v as int, e as int)),
            None => sep_number_at(s@, i as int, sep) is None,
        },
        r matches Some((v, e)) ==> i < e <= s@.len(),
{
    if i < s.len() && s[i] == sep {
        scan_number(s, i + 1)
    } else {
        None
    }
}

fn scan_hms(s: &[char], i: usize) -> (r: Option<(i64, i64, i64, usize)>)
    requires
        i <= s@.len(),
    ensures
        match r {
            Some((h, m, sec, e)) => hms_at(s@, i as int) == Some(
                (h as int, m as int, sec as int, e as int),
            ),
            None => hms_at(s@, i as int) is None,
        },
        r matches Some((h, m, sec, e)) ==> i < e <= s@.len(),
{
    reveal(hms_at);
    let (h, a) = match scan_number(s, i) {
        None => {
            return None;
        },
        Some(x) => x,
    };
    let (m, b) = match sep_number(s, a, ':') {
        None => {
            return None;
        },
        Some(x) => x,
    };
    let (sec, c) = match sep_number(s, b, ':') {
        None => {
            return None;
        },
        Some(x) => x,
    };
    Some((h, m, sec, c))
}

fn in_i64(x: i128) -> (r: bool)
    ensures
        r == fits_i64(x as int),
{
    i64::MIN as i128 <= x && x <= i64::MAX as i128
}

/// `ms + 1000 * (sec + 60 * (m + 60 * h))`, or `None` where a step of the sum leaves `i64`.
fn clock_components(h: i64, m: i64, sec: i64, ms: i64) -> (r: Option<i64>)
    ensures
        match r {
            Some(t) => checked_clock(h as int, m as int, sec as int, ms as int) == Some(t as int),
            None => checked_clock(h as int, m as int, sec as int, ms as int) is None,
        },
{
    let a = 60 * (h as i128);
    let b = (m as i128) + a;
    let c = 60 * b;
    let d = (sec as i128) + c;
    let e = 1000 * d;
    let f = (ms as i128) + e;
    if in_i64(a) && in_i64(b) && in_i64(c) && in_i64(d) && in_i64(e) && in_i64(f) {
        Some(f as i64)
    } else {
        None
    }
}

fn scan_srt_timestamp(s: &[char], i: usize) -> (r: Option<(i64, usize)>)
    requires
        i <= s@.len(),
    ensures
        match r {
            Some((t, e)) => srt_timestamp_at(s@, i as int) == Some((t as int, e as int)),
            None => srt_timestamp_at(s@, i as int) is None,
        },
        r matches Some((t, e)) ==> i < e <= s@.len(),
{
    reveal(srt_timestamp_at);
    let (h, m, sec, c) = match scan_hms(s, i) {
        None => {
            return None;
        },
        Some(x) => x,
    };
    let (ms, e) = match sep_number(s, c, ',') {
        None => {
            return None;
        },
        Some(x) => x,
    };
    match clock_components(h, m, sec, ms) {
        None => None,
        Some(t) => Some((t, e)),
    }
}

/// Parses a whole `SubRip` timespan line like `00:24:45,670 --> 00:24:45,680`.
///
/// Returns `(start, end)` in milliseconds. Leading, trailing and inner spaces and tabs are
/// allowed; anything else on the line makes it fail.
pub fn srt_timespan(line: &str) -> (r: Option<(i64, i64)>)
    ensures
        match r {
            Some((a, b)) => srt_timespan_spec(line@) == Some((a as int, b as int)),
            None => srt_timespan_spec(line@) is None,
        },
{
    let cs = chars_of(line);
    let s = cs.as_slice();
    let i0 = skip_blanks_at(s, 0);
    assert(s@.skip(0) =~= s@);
    let (a, i) = match scan_srt_timestamp(s, i0) {
        None => {
            return None;
        },
        Some(x) => x,
    };
    let j = skip_blanks_at(s, i);
    if !(s.len() - j >= 3 && s[j] == '-' && s[j + 1] == '-' && s[j + 2] == '>') {
        proof {
            if has_at(s@, j as int, seq!['-', '-', '>']) {
                assert(s@.subrange(j as int, j + 3)[0] == s@[j as int]);
                assert(s@.subrange(j as int, j + 3)[1] == s@[j + 1]);
                assert(s@.subrange(j as int, j + 3)[2] == s@[j + 2]);
            }
        }
        return None;
    }
    assert(s@.subrange(j as int, j + 3) =~= seq!['-', '-', '>']);
    let k0 = skip_blanks_at(s, j + 3);
    let (b, k) = match scan_srt_timestamp(s, k0) {
        None => {
            return None;
        },
        Some(x) => x,
    };
    if skip_blanks_at(s, k) == s.len() {
        Some((a, b))
    } else {
        None
    }
}

/// Parses a `SubStation Alpha` timepoint like `0:19:41.99`, returning milliseconds.
///
/// The separator before the hundredths may be `.` or `:`; the whole string has to be consumed.
pub fn ssa_timepoint(s: &str) -> (r: Option<i64>)
    ensures
        match r {
            Some(t) => ssa_timepoint_spec(s@) == Some(t as int),
            None => ssa_timepoint_spec(s@) is None,
        },
{
    reveal(ssa_timepoint_spec);
    let cs = chars_of(s);
    let v = cs.as_slice();
    let (h, m, sec, c) = match scan_hms(v, 0) {
        None => {
            return None;
        },
        Some(x) => x,
    };
    if !(c < v.len() && (v[c] == '.' || v[c] == ':')) {
        return None;
    }
    let (csecs, e) = match scan_number(v, c + 1) {
        None => {
            return None;
        },
        Some(x) => x,
    };
    if e != v.len() {
        return None;
    }
    let ms = (csecs as i128) * 10;
    if !in_i64(ms) {
        return None;
    }
    clock_components(h, m, sec, ms as i64)
}

/// Parses a `VobSub` `.idx` timestamp like `00:41:36:961`, returning milliseconds.
///
/// The whole string has to be consumed.
pub fn idx_timestamp(s: &str) -> (r: Option<i64>)
    ensures
        match r {
            Some(t) => idx_timestamp_spec(s@) == Some(t as int),
            None => idx_timestamp_spec(s@) is None,
        },
{
    let cs = chars_of(s);
    let v = cs.as_slice();
    let (h, m, sec, c) = match scan_hms(v, 0) {
        None => {
            return None;
        },
        Some(x) => x,
    };
    let (ms, e) = match sep_number(v, c, ':') {
        None => {
            return None;
        },
        Some(x) => x,
    };
    if e != v.len() {
        return None;
    }
    clock_components(h, m, sec, ms)
}

// ---------------------------------------------------------------------------------------------
// searching

/// The first position at or after `i` and before `j` that holds `c`.
pub open spec fn find_char(s: Seq<char>, i: int, j: int, c: char) -> Option<int>
    decreases j - i,
{
    if i < 0 || i >= j || j > s.len() {
        None
    } else if s[i] == c {
        Some(i)
    } else {
        find_char(s, i + 1, j, c)
    }
}

/// `find_char` finds the first `c` in `s[i..j]`, or there is none.
pub proof fn lemma_find_char(s: Seq<char>, i: int, j: int, c: char)
    requires
        0 <= i,
        j <= s.len(),
    ensures
        find_char(s, i, j, c) matches Some(k) ==> i <= k < j && s[k] == c && forall|m: int|
            i <= m < k ==> s[m] != c,
        find_char(s, i, j, c) is None ==> forall|m: int| i <= m < j ==> s[m] != c,
    decreases j - i,
{
    if i < j && s[i] != c {
        lemma_find_char(s, i + 1, j, c);
    }
}

/// The first position at or after `i` and before `j` that holds `c`.
pub fn find_char_at(s: &[char], i: usize, j: usize, c: char) -> (r: Option<usize>)
    requires
        i <= j <= s@.len(),
    ensures
        match r {
            Some(k) => find_char(s@, i as int, j as int, c) == Some(k as int),
            None => find_char(s@, i as int, j as int, c) is None,
        },
        r matches Some(k) ==> i <= k < j,
{
    let mut k = i;
    proof {
        lemma_find_char(s@, i as int, j as int, c);
    }
    while k < j
        invariant
            i <= k <= j,
            j <= s@.len(),
            find_char(s@, i as int, j as int, c) == find_char(s@, k as int, j as int, c),
        decreases j - k,
    {
        if s[k] == c {
            return Some(k);
        }
        k = k + 1;
    }
    None
}

// ---------------------------------------------------------------------------------------------
// `.idx` and `.ssa` lines

pub open spec fn timestamp_keyword() -> Seq<char> {
    seq!['t', 'i', 'm', 'e', 's', 't', 'a', 'm', 'p', ':']
}

pub open spec fn dialogue_keyword() -> Seq<char> {
    seq!['D', 'i', 'a', 'l', 'o', 'g', 'u', 'e', ':']
}

pub open spec fn is_stamp_char(c: char) -> bool {
    is_digit(c) || c == ':'
}

/// Where the pieces of an `.idx` `timestamp:` line begin: the keyword, the blanks after it, the
/// timestamp and the rest of the line.
pub open spec fn idx_line_spec(s: Seq<char>) -> Option<(int, int, int, int)> {
    let a = blanks_end(s, 0);
    if !has_at(s, a, timestamp_keyword()) {
        None
    } else {
        let b = a + 10;
        let c = blanks_end(s, b);
        let t = c + lead_len(s.skip(c), |ch: char| is_stamp_char(ch));
        Some((a, b, c, t))
    }
}

fn keyword_at(s: &[char], at: usize, kw: &str) -> (r: bool)
    requires
        at <= s@.len(),
    ensures
        r == has_at(s@, at as int, kw@),
{
    let k = chars_of(kw);
    crate::text::matches_at(s, at, k.as_slice())
}

/// The end of the run of digits and colons that starts at `from`.
fn stamp_end_at(s: &[char], from: usize) -> (r: usize)
    requires
        from <= s@.len(),
    ensures
        r == from + lead_len(s@.skip(from as int), |c: char| is_stamp_char(c)),
        r <= s@.len(),
{
    let mut i = from;
    while i < s.len() && (is_digit_char(s[i]) || s[i] == ':')
        invariant
            from <= i <= s@.len(),
            forall|j: int| from <= j < i ==> is_stamp_char(#[trigger] s@[j]),
        decreases s@.len() - i,
    {
        i = i + 1;
    }
    proof {
        let t = s@.skip(from as int);
        assert forall|j: int| 0 <= j < i - from implies (|c: char| is_stamp_char(c))(
            #[trigger] t[j],
        ) by {
            assert(t[j] == s@[from + j]);
        }
        if i < s@.len() {
            assert(t[i - from] == s@[i as int]);
        }
        crate::text::lemma_lead_len_exact(t, |c: char| is_stamp_char(c), i - from);
    }
    i
}

/// Splits an `.idx` line like `timestamp: 00:41:36:961, filepos: 000000000` into
/// `(leading whitespace, "timestamp:", whitespace, timestamp, rest of the line)`.
///
/// Returns `None` when the line does not start with optional spaces/tabs followed by
/// `timestamp:`.
pub fn idx_line(line: &str) -> (r: Option<(&str, &str, &str, &str, &str)>)
    ensures
        r is None <==> idx_line_spec(line@) is None,
        r matches Some(p) ==> p.0@ + p.1@ + p.2@ + p.3@ + p.4@ == line@,
        r matches Some(p) ==> (idx_line_spec(line@) matches Some((a, b, c, t)) && p.0@
            == line@.take(a) && p.1@ == timestamp_keyword() && p.2@ == line@.subrange(b, c) && p.3@
            == line@.subrange(c, t) && p.4@ == line@.skip(t)),
{
    let cs = chars_of(line);
    let s = cs.as_slice();
    let a = skip_blanks_at(s, 0);
    assert(s@.skip(0) =~= s@);
    proof {
        reveal_strlit("timestamp:");
    }
    if !keyword_at(s, a, "timestamp:") {
        assert("timestamp:"@ =~= timestamp_keyword());
        return None;
    }
    assert("timestamp:"@ =~= timestamp_keyword());
    let n = s.len();
    let b = a + 10;
    let c = skip_blanks_at(s, b);
    let t = stamp_end_at(s, c);
    let p0 = line.substring_char(0, a);
    let p1 = line.substring_char(a, b);
    let p2 = line.substring_char(b, c);
    let p3 = line.substring_char(c, t);
    let p4 = line.substring_char(t, n);
    assert(p0@ + p1@ + p2@ + p3@ + p4@ =~= line@);
    assert(p1@ =~= timestamp_keyword());
    Some((p0, p1, p2, p3, p4))
}

/// The comma-terminated fields of a `Dialogue:` line: `n` fields from `p` on, each as its
/// bounds, and where the remaining text begins.
pub open spec fn comma_fields(s: Seq<char>, p: int, n: nat) -> Option<(Seq<(int, int)>, int)>
    decreases n,
{
    if n == 0 {
        Some((Seq::empty(), p))
    } else {
        match find_char(s, p, s.len() as int, ',') {
            None => None,
            Some(q) => match comma_fields(s, q + 1, (n - 1) as nat) {
                None => None,
                Some((rest, t)) => Some((seq![(p, q)] + rest, t)),
            },
        }
    }
}

/// Where the pieces of a `Dialogue:` line with `num_fields` fields begin: the keyword, the
/// blanks after it, the fields and the text.
pub open spec fn ssa_dialogue_spec(s: Seq<char>, num_fields: nat) -> Option<
    (int, int, Seq<(int, int)>, int),
> {
    let a = blanks_end(s, 0);
    if !has_at(s, a, dialogue_keyword()) {
        None
    } else {
        let b = a + 9;
        let c = blanks_end(s, b);
        let n = if num_fields > 0 {
            (num_fields - 1) as nat
        } else {
            0
        };
        match comma_fields(s, c, n) {
            None => None,
            Some((fields, t)) => Some((a, b, fields, t)),
        }
    }
}

/// Splits a `.ssa`/`.ass` line like `Dialogue: 1,0:22:43.52,0:22:46.22,ED-Romaji,,0,0,0,,text`
/// into `(leading whitespace, whitespace after the keyword, the comma-terminated fields, the
/// remaining text field)`.
///
/// `num_fields` is the number of fields the `Format:` line declared; the first
/// `num_fields - 1` of them are comma terminated and the last one is the rest of the line.
/// Returns `None` if the keyword is missing or there are too few commas.
#[verifier::loop_isolation(false)]
pub fn ssa_dialogue(line: &str, num_fields: usize) -> (r: Option<
    (&str, &str, Vec<(&str, char)>, &str),
>)
    ensures
        r is None <==> ssa_dialogue_spec(line@, num_fields as nat) is None,
        r matches Some(p) ==> (ssa_dialogue_spec(line@, num_fields as nat) matches Some(
            (a, b, fields, t),
        ) && p.0@ == line@.take(a) && p.1@ == line@.subrange(b, blanks_end(line@, b))
            && p.2@.len() == fields.len() && (forall|k: int|
            0 <= k < fields.len() ==> (#[trigger] p.2@[k]).0@ == line@.subrange(
                fields[k].0,
                fields[k].1,
            ) && p.2@[k].1 == ',') && p.3@ == line@.skip(t)),
{
    let cs = chars_of(line);
    let s = cs.as_slice();
    let a = skip_blanks_at(s, 0);
    assert(s@.skip(0) =~= s@);
    proof {
        reveal_strlit("Dialogue:");
    }
    assert("Dialogue:"@ =~= dialogue_keyword());
    if !keyword_at(s, a, "Dialogue:") {
        return None;
    }
    let len = s.len();
    let b = a + 9;
    let c = skip_blanks_at(s, b);
    let n: usize = if num_fields > 0 {
        num_fields - 1
    } else {
        0
    };
    let mut fields: Vec<(&str, char)> = Vec::new();
    let mut p = c;
    let mut k: usize = 0;
    let ghost bounds: Seq<(int, int)> = Seq::empty();
    while k < n
        invariant
            k <= n,
            c <= p <= s@.len(),
            s@ == line@,
            fields@.len() == k,
            bounds.len() == k,
            comma_fields(s@, c as int, n as nat) == match comma_fields(
                s@,
                p as int,
                (n - k) as nat,
            ) {
                None => None,
                Some((rest, t)) => Some((bounds + rest, t)),
            },
            forall|m: int|
                0 <= m < k ==> (#[trigger] fields@[m]).0@ == line@.subrange(bounds[m].0, bounds[m].1)
                    && fields@[m].1 == ',',
        decreases n - k,
    {
        let q = match find_char_at(s, p, s.len(), ',') {
            None => {
                return None;
            },
            Some(q) => q,
        };
        fields.push((line.substring_char(p, q), ','));
        proof {
            match comma_fields(s@, q + 1, (n - k - 1) as nat) {
                None => {},
                Some((rest, t)) => {
                    assert(bounds + (seq![(p as int, q as int)] + rest) =~= bounds.push(
                        (p as int, q as int),
                    ) + rest);
                },
            }
            bounds = bounds.push((p as int, q as int));
        }
        p = q + 1;
        k = k + 1;
    }
    assert(bounds + Seq::<(int, int)>::empty() =~= bounds);
    let n_all = s.len();
    Some((line.substring_char(0, a), line.substring_char(b, c), fields, line.substring_char(p, n_all)))
}

// ---------------------------------------------------------------------------------------------
// `MicroDVD` lines

/// `{start}{end}` at the beginning of a `MicroDVD` line: both frame numbers and the position
/// after the header.
pub open spec fn mdvd_header(s: Seq<char>) -> Option<(int, int, int)> {
    if !(s.len() > 0 && s[0] == '{') {
        None
    } else {
        match number_at(s, 1) {
            None => None,
            Some((a, i)) => if !(i + 1 < s.len() && s[i] == '}' && s[i + 1] == '{') {
                None
            } else {
                match number_at(s, i + 2) {
                    None => None,
                    Some((b, j)) => if j < s.len() && s[j] == '}' {
                        Some((a, b, j + 1))
                    } else {
                        None
                    },
                }
            },
        }
    }
}

/// The `'|'`-separated chunks of `s[p..]`, as bounds.
pub open spec fn bar_chunks(s: Seq<char>, p: int) -> Seq<(int, int)>
    decreases s.len() - p,
{
    if p < 0 || p > s.len() {
        Seq::empty()
    } else {
        match find_char(s, p, s.len() as int, '|') {
            None => seq![(p, s.len() as int)],
            Some(q) => {
                proof {
                    lemma_find_char(s, p, s.len() as int, '|');
                }
                seq![(p, q)] + bar_chunks(s, q + 1)
            },
        }
    }
}

/// The leading `{...}` tags of the chunk `s[lo..hi]`, as bounds of their insides, and where the
/// text begins; `None` when a `{` is not closed.
pub open spec fn chunk_tags(s: Seq<char>, lo: int, hi: int) -> Option<(Seq<(int, int)>, int)>
    decreases hi - lo,
{
    if 0 <= lo < hi && hi <= s.len() && s[lo] == '{' {
        match find_char(s, lo + 1, hi, '}') {
            None => None,
            Some(c) => {
                proof {
                    lemma_find_char(s, lo + 1, hi, '}');
                }
                match chunk_tags(s, c + 1, hi) {
                    None => None,
                    Some((tags, t)) => Some((seq![(lo + 1, c)] + tags, t)),
                }
            },
        }
    } else {
        Some((Seq::empty(), lo))
    }
}

/// The tags and text of every chunk, or `None` when one of them has an unclosed `{`.
pub open spec fn all_chunk_tags(s: Seq<char>, chunks: Seq<(int, int)>) -> Option<
    Seq<(Seq<(int, int)>, int, int)>,
>
    decreases chunks.len(),
{
    if chunks.len() == 0 {
        Some(Seq::empty())
    } else {
        match all_chunk_tags(s, chunks.drop_last()) {
            None => None,
            Some(v) => match chunk_tags(s, chunks.last().0, chunks.last().1) {
                None => None,
                Some((tags, t)) => Some(v.push((tags, t, chunks.last().1))),
            },
        }
    }
}

/// A whole `MicroDVD` line: both frame numbers and, for every sub-line, its tags and text.
pub open spec fn mdvd_line_spec(s: Seq<char>) -> Option<(int, int, Seq<(Seq<(int, int)>, int, int)>)> {
    match mdvd_header(s) {
        None => None,
        Some((a, b, p)) => match all_chunk_tags(s, bar_chunks(s, p)) {
            None => None,
            Some(v) => Some((a, b, v)),
        },
    }
}

fn scan_mdvd_header(s: &[char]) -> (r: Option<(i64, i64, usize)>)
    ensures
        match r {
            Some((a, b, p)) => mdvd_header(s@) == Some((a as int, b as int, p as int)),
            None => mdvd_header(s@) is None,
        },
        r matches Some((a, b, p)) ==> p <= s@.len(),
{
    if !(s.len() > 0 && s[0] == '{') {
        return None;
    }
    let (a, i) = match scan_number(s, 1) {
        None => {
            return None;
        },
        Some(x) => x,
    };
    if !(s.len() - i > 1 && s[i] == '}' && s[i + 1] == '{') {
        return None;
    }
    let (b, j) = match scan_number(s, i + 2) {
        None => {
            return None;
        },
        Some(x) => x,
    };
    if j < s.len() && s[j] == '}' {
        Some((a, b, j + 1))
    } else {
        None
    }
}

/// The tags and text of the chunk `s[lo..hi]` of `line`.
fn scan_chunk<'a>(line: &'a str, s: &[char], lo: usize, hi: usize) -> (r: Option<(Vec<&'a str>, &'a str)>)
    requires
        lo <= hi <= s@.len(),
        s@ == line@,
    ensures
        r is None <==> chunk_tags(s@, lo as int, hi as int) is None,
        r matches Some((tags, text)) ==> (chunk_tags(s@, lo as int, hi as int) matches Some((b, t))
            && tags@.len() == b.len() && (forall|m: int|
            0 <= m < b.len() ==> (#[trigger] tags@[m])@ == s@.subrange(b[m].0, b[m].1)) && text@
            == s@.subrange(t, hi as int)),
{
    let mut tags: Vec<&str> = Vec::new();
    let mut p = lo;
    let ghost mut bs: Seq<(int, int)> = Seq::empty();
    while p < hi && s[p] == '{'
        invariant
            lo <= p <= hi,
            hi <= s@.len(),
            s@ == line@,
            tags@.len() == bs.len(),
            forall|m: int| 0 <= m < bs.len() ==> (#[trigger] tags@[m])@ == s@.subrange(bs[m].0, bs[m].1),
            chunk_tags(s@, lo as int, hi as int) == match chunk_tags(s@, p as int, hi as int) {
                None => None,
                Some((b, t)) => Some((bs + b, t)),
            },
        decreases hi - p,
    {
        let c = match find_char_at(s, p + 1, hi, '}') {
            None => {
                return None;
            },
            Some(c) => c,
        };
        tags.push(line.substring_char(p + 1, c));
        proof {
            match chunk_tags(s@, c + 1, hi as int) {
                None => {},
                Some((b, t)) => {
                    assert(bs + (seq![(p + 1, c as int)] + b) =~= bs.push((p + 1, c as int)) + b);
                },
            }
            bs = bs.push((p + 1, c as int));
        }
        p = c + 1;
    }
    assert(bs + Seq::<(int, int)>::empty() =~= bs);
    Some((tags, line.substring_char(p, hi)))
}

/// Parses a `MicroDVD` line like `{0}{25}{y:i}Hello!|{s:15}Hello2!`.
///
/// Returns `(start frame, end frame, sub-lines)`, where the sub-lines are the `'|'`-separated
/// parts, each split into its leading `{...}` formatting tags and the remaining text. An
/// unterminated `{` invalidates the whole line.
pub fn mdvd_line(line: &str) -> (r: Option<(i64, i64, Vec<(Vec<&str>, &str)>)>)
    ensures
        r is None <==> mdvd_line_spec(line@) is None,
        r matches Some((a, b, subs)) ==> (mdvd_line_spec(line@) matches Some((a2, b2, v)) && a == a2
            && b == b2 && subs@.len() == v.len() && (forall|k: int|
            0 <= k < v.len() ==> (#[trigger] subs@[k]).0@.len() == v[k].0.len() && (forall|m: int|
                0 <= m < v[k].0.len() ==> (#[trigger] subs@[k].0@[m])@ == line@.subrange(
                    v[k].0[m].0,
                    v[k].0[m].1,
                )) && subs@[k].1@ == line@.subrange(v[k].1, v[k].2))),
{
    let cs = chars_of(line);
    let s = cs.as_slice();
    let (a, b, start) = match scan_mdvd_header(s) {
        None => {
            return None;
        },
        Some(x) => x,
    };
    let n = s.len();
    let mut subs: Vec<(Vec<&str>, &str)> = Vec::new();
    let mut p = start;
    let ghost mut done: Seq<(int, int)> = Seq::empty();
    let ghost mut parsed: Seq<(Seq<(int, int)>, int, int)> = Seq::empty();
    loop
        invariant_except_break
            start <= p <= n,
            bar_chunks(s@, start as int) == done + bar_chunks(s@, p as int),
        invariant
            n == s@.len(),
            s@ == line@,
            mdvd_header(s@) == Some((a as int, b as int, start as int)),
            all_chunk_tags(s@, done) == Some(parsed),
            subs@.len() == parsed.len(),
            forall|k: int|
                0 <= k < parsed.len() ==> (#[trigger] subs@[k]).0@.len() == parsed[k].0.len() && (
                forall|m: int|
                    0 <= m < parsed[k].0.len() ==> (#[trigger] subs@[k].0@[m])@ == line@.subrange(
                        parsed[k].0[m].0,
                        parsed[k].0[m].1,
                    )) && subs@[k].1@ == line@.subrange(parsed[k].1, parsed[k].2),
        ensures
            bar_chunks(s@, start as int) == done,
        decreases n - p,
    {
        let q = find_char_at(s, p, n, '|');
        let hi = match q {
            Some(q) => q,
            None => n,
        };
        proof {
            lemma_find_char(s@, p as int, n as int, '|');
        }
        let ghost chunk = (p as int, hi as int);
        let ghost rest = match q {
            Some(q) => bar_chunks(s@, q + 1),
            None => Seq::<(int, int)>::empty(),
        };
        assert(bar_chunks(s@, p as int) == seq![chunk] + rest);
        let (tags, text) = match scan_chunk(line, s, p, hi) {
            None => {
                proof {
                    let d2 = done.push(chunk);
                    assert(d2.drop_last() =~= done);
                    lemma_all_chunk_tags_none(s@, d2, rest);
                    assert(done + (seq![chunk] + rest) =~= d2 + rest);
                }
                return None;
            },
            Some(x) => x,
        };
        subs.push((tags, text));
        proof {
            let d2 = done.push(chunk);
            assert(d2.drop_last() =~= done);
            assert(done + (seq![chunk] + rest) =~= d2 + rest);
            let ct = chunk_tags(s@, p as int, hi as int).unwrap();
            parsed = parsed.push((ct.0, ct.1, hi as int));
            done = d2;
        }
        match q {
            None => {
                assert(done + Seq::<(int, int)>::empty() =~= done);
                break;
            },
            Some(q) => {
                p = q + 1;
            },
        }
    }
    Some((a, b, subs))
}

/// An unclosed tag in one chunk makes the whole line fail, whatever follows it.
proof fn lemma_all_chunk_tags_none(s: Seq<char>, a: Seq<(int, int)>, b: Seq<(int, int)>)
    requires
        all_chunk_tags(s, a) is None,
    ensures
        all_chunk_tags(s, a + b) is None,
    decreases b.len(),
{
    if b.len() > 0 {
        lemma_all_chunk_tags_none(s, a, b.drop_last());
        assert((a + b).drop_last() =~= a + b.drop_last());
    } else {
        assert(a + b =~= a);
    }
}

// ---------------------------------------------------------------------------------------------
// lines

pub open spec fn is_eol(c: char) -> bool {
    c == '\r' || c == '\n'
}

/// The first `\r` or `\n` at or after `i`.
pub open spec fn find_eol(s: Seq<char>, i: int) -> Option<int>
    decreases s.len() - i,
{
    if i < 0 || i >= s.len() {
        None
    } else if is_eol(s[i]) {
        Some(i)
    } else {
        find_eol(s, i + 1)
    }
}

/// `find_eol` finds the first line ending from `i` on, or there is none.
pub proof fn lemma_find_eol(s: Seq<char>, i: int)
    requires
        0 <= i,
    ensures
        find_eol(s, i) matches Some(k) ==> i <= k < s.len() && is_eol(s[k]),
        find_eol(s, i) is None ==> forall|m: int| i <= m < s.len() ==> !is_eol(#[trigger] s[m]),
    decreases s.len() - i,
{
    if i < s.len() && !is_eol(s[i]) {
        lemma_find_eol(s, i + 1);
    }
}

/// The length of the line ending at `k`: `\r\n` counts as one ending.
pub open spec fn eol_len(s: Seq<char>, k: int) -> int {
    if s[k] == '\r' && k + 1 < s.len() && s[k + 1] == '\n' {
        2
    } else {
        1
    }
}

/// The lines of `s[i..]`, each with the exact line ending that terminated it (empty for a last
/// line without one). A lone `\r` counts as a line ending too.
pub open spec fn nd_lines(s: Seq<char>, i: int) -> Seq<(Seq<char>, Seq<char>)>
    decreases s.len() - i,
{
    if i < 0 || i >= s.len() {
        Seq::empty()
    } else {
        match find_eol(s, i) {
            None => seq![(s.subrange(i, s.len() as int), Seq::<char>::empty())],
            Some(k) => {
                proof {
                    lemma_find_eol(s, i);
                }
                if k >= s.len() || k < i {
                    Seq::empty()
                } else {
                    seq![(s.subrange(i, k), s.subrange(k, k + eol_len(s, k)))] + nd_lines(
                        s,
                        k + eol_len(s, k),
                    )
                }
            },
        }
    }
}

/// Each line followed by its ending, all joined together.
pub open spec fn join_pairs(v: Seq<(Seq<char>, Seq<char>)>) -> Seq<char>
    decreases v.len(),
{
    if v.len() == 0 {
        Seq::empty()
    } else {
        v[0].0 + v[0].1 + join_pairs(v.drop_first())
    }
}

pub open spec fn pairs_view(v: Seq<(String, String)>) -> Seq<(Seq<char>, Seq<char>)> {
    v.map_values(|p: (String, String)| (p.0@, p.1@))
}

/// Splitting off the line endings loses nothing: joining the pieces gives back the text.
pub proof fn law_lines_join_back(s: Seq<char>, i: int)
    requires
        0 <= i <= s.len(),
    ensures
        join_pairs(nd_lines(s, i)) == s.skip(i),
    decreases s.len() - i,
{
    lemma_find_eol(s, i);
    if i < s.len() {
        match find_eol(s, i) {
            None => {
                let v = nd_lines(s, i);
                assert(v.drop_first() =~= Seq::<(Seq<char>, Seq<char>)>::empty());
                assert(join_pairs(v.drop_first()) =~= Seq::<char>::empty());
                assert(join_pairs(v) == v[0].0 + v[0].1 + join_pairs(v.drop_first()));
                assert(s.subrange(i, s.len() as int) + Seq::<char>::empty() + Seq::<char>::empty()
                    =~= s.skip(i));
            },
            Some(k) => {
                let e = k + eol_len(s, k);
                law_lines_join_back(s, e);
                let v = nd_lines(s, i);
                assert(v.drop_first() =~= nd_lines(s, e));
                assert(join_pairs(v) == v[0].0 + v[0].1 + join_pairs(v.drop_first()));
                assert(s.subrange(i, k) + s.subrange(k, e) + s.skip(e) =~= s.skip(i));
            },
        }
    } else {
        assert(s.skip(i) =~= Seq::<char>::empty());
    }
}

/// Splits `s` into lines, keeping each line ending verbatim.
///
/// This makes it possible to reconstruct the file with its original line endings. A lone `\r`
/// is also accepted as a line ending so that no input is ever rejected.
pub fn get_lines_non_destructive(s: &str) -> (r: Vec<(String, String)>)
    ensures
        pairs_view(r@) == nd_lines(s@, 0),
        join_pairs(pairs_view(r@)) == s@,
{
    let cs = chars_of(s);
    let v = cs.as_slice();
    let n = v.len();
    let mut result: Vec<(String, String)> = Vec::new();
    let mut p: usize = 0;
    while p < n
        invariant
            p <= n,
            n == v@.len(),
            v@ == s@,
            nd_lines(v@, 0) == pairs_view(result@) + nd_lines(v@, p as int),
        decreases n - p,
    {
        proof {
            lemma_find_eol(v@, p as int);
        }
        let mut k = p;
        while k < n && v[k] != '\r' && v[k] != '\n'
            invariant
                p <= k <= n,
                n == v@.len(),
                find_eol(v@, p as int) == find_eol(v@, k as int),
            decreases n - k,
        {
            k = k + 1;
        }
        let line = string_of(slice_of(v, p, k).as_slice());
        if k == n {
            result.push((line, String::new()));
            proof {
                assert(pairs_view(result@) =~= pairs_view(old_result(result@)) + seq![
                    (v@.subrange(p as int, n as int), Seq::<char>::empty()),
                ]) by {
                    assert(result@.drop_last() == old_result(result@));
                }
            }
            assert(nd_lines(v@, n as int) =~= Seq::<(Seq<char>, Seq<char>)>::empty());
            p = n;
        } else {
            let l: usize = if v[k] == '\r' && k + 1 < n && v[k + 1] == '\n' {
                2
            } else {
                1
            };
            let ending = string_of(slice_of(v, k, k + l).as_slice());
            let ghost before = pairs_view(result@);
            result.push((line, ending));
            assert(pairs_view(result@) =~= before.push(
                (v@.subrange(p as int, k as int), v@.subrange(k as int, k + l)),
            ));
            p = k + l;
        }
    }
    proof {
        assert(nd_lines(v@, p as int) =~= Seq::<(Seq<char>, Seq<char>)>::empty());
        assert(pairs_view(result@) + Seq::<(Seq<char>, Seq<char>)>::empty() =~= pairs_view(
            result@,
        ));
        law_lines_join_back(s@, 0);
        assert(s@.skip(0) =~= s@);
    }
    result
}

spec fn old_result(v: Seq<(String, String)>) -> Seq<(String, String)> {
    v.drop_last()
}

/// The lines of `s[i..]` as `str::lines` gives them: split at `\n`, with a `\r` just before the
/// `\n` removed, and no empty line after a final line ending.
pub open spec fn std_lines(s: Seq<char>, i: int) -> Seq<Seq<char>>
    decreases s.len() - i,
{
    if i < 0 || i >= s.len() {
        Seq::empty()
    } else {
        match find_char(s, i, s.len() as int, '\n') {
            None => seq![s.subrange(i, s.len() as int)],
            Some(k) => {
                proof {
                    lemma_find_char(s, i, s.len() as int, '\n');
                }
                let line = if k > i && s[k - 1] == '\r' {
                    s.subrange(i, k - 1)
                } else {
                    s.subrange(i, k)
                };
                seq![line] + std_lines(s, k + 1)
            },
        }
    }
}

/// The lines of `s` as `str::lines` gives them.
pub fn lines_of(s: &[char]) -> (r: Vec<Vec<char>>)
    ensures
        chars_view(r@) == std_lines(s@, 0),
{
    let n = s.len();
    let mut result: Vec<Vec<char>> = Vec::new();
    let mut p: usize = 0;
    while p < n
        invariant
            p <= n,
            n == s@.len(),
            std_lines(s@, 0) == chars_view(result@) + std_lines(s@, p as int),
        decreases n - p,
    {
        match find_char_at(s, p, n, '\n') {
            None => {
                let line = slice_of(s, p, n);
                let ghost before = chars_view(result@);
                result.push(line);
                assert(chars_view(result@) =~= before.push(s@.subrange(p as int, n as int)));
                assert(std_lines(s@, n as int) =~= Seq::<Seq<char>>::empty());
                p = n;
            },
            Some(k) => {
                let end = if k > p && s[k - 1] == '\r' {
                    k - 1
                } else {
                    k
                };
                let line = slice_of(s, p, end);
                let ghost before = chars_view(result@);
                result.push(line);
                assert(chars_view(result@) =~= before.push(s@.subrange(p as int, end as int)));
                p = k + 1;
            },
        }
    }
    assert(std_lines(s@, p as int) =~= Seq::<Seq<char>>::empty());
    assert(chars_view(result@) + Seq::<Seq<char>>::empty() =~= chars_view(result@));
    result
}

/// `s` without leading and trailing Unicode whitespace, as `str::trim` gives it.
pub open spec fn trimmed(s: Seq<char>) -> Seq<char> {
    let a = lead_len(s, |c: char| is_unicode_ws(c)) as int;
    s.subrange(a, s.len() - trail_len(s.skip(a), |c: char| is_unicode_ws(c)))
}

/// `s` without leading and trailing Unicode whitespace.
pub fn trim_chars(s: &[char]) -> (r: Vec<char>)
    ensures
        r@ == trimmed(s@),
{
    let n = s.len();
    let mut a: usize = 0;
    while a < n && crate::text::is_unicode_whitespace(s[a])
        invariant
            a <= n,
            n == s@.len(),
            forall|j: int| 0 <= j < a ==> is_unicode_ws(#[trigger] s@[j]),
        decreases n - a,
    {
        a = a + 1;
    }
    let mut b: usize = n;
    while b > a && crate::text::is_unicode_whitespace(s[b - 1])
        invariant
            a <= b <= n,
            n == s@.len(),
            forall|j: int| b <= j < n ==> is_unicode_ws(#[trigger] s@[j]),
        decreases b,
    {
        b = b - 1;
    }
    proof {
        assert forall|j: int| 0 <= j < a implies (|c: char| is_unicode_ws(c))(#[trigger] s@[j]) by {}
        crate::text::lemma_lead_len_exact(s@, |c: char| is_unicode_ws(c), a as int);
        let t = s@.skip(a as int);
        assert forall|j: int| t.len() - (n - b) <= j < t.len() implies (|c: char| is_unicode_ws(c))(
            #[trigger] t[j],
        ) by {
            assert(t[j] == s@[a + j]);
        }
        if n - b < t.len() {
            assert(t[t.len() - (n - b) - 1] == s@[b - 1]);
        }
        crate::text::lemma_trail_len_exact(t, |c: char| is_unicode_ws(c), (n - b) as int);
    }
    slice_of(s, a, b)
}

/// Whether the string is empty once surrounding whitespace is removed.
pub open spec fn is_blank_line(s: Seq<char>) -> bool {
    forall|j: int| 0 <= j < s.len() ==> is_unicode_ws(#[trigger] s[j])
}

/// Whether the line holds nothing but whitespace.
pub fn blank_line(s: &[char]) -> (r: bool)
    ensures
        r == is_blank_line(s@),
{
    let mut i: usize = 0;
    while i < s.len()
        invariant
            i <= s@.len(),
            forall|j: int| 0 <= j < i ==> is_unicode_ws(#[trigger] s@[j]),
        decreases s@.len() - i,
    {
        if !crate::text::is_unicode_whitespace(s[i]) {
            return false;
        }
        i = i + 1;
    }
    true
}

// ---------------------------------------------------------------------------------------------
// decimal integers as `str::parse::<i64>` reads them

/// The digits `s[i..]` added to `acc`, away from zero in the direction of the sign.
pub open spec fn parse_digits(s: Seq<char>, i: int, acc: int, neg: bool) -> Result<int, IntErrorKind>
    decreases s.len() - i,
{
    if i < 0 || i >= s.len() {
        Ok(acc)
    } else if !is_digit(s[i]) {
        Err(IntErrorKind::InvalidDigit)
    } else {
        let m = acc * 10;
        let next = if neg {
            m - digit_value(s[i])
        } else {
            m + digit_value(s[i])
        };
        if !fits_i64(m) || !fits_i64(next) {
            Err(
                if neg {
                    IntErrorKind::NegOverflow
                } else {
                    IntErrorKind::PosOverflow
                },
            )
        } else {
            parse_digits(s, i + 1, next, neg)
        }
    }
}

/// What `str::parse::<i64>` gives for `s`: an optional sign and at least one digit.
pub open spec fn parse_i64_spec(s: Seq<char>) -> Result<int, IntErrorKind> {
    if s.len() == 0 {
        Err(IntErrorKind::Empty)
    } else if (s[0] == '+' || s[0] == '-') && s.len() == 1 {
        Err(IntErrorKind::InvalidDigit)
    } else if s[0] == '+' {
        parse_digits(s, 1, 0, false)
    } else if s[0] == '-' {
        parse_digits(s, 1, 0, true)
    } else {
        parse_digits(s, 0, 0, false)
    }
}

/// Reads `s` as a decimal `i64`, as `str::parse` does.
pub fn parse_i64(s: &[char]) -> (r: Result<i64, IntErrorKind>)
    ensures
        match r {
            Ok(v) => parse_i64_spec(s@) == Ok::<int, IntErrorKind>(v as int),
            Err(e) => parse_i64_spec(s@) == Err::<int, IntErrorKind>(e),
        },
{
    let n = s.len();
    if n == 0 {
        return Err(IntErrorKind::Empty);
    }
    if (s[0] == '+' || s[0] == '-') && n == 1 {
        return Err(IntErrorKind::InvalidDigit);
    }
    let neg = s[0] == '-';
    let mut i: usize = if s[0] == '+' || s[0] == '-' {
        1
    } else {
        0
    };
    let mut acc: i64 = 0;
    while i < n
        invariant
            i <= n,
            n == s@.len(),
            parse_i64_spec(s@) == parse_digits(s@, i as int, acc as int, neg),
        decreases n - i,
    {
        let c = s[i];
        if !is_digit_char(c) {
            return Err(IntErrorKind::InvalidDigit);
        }
        let d = (c as u32 - '0' as u32) as i128;
        let m = (acc as i128) * 10;
        let next = if neg {
            m - d
        } else {
            m + d
        };
        if !in_i64(m) || !in_i64(next) {
            return Err(
                if neg {
                    IntErrorKind::NegOverflow
                } else {
                    IntErrorKind::PosOverflow
                },
            );
        }
        acc = next as i64;
        i = i + 1;
    }
    Ok(acc)
}

// ---------------------------------------------------------------------------------------------
// merging filler parts

/// What a part of a non-destructively parsed file stands for: filler text that is only kept to
/// write the file back, or something else.
pub enum Piece<M> {
    Filler(Seq<char>),
    Other(M),
}

pub open spec fn filler_text<M>(p: Piece<M>) -> Seq<char> {
    match p {
        Piece::Filler(t) => t,
        Piece::Other(_) => Seq::empty(),
    }
}

/// A part of a non-destructively parsed file.
pub trait FilePart: Sized {
    type Model;

    spec fn piece(&self) -> Piece<Self::Model>;

    fn is_filler(&self) -> (b: bool)
        ensures
            b == (self.piece() is Filler),
    ;

    /// Appends the text of the filler `other` to this filler.
    fn absorb(&mut self, other: Self)
        requires
            old(self).piece() is Filler,
            other.piece() is Filler,
        ensures
            final(self).piece() == Piece::<Self::Model>::Filler(
                filler_text(old(self).piece()) + filler_text(other.piece()),
            ),
    ;
}

/// `s` with every run of consecutive fillers merged into one.
pub open spec fn dedup_pieces<M>(s: Seq<Piece<M>>) -> Seq<Piece<M>>
    decreases s.len(),
{
    if s.len() == 0 {
        Seq::empty()
    } else {
        let r = dedup_pieces(s.drop_last());
        let p = s.last();
        if r.len() > 0 && r.last() is Filler && p is Filler {
            r.update(r.len() - 1, Piece::Filler(filler_text(r.last()) + filler_text(p)))
        } else {
            r.push(p)
        }
    }
}

pub open spec fn pieces<T: FilePart>(v: Seq<T>) -> Seq<Piece<T::Model>> {
    v.map_values(|p: T| p.piece())
}

/// The text that the pieces stand for, where `f` renders what is not filler.
pub open spec fn render<M>(s: Seq<Piece<M>>, f: spec_fn(M) -> Seq<char>) -> Seq<char>
    decreases s.len(),
{
    if s.len() == 0 {
        Seq::empty()
    } else {
        render(s.drop_last(), f) + match s.last() {
            Piece::Filler(t) => t,
            Piece::Other(m) => f(m),
        }
    }
}

/// The text of two runs of pieces is the text of the first, then that of the second.
pub proof fn lemma_render_concat<M>(a: Seq<Piece<M>>, b: Seq<Piece<M>>, f: spec_fn(M) -> Seq<char>)
    ensures
        render(a + b, f) == render(a, f) + render(b, f),
    decreases b.len(),
{
    if b.len() == 0 {
        assert(a + b =~= a);
        assert(render(a, f) + render(b, f) =~= render(a, f));
    } else {
        lemma_render_concat(a, b.drop_last(), f);
        assert((a + b).drop_last() =~= a + b.drop_last());
        assert((a + b).last() == b.last());
    }
}

/// The text of the first `k + 1` lines is that of the first `k`, then line `k` and its ending.
pub proof fn lemma_join_pairs_take(v: Seq<(Seq<char>, Seq<char>)>, k: int)
    requires
        0 <= k < v.len(),
    ensures
        join_pairs(v.take(k + 1)) == join_pairs(v.take(k)) + v[k].0 + v[k].1,
    decreases k,
{
    if k == 0 {
        let t = v.take(1);
        assert(t.drop_first() =~= Seq::<(Seq<char>, Seq<char>)>::empty());
        assert(v.take(0) =~= Seq::<(Seq<char>, Seq<char>)>::empty());
        assert(join_pairs(t) == t[0].0 + t[0].1 + join_pairs(t.drop_first()));
        assert(join_pairs(t) =~= join_pairs(v.take(0)) + v[0].0 + v[0].1);
    } else {
        let w = v.drop_first();
        lemma_join_pairs_take(w, k - 1);
        assert(v.take(k + 1).drop_first() =~= w.take(k));
        assert(v.take(k).drop_first() =~= w.take(k - 1));
        assert(join_pairs(v.take(k + 1)) == v[0].0 + v[0].1 + join_pairs(w.take(k)));
        assert(join_pairs(v.take(k)) == v[0].0 + v[0].1 + join_pairs(w.take(k - 1)));
        assert(w[k - 1] == v[k]);
        assert(join_pairs(v.take(k + 1)) =~= join_pairs(v.take(k)) + v[k].0 + v[k].1);
    }
}

/// Merging fillers never changes the text that the parts stand for.
pub proof fn law_dedup_keeps_text<M>(s: Seq<Piece<M>>, f: spec_fn(M) -> Seq<char>)
    ensures
        render(dedup_pieces(s), f) == render(s, f),
    decreases s.len(),
{
    if s.len() > 0 {
        law_dedup_keeps_text(s.drop_last(), f);
        let r = dedup_pieces(s.drop_last());
        let p = s.last();
        if r.len() > 0 && r.last() is Filler && p is Filler {
            let u = r.update(r.len() - 1, Piece::Filler(filler_text(r.last()) + filler_text(p)));
            assert(u.drop_last() =~= r.drop_last());
            assert(render(r, f) == render(r.drop_last(), f) + filler_text(r.last()));
        } else {
            assert(r.push(p).drop_last() =~= r);
        }
    }
}

/// After merging, no two fillers follow each other.
pub proof fn law_dedup_no_adjacent_fillers<M>(s: Seq<Piece<M>>)
    ensures
        forall|i: int|
            0 <= i < dedup_pieces(s).len() - 1 ==> !(#[trigger] dedup_pieces(s)[i] is Filler
                && dedup_pieces(s)[i + 1] is Filler),
    decreases s.len(),
{
    if s.len() > 0 {
        law_dedup_no_adjacent_fillers(s.drop_last());
        let r = dedup_pieces(s.drop_last());
        let d = dedup_pieces(s);
        let p = s.last();
        assert forall|i: int| 0 <= i < d.len() - 1 implies !(#[trigger] d[i] is Filler && d[i + 1] is Filler) by {
            if r.len() > 0 && r.last() is Filler && p is Filler {
                assert(d[i] == r[i]);
                if i + 1 < r.len() - 1 {
                    assert(d[i + 1] == r[i + 1]);
                } else {
                    assert(!(r[i] is Filler && r[i + 1] is Filler));
                }
            } else {
                assert(d[i] == r.push(p)[i]);
                if i < r.len() - 1 {
                    assert(d[i + 1] == r[i + 1]);
                }
            }
        }
    }
}

/// Merges consecutive "filler" parts of a non-destructively parsed file.
///
/// Each parsed file holds "filler" parts (unimportant text kept only so the original file can
/// be reconstructed). Two consecutive filler parts can be merged into one; the parts themselves
/// say which of them are filler.
pub fn dedup_string_parts<T: FilePart>(v: Vec<T>) -> (r: Vec<T>)
    ensures
        pieces(r@) == dedup_pieces(pieces(v@)),
{
    let ghost orig = v@;
    // reverse the parts, so that popping hands them out in their original order
    let mut v = v;
    let mut rev: Vec<T> = Vec::new();
    while v.len() > 0
        invariant
            v@.len() + rev@.len() == orig.len(),
            v@ == orig.take(v@.len() as int),
            forall|j: int| 0 <= j < rev@.len() ==> #[trigger] rev@[j] == orig[orig.len() - 1 - j],
        decreases v@.len(),
    {
        let x = v.pop().unwrap();
        rev.push(x);
        assert(v@ =~= orig.take(v@.len() as int));
    }
    let mut result: Vec<T> = Vec::new();
    let ghost mut done: nat = 0;
    while rev.len() > 0
        invariant
            rev@.len() + done == orig.len(),
            forall|j: int| 0 <= j < rev@.len() ==> #[trigger] rev@[j] == orig[orig.len() - 1 - j],
            pieces(result@) == dedup_pieces(pieces(orig.take(done as int))),
        decreases rev@.len(),
    {
        let part = rev.pop().unwrap();
        assert(part == orig[done as int]);
        let ghost prefix = pieces(orig.take(done as int));
        let ghost next = pieces(orig.take(done as int + 1));
        assert(next.drop_last() =~= prefix);
        assert(next.last() == part.piece());
        let merge = if result.len() > 0 {
            let l = result.len() - 1;
            result[l].is_filler() && part.is_filler()
        } else {
            false
        };
        if merge {
            let mut last = result.pop().unwrap();
            let ghost before = pieces(result@.push(last));
            last.absorb(part);
            result.push(last);
            assert(pieces(result@) =~= before.update(
                before.len() - 1,
                Piece::Filler(filler_text(before.last()) + filler_text(next.last())),
            ));
        } else {
            let ghost before = pieces(result@);
            result.push(part);
            assert(pieces(result@) =~= before.push(next.last()));
        }
        proof {
            done = done + 1;
        }
    }
    assert(orig.take(done as int) =~= orig);
    result
}

// ---------------------------------------------------------------------------------------------
// reading back what a writer wrote

/// `c` at `k` is the first `c` from `i` on.
pub proof fn lemma_find_char_at(s: Seq<char>, i: int, j: int, c: char, k: int)
    requires
        0 <= i <= k < j <= s.len(),
        s[k] == c,
        forall|m: int| i <= m < k ==> s[m] != c,
    ensures
        find_char(s, i, j, c) == Some(k),
    decreases k - i,
{
    if i < k {
        lemma_find_char_at(s, i + 1, j, c, k);
    }
}

/// Lines, each followed by a line feed.
pub open spec fn terminated(v: Seq<Seq<char>>) -> Seq<char>
    decreases v.len(),
{
    if v.len() == 0 {
        Seq::empty()
    } else {
        v[0] + seq!['\n'] + terminated(v.drop_first())
    }
}

/// Whether a line holds no line feed and does not end with a carriage return.
pub open spec fn plain_line(l: Seq<char>) -> bool {
    &&& forall|j: int| 0 <= j < l.len() ==> l[j] != '\n'
    &&& l.len() > 0 ==> l.last() != '\r'
}

/// Writing two runs of lines one per line writes the first, then the second.
pub proof fn lemma_terminated_add(a: Seq<Seq<char>>, b: Seq<Seq<char>>)
    ensures
        terminated(a + b) == terminated(a) + terminated(b),
    decreases a.len(),
{
    if a.len() == 0 {
        assert(a + b =~= b);
        assert(terminated(a) + terminated(b) =~= terminated(b));
    } else {
        lemma_terminated_add(a.drop_first(), b);
        assert((a + b).drop_first() =~= a.drop_first() + b);
        assert((a + b)[0] == a[0]);
        assert(terminated(a + b) =~= terminated(a) + terminated(b));
    }
}

/// Splitting lines that were written one per line gives them back.
pub proof fn lemma_std_lines_terminated(s: Seq<char>, i: int, v: Seq<Seq<char>>)
    requires
        0 <= i <= s.len(),
        s.skip(i) == terminated(v),
        forall|k: int| 0 <= k < v.len() ==> plain_line(#[trigger] v[k]),
    ensures
        std_lines(s, i) == v,
    decreases v.len(),
{
    if v.len() == 0 {
        assert(s.skip(i).len() == 0);
    } else {
        let line = v[0];
        assert(plain_line(line));
        let k = i + line.len();
        assert(s.skip(i) == line + seq!['\n'] + terminated(v.drop_first()));
        assert(s.skip(i)[line.len() as int] == '\n');
        assert(s[k] == '\n');
        assert forall|m: int| i <= m < k implies s[m] != '\n' by {
            assert(s.skip(i)[m - i] == line[m - i]);
        }
        lemma_find_char_at(s, i, s.len() as int, '\n', k);
        if k > i {
            assert(s[k - 1] == line.last()) by {
                assert(s.skip(i)[k - 1 - i] == line[line.len() - 1]);
            }
        }
        assert(s.subrange(i, k) =~= line) by {
            assert forall|m: int| 0 <= m < line.len() implies s.subrange(i, k)[m] == line[m] by {
                assert(s.skip(i)[m] == line[m]);
            }
        }
        assert(s.skip(k + 1) =~= terminated(v.drop_first())) by {
            assert forall|m: int| 0 <= m < s.skip(k + 1).len() implies s.skip(k + 1)[m]
                == terminated(v.drop_first())[m] by {
                assert(s.skip(i)[line.len() + 1 + m] == s[k + 1 + m]);
            }
        }
        lemma_std_lines_terminated(s, k + 1, v.drop_first());
        assert(seq![line] + v.drop_first() =~= v);
    }
}

/// The decimal rendering of `n` is all digits and stands for `n`.
pub proof fn lemma_decimal_value(n: nat)
    ensures
        forall|j: int| 0 <= j < decimal(n).len() ==> is_digit(#[trigger] decimal(n)[j]),
        digits_value(decimal(n), 0, decimal(n).len() as int) == n,
    decreases n,
{
    if n >= 10 {
        lemma_decimal_value(n / 10);
        let d = decimal(n / 10);
        let e = decimal(n);
        assert(e == d.push(digit_char((n % 10) as int)));
        assert(e.subrange(0, d.len() as int) =~= d.subrange(0, d.len() as int));
        lemma_digits_value_eq(e, 0, d, 0, d.len() as int);
        assert(digit_value(digit_char((n % 10) as int)) == n % 10);
        assert(digits_value(e, 0, e.len() as int) == 10 * digits_value(e, 0, d.len() as int)
            + digit_value(e[d.len() as int]));
        assert(digits_value(e, 0, d.len() as int) == n / 10);
        assert(10 * (n / 10) + n % 10 == n) by (nonlinear_arith);
    } else {
        let e = decimal(n);
        assert(e.len() == 1);
        assert(digit_value(digit_char(n as int)) == n);
        assert(digits_value(e, 0, 0) == 0);
        assert(digits_value(e, 0, 1) == 10 * digits_value(e, 0, 0) + digit_value(e[0]));
    }
}

/// Equal digits have equal values.
pub proof fn lemma_digits_value_eq(s: Seq<char>, i: int, t: Seq<char>, p: int, n: int)
    requires
        0 <= n,
        0 <= i && i + n <= s.len(),
        0 <= p && p + n <= t.len(),
        s.subrange(i, i + n) == t.subrange(p, p + n),
    ensures
        digits_value(s, i, i + n) == digits_value(t, p, p + n),
    decreases n,
{
    if n > 0 {
        let a = s.subrange(i, i + n);
        let b = t.subrange(p, p + n);
        assert(s.subrange(i, i + n - 1) =~= a.take(n - 1));
        assert(t.subrange(p, p + n - 1) =~= b.take(n - 1));
        lemma_digits_value_eq(s, i, t, p, n - 1);
        assert(s[i + n - 1] == a[n - 1]);
        assert(t[p + n - 1] == b[n - 1]);
    }
}

proof fn lemma_zeros_value(s: Seq<char>, i: int, j: int)
    requires
        0 <= i <= j <= s.len(),
        forall|m: int| i <= m < j ==> s[m] == '0',
    ensures
        digits_value(s, i, j) == 0,
    decreases j - i,
{
    if j > i {
        lemma_zeros_value(s, i, j - 1);
    }
}

proof fn lemma_leading_zeros(s: Seq<char>, i: int, z: int, j: int)
    requires
        0 <= i <= i + z <= j <= s.len(),
        forall|m: int| i <= m < i + z ==> s[m] == '0',
    ensures
        digits_value(s, i, j) == digits_value(s, i + z, j),
    decreases j - i - z,
{
    if j > i + z {
        lemma_leading_zeros(s, i, z, j - 1);
    } else {
        lemma_zeros_value(s, i, j);
    }
}

/// The zero-padded rendering of `n` is all digits and stands for `n`.
pub proof fn lemma_padded_value(n: nat, w: nat)
    ensures
        padded(n, w).len() >= 1,
        padded(n, w).len() >= w,
        forall|j: int| 0 <= j < padded(n, w).len() ==> is_digit(#[trigger] padded(n, w)[j]),
        digits_value(padded(n, w), 0, padded(n, w).len() as int) == n,
{
    lemma_decimal_value(n);
    crate::text::lemma_decimal_len(n);
    let d = decimal(n);
    let p = padded(n, w);
    if d.len() < w {
        let z = w - d.len();
        assert(forall|m: int| 0 <= m < z ==> p[m] == '0');
        lemma_leading_zeros(p, 0, z, p.len() as int);
        assert(p.subrange(z, z + d.len()) =~= d.subrange(0, d.len() as int));
        lemma_digits_value_eq(p, z, d, 0, d.len() as int);
    }
}

/// Where a run of digits ends when a non-digit or the end follows it.
pub proof fn lemma_digits_end_at(s: Seq<char>, i: int, e: int)
    requires
        0 <= i <= e <= s.len(),
        forall|m: int| i <= m < e ==> is_digit(#[trigger] s[m]),
        e < s.len() ==> !is_digit(s[e]),
    ensures
        digits_end(s, i) == e,
    decreases e - i,
{
    if i < e {
        lemma_digits_end_at(s, i + 1, e);
    }
}

/// A zero-padded number written at `i` and followed by a non-digit is read back.
pub proof fn lemma_number_at_padded(s: Seq<char>, i: int, n: nat, w: nat)
    requires
        0 <= i,
        i + padded(n, w).len() <= s.len(),
        s.subrange(i, i + padded(n, w).len()) == padded(n, w),
        i + padded(n, w).len() < s.len() ==> !is_digit(s[i + padded(n, w).len()]),
        n <= i64::MAX,
    ensures
        number_at(s, i) == Some((n as int, i + padded(n, w).len())),
{
    let p = padded(n, w);
    lemma_padded_value(n, w);
    let e = i + p.len();
    assert forall|m: int| i <= m < e implies is_digit(#[trigger] s[m]) by {
        assert(s.subrange(i, e)[m - i] == p[m - i]);
    }
    assert(s[i] == p[0]) by {
        assert(s.subrange(i, e)[0] == p[0]);
    }
    lemma_digits_end_at(s, i, e);
    assert(p.subrange(0, p.len() as int) =~= p);
    lemma_digits_value_eq(s, i, p, 0, p.len() as int);
}

/// Reading digits one by one gives their value when it fits.
pub proof fn lemma_parse_digits(s: Seq<char>, b: int, i: int, neg: bool)
    requires
        0 <= b <= i <= s.len(),
        forall|m: int| b <= m < s.len() ==> is_digit(#[trigger] s[m]),
        neg ==> digits_value(s, b, s.len() as int) <= 0x8000000000000000,
        !neg ==> digits_value(s, b, s.len() as int) <= i64::MAX,
    ensures
        parse_digits(s, i, if neg {
            -digits_value(s, b, i)
        } else {
            digits_value(s, b, i)
        }, neg) == Ok::<int, IntErrorKind>(if neg {
            -digits_value(s, b, s.len() as int)
        } else {
            digits_value(s, b, s.len() as int)
        }),
    decreases s.len() - i,
{
    if i < s.len() {
        lemma_digits_value_grows(s, b, i, s.len() as int);
        lemma_digits_value_grows(s, b, i + 1, s.len() as int);
        assert(digits_value(s, b, i + 1) == 10 * digits_value(s, b, i) + digit_value(s[i]));
        lemma_parse_digits(s, b, i + 1, neg);
    }
}

/// The clock components of a time that is not negative sum back to it: to the time itself with
/// milliseconds, to the time truncated to hundredths with hundredths.
pub proof fn lemma_clock_parts(a: int)
    requires
        0 <= a <= i64::MAX,
    ensures
        checked_clock(a / 3600000, (a / 60000) % 60, (a / 1000) % 60, a % 1000) == Some(a),
        checked_clock(a / 3600000, (a / 60000) % 60, (a / 1000) % 60, ((a / 10) % 100) * 10) == Some(
            a - a % 10,
        ),
        fits_i64(((a / 10) % 100) * 10),
        0 <= (a / 60000) % 60 < 60,
        0 <= (a / 1000) % 60 < 60,
        0 <= a % 1000 < 1000,
        0 <= (a / 10) % 100 < 100,
        0 <= a / 3600000 <= a,
{
    let x = a / 1000;
    let y = a / 60000;
    let z = a / 3600000;
    vstd::arithmetic::div_mod::lemma_div_denominator(a, 1000, 60);
    vstd::arithmetic::div_mod::lemma_div_denominator(a, 60000, 60);
    vstd::arithmetic::div_mod::lemma_div_denominator(a, 10, 100);
    assert(y == x / 60);
    assert(z == y / 60);
    assert(a / 1000 == (a / 10) / 100);
    vstd::arithmetic::div_mod::lemma_fundamental_div_mod(a, 1000);
    vstd::arithmetic::div_mod::lemma_fundamental_div_mod(x, 60);
    vstd::arithmetic::div_mod::lemma_fundamental_div_mod(y, 60);
    vstd::arithmetic::div_mod::lemma_fundamental_div_mod(a, 10);
    vstd::arithmetic::div_mod::lemma_fundamental_div_mod(a / 10, 100);
    vstd::arithmetic::div_mod::lemma_mod_pos_bound(a, 1000);
    vstd::arithmetic::div_mod::lemma_mod_pos_bound(x, 60);
    vstd::arithmetic::div_mod::lemma_mod_pos_bound(y, 60);
    vstd::arithmetic::div_mod::lemma_mod_pos_bound(a, 10);
    vstd::arithmetic::div_mod::lemma_mod_pos_bound(a / 10, 100);
    vstd::arithmetic::div_mod::lemma_div_pos_is_pos(a, 1000);
    vstd::arithmetic::div_mod::lemma_div_pos_is_pos(x, 60);
    vstd::arithmetic::div_mod::lemma_div_pos_is_pos(y, 60);
    vstd::arithmetic::div_mod::lemma_div_pos_is_pos(a, 10);
    assert(a == 1000 * x + a % 1000);
    assert(x == 60 * y + x % 60);
    assert(y == 60 * z + y % 60);
    assert(a == 10 * (a / 10) + a % 10);
    assert(a / 10 == 100 * x + (a / 10) % 100);
    assert(0 <= z <= y <= x <= a) by (nonlinear_arith)
        requires
            a == 1000 * x + a % 1000,
            x == 60 * y + x % 60,
            y == 60 * z + y % 60,
            0 <= a % 1000,
            0 <= x % 60,
            0 <= y % 60,
            0 <= z,
    ;
    let m = y % 60;
    let sec = x % 60;
    assert(m + 60 * z == y);
    assert(sec + 60 * y == x);
    assert(components_fit(z, m, sec, a % 1000));
    assert(((a / 10) % 100) * 10 + 1000 * x == a - a % 10);
    assert(components_fit(z, m, sec, ((a / 10) % 100) * 10));
}

} // verus!
