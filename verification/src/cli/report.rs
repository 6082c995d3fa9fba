//! The decisions of a run around the alignment itself: the encoding asked for on the command
//! line, negative times in the result, the debug output of the reference timings, and the
//! figures of the report.

use crate::text::{chars_of, extend_str, push_decimal, string_of};
use crate::timetypes::{TimePoint, TimeSpan, fits_i64};
use crate::formats::TextEncoding;
use encoding_rs::Encoding;
use vstd::prelude::*;

verus! {

broadcast use crate::timetypes::group_time_lemmas;

/// Whether `c` is the lower case ASCII letter `t` or its upper case form.
pub open spec fn ascii_letter_is(c: char, t: char) -> bool {
    c == t || c as int == t as int - 32
}

/// Whether the label is `auto`, in any mix of upper and lower case.
pub open spec fn is_auto(label: Seq<char>) -> bool {
    &&& label.len() == 4
    &&& ascii_letter_is(label[0], 'a')
    &&& ascii_letter_is(label[1], 'u')
    &&& ascii_letter_is(label[2], 't')
    &&& ascii_letter_is(label[3], 'o')
}

fn letter_is(c: char, t: char) -> (b: bool)
    requires
        'a' <= t <= 'z',
    ensures
        b == ascii_letter_is(c, t),
{
    c == t || (c as u32) + 32 == (t as u32)
}

/// The name of the encoding that `Encoding::for_label_no_replacement` finds for a WHATWG label,
/// if it finds one.
pub uninterp spec fn label_encoding(label: Seq<char>) -> Option<Seq<char>>;

/// `Encoding::for_label_no_replacement`: the encoding that a WHATWG label names, without the
/// `replacement` encoding. It depends on the label alone.
#[verifier::external_body]
fn encoding_for_label(label: &str) -> (r: Option<TextEncoding>)
    ensures
        match r {
            Some(e) => label_encoding(label@) == Some(e@),
            None => label_encoding(label@) is None,
        },
{
    Encoding::for_label_no_replacement(label.as_bytes()).map(TextEncoding::from_encoding)
}

/// The message for an encoding label that names no encoding.
pub open spec fn unknown_label_message(label: Seq<char>) -> Seq<char> {
    seq!['\''] + label + "' is not a known encoding label"@
}

/// The encoding that a command line label asks for: `None` for `auto`, which detects the
/// encoding from the data.
pub fn parse_encoding_arg(label: &str) -> (r: Result<Option<TextEncoding>, String>)
    ensures
        is_auto(label@) ==> r matches Ok(None),
        !is_auto(label@) ==> match label_encoding(label@) {
            Some(n) => r matches Ok(Some(e)) && e@ == n,
            None => r matches Err(m) && m@ == unknown_label_message(label@),
        },
{
    let cs = chars_of(label);
    if cs.len() == 4 && letter_is(cs[0], 'a') && letter_is(cs[1], 'u') && letter_is(cs[2], 't')
        && letter_is(cs[3], 'o') {
        return Ok(None);
    }
    match encoding_for_label(label) {
        Some(e) => Ok(Some(e)),
        None => {
            let mut out: Vec<char> = Vec::new();
            out.push('\'');
            extend_str(&mut out, label);
            extend_str(&mut out, "' is not a known encoding label");
            Err(string_of(out.as_slice()))
        },
    }
}

/// A timespan moved so that it does not start before zero: one that does moves by minus its
/// start, keeping its length.
pub open spec fn clamped(t: TimeSpan) -> TimeSpan {
    if t.start@ < 0 {
        TimeSpan { start: TimePoint::from_ms_spec(0), end: TimePoint::from_ms_spec(t.end@ - t.start@) }
    } else {
        t
    }
}

/// Whether moving a negative timespan to zero stays in the range of the times.
pub open spec fn can_clamp(t: TimeSpan) -> bool {
    t.start@ < 0 ==> t.start@ > i64::MIN && fits_i64(t.end@ - t.start@)
}

/// Moves every timespan that starts before zero so that it starts at zero.
pub fn clamp_negative_starts(spans: Vec<TimeSpan>) -> (r: Vec<TimeSpan>)
    requires
        forall|k: int| 0 <= k < spans@.len() ==> can_clamp(#[trigger] spans@[k]),
    ensures
        r@ == spans@.map_values(|t: TimeSpan| clamped(t)),
{
    let mut out: Vec<TimeSpan> = Vec::new();
    let mut i: usize = 0;
    while i < spans.len()
        invariant
            i <= spans@.len(),
            forall|k: int| 0 <= k < spans@.len() ==> can_clamp(#[trigger] spans@[k]),
            out@ == spans@.take(i as int).map_values(|t: TimeSpan| clamped(t)),
        decreases spans@.len() - i,
    {
        let t = spans[i];
        assert(can_clamp(spans@[i as int]));
        let c = if t.start.msecs() < 0 {
            let offset = 0 - t.start.msecs();
            TimeSpan::new(TimePoint::from_msecs(0), TimePoint::from_msecs(t.end.msecs() + offset))
        } else {
            t
        };
        out.push(c);
        assert(out@ =~= spans@.take(i + 1).map_values(|t: TimeSpan| clamped(t)));
        i = i + 1;
    }
    assert(spans@.take(spans@.len() as int) =~= spans@);
    out
}

/// The text of the `k`-th line of the debug file.
pub open spec fn reference_line_text(k: nat) -> Seq<char> {
    "line "@ + crate::text::decimal(k)
}

/// The lines of a `.srt` file that shows the timings of the reference file: each timespan with
/// the text `line <number>`, counted from zero.
pub fn reference_timing_lines(spans: &[TimeSpan]) -> (r: Vec<(TimeSpan, String)>)
    ensures
        r@.len() == spans@.len(),
        forall|k: int|
            0 <= k < spans@.len() ==> (#[trigger] r@[k]).0 == spans@[k] && r@[k].1@
                == reference_line_text(k as nat),
{
    let mut out: Vec<(TimeSpan, String)> = Vec::new();
    let mut i: usize = 0;
    while i < spans.len()
        invariant
            i <= spans@.len(),
            out@.len() == i,
            forall|k: int|
                0 <= k < i ==> (#[trigger] out@[k]).0 == spans@[k] && out@[k].1@ == reference_line_text(
                    k as nat,
                ),
        decreases spans@.len() - i,
    {
        let mut text: Vec<char> = Vec::new();
        extend_str(&mut text, "line ");
        push_decimal(&mut text, i as u64, 0);
        proof {
            reveal_strlit("line ");
            crate::text::lemma_decimal_len(i as nat);
        }
        assert(text@ =~= reference_line_text(i as nat));
        out.push((spans[i], string_of(text.as_slice())));
        i = i + 1;
    }
    out
}

/// The earliest and the latest start among the timespans.
pub fn group_extent(spans: &[TimeSpan]) -> (r: (TimePoint, TimePoint))
    requires
        spans@.len() > 0,
    ensures
        exists|k: int| 0 <= k < spans@.len() && r.0 == (#[trigger] spans@[k]).start,
        exists|k: int| 0 <= k < spans@.len() && r.1 == (#[trigger] spans@[k]).start,
        forall|k: int| 0 <= k < spans@.len() ==> r.0@ <= (#[trigger] spans@[k]).start@ <= r.1@,
{
    let mut first = spans[0].start;
    let mut last = spans[0].start;
    let mut i: usize = 1;
    while i < spans.len()
        invariant
            1 <= i <= spans@.len(),
            exists|k: int| 0 <= k < i && first == (#[trigger] spans@[k]).start,
            exists|k: int| 0 <= k < i && last == (#[trigger] spans@[k]).start,
            forall|k: int| 0 <= k < i ==> first@ <= (#[trigger] spans@[k]).start@ <= last@,
        decreases spans@.len() - i,
    {
        let s = spans[i].start;
        if s.msecs() < first.msecs() {
            first = s;
        }
        if s.msecs() > last.msecs() {
            last = s;
        }
        i = i + 1;
    }
    (first, last)
}

/// The smallest and the largest shift, or `None` when there is none.
pub fn delta_range(deltas: &[i64]) -> (r: Option<(i64, i64)>)
    ensures
        deltas@.len() == 0 <==> r is None,
        r matches Some((lo, hi)) ==> (exists|k: int| 0 <= k < deltas@.len() && lo == #[trigger] deltas@[k])
            && (exists|k: int| 0 <= k < deltas@.len() && hi == #[trigger] deltas@[k]) && forall|k: int|
            0 <= k < deltas@.len() ==> lo <= #[trigger] deltas@[k] <= hi,
{
    if deltas.len() == 0 {
        return None;
    }
    let mut lo = deltas[0];
    let mut hi = deltas[0];
    let mut i: usize = 1;
    while i < deltas.len()
        invariant
            1 <= i <= deltas@.len(),
            exists|k: int| 0 <= k < i && lo == #[trigger] deltas@[k],
            exists|k: int| 0 <= k < i && hi == #[trigger] deltas@[k],
            forall|k: int| 0 <= k < i ==> lo <= #[trigger] deltas@[k] <= hi,
        decreases deltas@.len() - i,
    {
        if deltas[i] < lo {
            lo = deltas[i];
        }
        if deltas[i] > hi {
            hi = deltas[i];
        }
        i = i + 1;
    }
    Some((lo, hi))
}

} // verus!
