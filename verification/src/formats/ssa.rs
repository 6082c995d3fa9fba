//! `SubStation Alpha` (`.ssa`/`.ass`) files.
//!
//! The `Format:` line of the `[Events]` section says which fields of a `Dialogue:` line hold
//! the start, the end and the text. The two times of every dialogue line are parsed; everything
//! else is kept verbatim so that the file can be written back unchanged but for the times.

use crate::errors::{Error, ParseError, SsaError};
use crate::formats::common::{
    FilePart, Piece, blanks_end, blanks_start, comma_fields, dedup_pieces, dedup_string_parts,
    dialogue_keyword, find_char, find_char_at, get_lines_non_destructive,
    join_pairs, law_dedup_keeps_text, law_lines_join_back, lemma_find_char, lemma_join_pairs_take,
    lemma_render_concat, lines_of, nd_lines, pairs_view, pieces, render, split_bom, ssa_dialogue,
    ssa_dialogue_spec, ssa_timepoint, ssa_timepoint_spec, std_lines, trim_chars,
    trim_non_destructive, trimmed,
};
use crate::formats::SubtitleEntry;
use crate::formats::srt::without_bom;
use crate::text::{
    append_str, chars_eq, chars_of, chars_view, decimal, extend_chars, extend_str, has_at,
    is_blank, lemma_lead_len, lemma_trail_len, padded, push_decimal, push_number, slice_of,
    string_of, utf8_of,
};
use crate::timetypes::{TimePoint, TimeSpan};
use vstd::prelude::*;

verus! {

broadcast use crate::timetypes::group_time_lemmas;

/// Why a `.ssa` file does not parse, in specifications.
pub enum SsaFailure {
    FieldsInfoNotFound,
    MissingField { line_num: int, f: Seq<char> },
    DuplicateField { line_num: int, f: Seq<char> },
    TextFieldNotLast { line_num: int },
    WrongTimepointFormat { line_num: int, string: Seq<char> },
    DialogLineParseError { line_num: int, msg: Seq<char> },
}

pub open spec fn ssa_failure(e: SsaError) -> SsaFailure {
    match e {
        SsaError::SsaFieldsInfoNotFound => SsaFailure::FieldsInfoNotFound,
        SsaError::SsaMissingField { line_num, f } => SsaFailure::MissingField {
            line_num: line_num as int,
            f: f@,
        },
        SsaError::SsaDuplicateField { line_num, f } => SsaFailure::DuplicateField {
            line_num: line_num as int,
            f: f@,
        },
        SsaError::SsaTextFieldNotLast { line_num } => SsaFailure::TextFieldNotLast {
            line_num: line_num as int,
        },
        SsaError::SsaWrongTimepointFormat { line_num, string } => SsaFailure::WrongTimepointFormat {
            line_num: line_num as int,
            string: string@,
        },
        SsaError::SsaDialogLineParseError { line_num, msg } => SsaFailure::DialogLineParseError {
            line_num: line_num as int,
            msg: msg@,
        },
    }
}

// ---------------------------------------------------------------------------------------------
// the `Format:` line

pub open spec fn format_keyword() -> Seq<char> {
    seq!['F', 'o', 'r', 'm', 'a', 't', ':']
}

pub open spec fn events_name() -> Seq<char> {
    seq!['E', 'v', 'e', 'n', 't', 's']
}

/// The `','`-separated chunks of `s[p..]`, as bounds.
pub open spec fn comma_chunks(s: Seq<char>, p: int) -> Seq<(int, int)>
    decreases s.len() - p,
{
    if p < 0 || p > s.len() {
        Seq::empty()
    } else {
        match find_char(s, p, s.len() as int, ',') {
            None => seq![(p, s.len() as int)],
            Some(q) => {
                proof {
                    lemma_find_char(s, p, s.len() as int, ',');
                }
                seq![(p, q)] + comma_chunks(s, q + 1)
            },
        }
    }
}

/// Where the start, end and text fields are, after the first `k` field names.
pub open spec fn field_positions(s: Seq<char>, names: Seq<(int, int)>, k: int, line_num: int) -> Result<
    (Option<int>, Option<int>, Option<int>),
    SsaFailure,
>
    decreases k,
{
    if k <= 0 {
        Ok((None, None, None))
    } else {
        match field_positions(s, names, k - 1, line_num) {
            Err(e) => Err(e),
            Ok((st, en, tx)) => {
                let name = trimmed(s.subrange(names[k - 1].0, names[k - 1].1));
                if name == "Start"@ {
                    if st is Some {
                        Err(SsaFailure::DuplicateField { line_num, f: "Start"@ })
                    } else {
                        Ok((Some(k - 1), en, tx))
                    }
                } else if name == "End"@ {
                    if en is Some {
                        Err(SsaFailure::DuplicateField { line_num, f: "End"@ })
                    } else {
                        Ok((st, Some(k - 1), tx))
                    }
                } else if name == "Text"@ {
                    if tx is Some {
                        Err(SsaFailure::DuplicateField { line_num, f: "Text"@ })
                    } else {
                        Ok((st, en, Some(k - 1)))
                    }
                } else {
                    Ok((st, en, tx))
                }
            },
        }
    }
}

/// The field layout that a `Format:` line declares: start, end and text field and the number
/// of fields.
pub struct FieldsModel {
    pub start: int,
    pub end: int,
    pub text: int,
    pub num: int,
}

/// The field layout of the `Format:` line `s` (which starts with `Format:`).
pub open spec fn fields_info_spec(s: Seq<char>, line_num: int) -> Result<FieldsModel, SsaFailure> {
    let names = comma_chunks(s, 7);
    let num = names.len() as int;
    match field_positions(s, names, num, line_num) {
        Err(e) => Err(e),
        Ok((st, en, tx)) => match tx {
            None => Err(SsaFailure::MissingField { line_num, f: "Text"@ }),
            Some(t) => if t != num - 1 {
                Err(SsaFailure::TextFieldNotLast { line_num })
            } else {
                match st {
                    None => Err(SsaFailure::MissingField { line_num, f: "Start"@ }),
                    Some(a) => match en {
                        None => Err(SsaFailure::MissingField { line_num, f: "End"@ }),
                        Some(b) => Ok(FieldsModel { start: a, end: b, text: t, num }),
                    },
                }
            },
        },
    }
}

/// The name of the section that the trimmed line `t` opens, if it opens one.
pub open spec fn section_name(t: Seq<char>) -> Option<Seq<char>> {
    if t.len() > 0 && t[0] == '[' && t[t.len() - 1] == ']' && t.len() >= 2 {
        Some(t.subrange(1, t.len() - 1))
    } else {
        None
    }
}

/// Looks for the `Format:` line of the `[Events]` section among `lines[k..]`, where `section`
/// is the section the earlier lines left open.
pub open spec fn find_format(lines: Seq<Seq<char>>, k: int, section: Option<Seq<char>>) -> Option<
    (int, Seq<char>),
>
    decreases lines.len() - k,
{
    if k < 0 || k >= lines.len() {
        None
    } else {
        let t = trimmed(lines[k]);
        let sec = match section_name(t) {
            Some(n) => Some(n),
            None => section,
        };
        if sec == Some(events_name()) && has_at(t, 0, format_keyword()) {
            Some((k, t))
        } else {
            find_format(lines, k + 1, sec)
        }
    }
}

/// The section that a trimmed line leaves open.
fn next_section(t: &Vec<char>, section: Option<Vec<char>>) -> (r: Option<Vec<char>>)
    ensures
        match section_name(t@) {
            Some(n) => r matches Some(v) && v@ == n,
            None => r == section,
        },
{
    let n = t.len();
    if n >= 2 && t[0] == '[' && t[n - 1] == ']' {
        Some(slice_of(t.as_slice(), 1, n - 1))
    } else {
        section
    }
}

fn is_events(section: &Option<Vec<char>>) -> (b: bool)
    ensures
        b == (match section {
            Some(v) => v@ == events_name(),
            None => false,
        }),
{
    match section {
        None => false,
        Some(v) => {
            let ev = chars_of("Events");
            proof {
                reveal_strlit("Events");
            }
            assert("Events"@ =~= events_name());
            chars_eq(v.as_slice(), ev.as_slice())
        },
    }
}

fn starts_with_str(t: &Vec<char>, kw: &str) -> (b: bool)
    ensures
        b == has_at(t@, 0, kw@),
{
    let k = chars_of(kw);
    crate::text::matches_at(t.as_slice(), 0, k.as_slice())
}

pub open spec fn opt_view(v: Option<Vec<char>>) -> Option<Seq<char>> {
    match v {
        Some(x) => Some(x@),
        None => None,
    }
}

/// The layout of the fields of `Dialogue:` lines.
struct SsaFieldsInfo {
    start_field_idx: usize,
    end_field_idx: usize,
    text_field_idx: usize,
    num_fields: usize,
}

impl SsaFieldsInfo {
    spec fn model(self) -> FieldsModel {
        FieldsModel {
            start: self.start_field_idx as int,
            end: self.end_field_idx as int,
            text: self.text_field_idx as int,
            num: self.num_fields as int,
        }
    }

    fn new_from_fields_info_line(line_num: usize, s: &Vec<char>) -> (r: Result<SsaFieldsInfo, SsaError>)
        requires
            s@.len() >= 7,
        ensures
            match r {
                Ok(f) => fields_info_spec(s@, line_num as int) == Ok::<FieldsModel, SsaFailure>(
                    f.model(),
                ) && f.start_field_idx < f.text_field_idx && f.end_field_idx < f.text_field_idx
                    && f.start_field_idx != f.end_field_idx && f.text_field_idx + 1
                    == f.num_fields,
                Err(e) => fields_info_spec(s@, line_num as int) == Err::<FieldsModel, SsaFailure>(
                    ssa_failure(e),
                ),
            },
    {
        proof {
            reveal_strlit("Start");
            reveal_strlit("End");
            reveal_strlit("Text");
        }
        let start_name = chars_of("Start");
        let end_name = chars_of("End");
        let text_name = chars_of("Text");
        let n = s.len();
        // the bounds of the field names
        let mut names: Vec<(usize, usize)> = Vec::new();
        let mut p: usize = 7;
        loop
            invariant_except_break
                7 <= p <= n,
                comma_chunks(s@, 7) == names@.map_values(|b: (usize, usize)| (b.0 as int, b.1 as int))
                    + comma_chunks(s@, p as int),
            invariant
                n == s@.len(),
                forall|j: int| 0 <= j < names@.len() ==> (#[trigger] names@[j]).0 <= names@[j].1 <= n,
            ensures
                comma_chunks(s@, 7) == names@.map_values(|b: (usize, usize)| (b.0 as int, b.1 as int)),
            decreases n - p,
        {
            let ghost before = names@.map_values(|b: (usize, usize)| (b.0 as int, b.1 as int));
            proof {
                lemma_find_char(s@, p as int, n as int, ',');
            }
            match find_char_at(s.as_slice(), p, n, ',') {
                None => {
                    names.push((p, n));
                    assert(names@.map_values(|b: (usize, usize)| (b.0 as int, b.1 as int)) =~= before
                        + seq![(p as int, n as int)]);
                    break;
                },
                Some(q) => {
                    names.push((p, q));
                    assert(names@.map_values(|b: (usize, usize)| (b.0 as int, b.1 as int)) =~= before
                        + seq![(p as int, q as int)]);
                    assert(before + (seq![(p as int, q as int)] + comma_chunks(s@, q + 1)) =~= before
                        + seq![(p as int, q as int)] + comma_chunks(s@, q + 1));
                    p = q + 1;
                },
            }
        }
        let ghost nv = names@.map_values(|b: (usize, usize)| (b.0 as int, b.1 as int));
        let num_fields = names.len();
        let mut start_idx: Option<usize> = None;
        let mut end_idx: Option<usize> = None;
        let mut text_idx: Option<usize> = None;
        let mut k: usize = 0;
        while k < num_fields
            invariant
                k <= num_fields,
                num_fields == names@.len(),
                nv == names@.map_values(|b: (usize, usize)| (b.0 as int, b.1 as int)),
                nv == comma_chunks(s@, 7),
                n == s@.len(),
                forall|j: int| 0 <= j < names@.len() ==> (#[trigger] names@[j]).0 <= names@[j].1 <= n,
                start_name@ == "Start"@,
                end_name@ == "End"@,
                text_name@ == "Text"@,
                field_positions(s@, nv, k as int, line_num as int) == Ok::<
                    (Option<int>, Option<int>, Option<int>),
                    SsaFailure,
                >(
                    (
                        match start_idx {
                            Some(i) => Some(i as int),
                            None => None,
                        },
                        match end_idx {
                            Some(i) => Some(i as int),
                            None => None,
                        },
                        match text_idx {
                            Some(i) => Some(i as int),
                            None => None,
                        },
                    ),
                ),
                start_idx matches Some(i) ==> i < k,
                end_idx matches Some(i) ==> i < k,
                text_idx matches Some(i) ==> i < k,
                start_idx is Some && end_idx is Some ==> start_idx != end_idx,
                start_idx is Some && text_idx is Some ==> start_idx != text_idx,
                end_idx is Some && text_idx is Some ==> end_idx != text_idx,
            decreases num_fields - k,
        {
            let (lo, hi) = names[k];
            let name = trim_chars(slice_of(s.as_slice(), lo, hi).as_slice());
            assert(nv[k as int] == (lo as int, hi as int));
            if chars_eq(name.as_slice(), start_name.as_slice()) {
                if start_idx.is_some() {
                    proof {
                        lemma_field_positions_err(s@, nv, k + 1, nv.len() as int, line_num as int);
                    }
                    return Err(SsaError::SsaDuplicateField { line_num, f: "Start" });
                }
                start_idx = Some(k);
            } else if chars_eq(name.as_slice(), end_name.as_slice()) {
                if end_idx.is_some() {
                    proof {
                        lemma_field_positions_err(s@, nv, k + 1, nv.len() as int, line_num as int);
                    }
                    return Err(SsaError::SsaDuplicateField { line_num, f: "End" });
                }
                end_idx = Some(k);
            } else if chars_eq(name.as_slice(), text_name.as_slice()) {
                if text_idx.is_some() {
                    proof {
                        lemma_field_positions_err(s@, nv, k + 1, nv.len() as int, line_num as int);
                    }
                    return Err(SsaError::SsaDuplicateField { line_num, f: "Text" });
                }
                text_idx = Some(k);
            }
            k = k + 1;
        }
        let text_field_idx = match text_idx {
            None => {
                return Err(SsaError::SsaMissingField { line_num, f: "Text" });
            },
            Some(t) => t,
        };
        if text_field_idx != num_fields - 1 {
            return Err(SsaError::SsaTextFieldNotLast { line_num });
        }
        let start_field_idx = match start_idx {
            None => {
                return Err(SsaError::SsaMissingField { line_num, f: "Start" });
            },
            Some(t) => t,
        };
        let end_field_idx = match end_idx {
            None => {
                return Err(SsaError::SsaMissingField { line_num, f: "End" });
            },
            Some(t) => t,
        };
        Ok(SsaFieldsInfo { start_field_idx, end_field_idx, text_field_idx, num_fields })
    }
}

/// A failure stays a failure, however many field names follow.
proof fn lemma_field_positions_err(
    s: Seq<char>,
    names: Seq<(int, int)>,
    k: int,
    m: int,
    line_num: int,
)
    requires
        0 <= k <= m,
        field_positions(s, names, k, line_num) is Err,
    ensures
        field_positions(s, names, m, line_num) == field_positions(s, names, k, line_num),
    decreases m - k,
{
    if m > k {
        lemma_field_positions_err(s, names, k, m - 1, line_num);
    }
}

// ---------------------------------------------------------------------------------------------
// `Dialogue:` lines

/// One dialogue line: its two times in the order the fields hold them, the text between and
/// after them, and the subtitle text.
pub struct DialogueModel {
    pub start_first: bool,
    pub first: TimePoint,
    pub mid: Seq<char>,
    pub second: TimePoint,
    pub tail: Seq<char>,
    pub text: Seq<char>,
}

/// The bounds of the field `b` of `line` without its leading and trailing blanks.
pub open spec fn field_trim(line: Seq<char>, b: (int, int)) -> (int, int) {
    let f = line.subrange(b.0, b.1);
    let x = blanks_end(f, 0);
    (b.0 + x, b.0 + blanks_start(f, x, f.len() as int))
}

/// The fields `from..to` of `line`, each followed by its comma.
pub open spec fn joined_fields(line: Seq<char>, fields: Seq<(int, int)>, from: int, to: int) -> Seq<char>
    decreases to - from,
{
    if from >= to {
        Seq::empty()
    } else {
        line.subrange(fields[from].0, fields[from].1) + seq![','] + joined_fields(
            line,
            fields,
            from + 1,
            to,
        )
    }
}

pub open spec fn dialogue_error_msg(num: int) -> Seq<char> {
    "expected `Dialogue:` followed by "@ + decimal(num as nat) + " comma-separated fields"@
}

/// A dialogue line, parsed: the text before the first time, and the dialogue.
pub open spec fn dialogue_spec(line: Seq<char>, n: int, info: FieldsModel) -> Result<
    (Seq<char>, DialogueModel),
    SsaFailure,
> {
    match ssa_dialogue_spec(line, info.num as nat) {
        None => Err(SsaFailure::DialogLineParseError { line_num: n, msg: dialogue_error_msg(info.num) }),
        Some((a, b, fields, t)) => {
            let start_first = info.start < info.end;
            let i1 = if start_first {
                info.start
            } else {
                info.end
            };
            let i2 = if start_first {
                info.end
            } else {
                info.start
            };
            let (s1, e1) = field_trim(line, fields[i1]);
            let (s2, e2) = field_trim(line, fields[i2]);
            match ssa_timepoint_spec(line.subrange(s1, e1)) {
                None => Err(SsaFailure::WrongTimepointFormat { line_num: n, string: line.subrange(s1, e1) }),
                Some(t1) => match ssa_timepoint_spec(line.subrange(s2, e2)) {
                    None => Err(
                        SsaFailure::WrongTimepointFormat { line_num: n, string: line.subrange(s2, e2) },
                    ),
                    Some(t2) => Ok(
                        (
                            line.take(a) + dialogue_keyword() + line.subrange(b, blanks_end(line, b))
                                + joined_fields(line, fields, 0, i1) + line.subrange(fields[i1].0, s1),
                            DialogueModel {
                                start_first,
                                first: TimePoint::from_ms_spec(t1),
                                mid: line.subrange(e1, fields[i1].1) + seq![','] + joined_fields(
                                    line,
                                    fields,
                                    i1 + 1,
                                    i2,
                                ) + line.subrange(fields[i2].0, s2),
                                second: TimePoint::from_ms_spec(t2),
                                tail: line.subrange(e2, fields[i2].1) + seq![','] + joined_fields(
                                    line,
                                    fields,
                                    i2 + 1,
                                    fields.len() as int,
                                ),
                                text: line.skip(t),
                            },
                        ),
                    ),
                },
            }
        },
    }
}

proof fn lemma_comma_fields_len(s: Seq<char>, p: int, n: nat)
    requires
        0 <= p,
    ensures
        crate::formats::common::comma_fields(s, p, n) matches Some((f, t)) ==> f.len() == n && (
        forall|k: int| 0 <= k < f.len() ==> 0 <= (#[trigger] f[k]).0 <= f[k].1 < s.len()),
    decreases n,
{
    if n > 0 {
        lemma_find_char(s, p, s.len() as int, ',');
        match find_char(s, p, s.len() as int, ',') {
            None => {},
            Some(q) => {
                lemma_comma_fields_len(s, q + 1, (n - 1) as nat);
                match crate::formats::common::comma_fields(s, q + 1, (n - 1) as nat) {
                    None => {},
                    Some((rest, t)) => {
                        let f = seq![(p, q)] + rest;
                        assert forall|k: int| 0 <= k < f.len() implies 0 <= (#[trigger] f[k]).0 <= f[k].1 < s.len() by {
                            if k > 0 {
                                assert(f[k] == rest[k - 1]);
                            }
                        }
                    },
                }
            },
        }
    }
}

/// The exec form of a dialogue.
#[derive(Debug, Clone)]
struct Dialogue {
    start_first: bool,
    first: TimePoint,
    mid: String,
    second: TimePoint,
    tail: String,
    text: String,
}

impl Dialogue {
    spec fn model(self) -> DialogueModel {
        DialogueModel {
            start_first: self.start_first,
            first: self.first,
            mid: self.mid@,
            second: self.second,
            tail: self.tail@,
            text: self.text@,
        }
    }
}

/// Appends the fields `from..to`, each followed by its comma.
fn append_fields(out: &mut String, line: Ghost<Seq<char>>, fields: &Vec<(&str, char)>, bounds: Ghost<Seq<(int, int)>>, from: usize, to: usize)
    requires
        from <= to <= fields@.len(),
        fields@.len() == bounds@.len(),
        forall|k: int|
            0 <= k < fields@.len() ==> (#[trigger] fields@[k]).0@ == line@.subrange(
                bounds@[k].0,
                bounds@[k].1,
            ) && fields@[k].1 == ',',
    ensures
        final(out)@ == old(out)@ + joined_fields(line@, bounds@, from as int, to as int),
{
    let mut k = to;
    let mut tailtext: Vec<char> = Vec::new();
    // build from the back so that the recursion of `joined_fields` is followed directly
    while k > from
        invariant
            from <= k <= to,
            to <= fields@.len(),
            fields@.len() == bounds@.len(),
            forall|j: int|
                0 <= j < fields@.len() ==> (#[trigger] fields@[j]).0@ == line@.subrange(
                    bounds@[j].0,
                    bounds@[j].1,
                ) && fields@[j].1 == ',',
            tailtext@ == joined_fields(line@, bounds@, k as int, to as int),
        decreases k,
    {
        k = k - 1;
        let mut piece = chars_of(fields[k].0);
        piece.push(',');
        extend_chars(&mut piece, tailtext.as_slice());
        tailtext = piece;
    }
    let t = string_of(tailtext.as_slice());
    append_str(out, t.as_str());
}

/// A field split into its leading blanks, its trimmed middle and its trailing blanks.
fn field_parts<'a>(f: &'a str, line: Ghost<Seq<char>>, bd: Ghost<(int, int)>) -> (r: (&'a str, &'a str, &'a str))
    requires
        f@ == line@.subrange(bd@.0, bd@.1),
        0 <= bd@.0 <= bd@.1 <= line@.len(),
    ensures
        bd@.0 <= field_trim(line@, bd@).0 <= field_trim(line@, bd@).1 <= bd@.1,
        r.0@ == line@.subrange(bd@.0, field_trim(line@, bd@).0),
        r.1@ == line@.subrange(field_trim(line@, bd@).0, field_trim(line@, bd@).1),
        r.2@ == line@.subrange(field_trim(line@, bd@).1, bd@.1),
{
    let r = trim_non_destructive(f);
    proof {
        let fs = line@.subrange(bd@.0, bd@.1);
        let x = blanks_end(fs, 0);
        crate::text::lemma_lead_len(fs.skip(0), |c: char| crate::text::is_blank(c));
        crate::text::lemma_trail_len(fs.subrange(x, fs.len() as int), |c: char| crate::text::is_blank(c));
        let tr = field_trim(line@, bd@);
        assert(r.0@ =~= line@.subrange(bd@.0, tr.0));
        assert(r.1@ =~= line@.subrange(tr.0, tr.1));
        assert(r.2@ =~= fs.skip(fs.len() - r.2@.len()));
        assert(r.2@ =~= line@.subrange(tr.1, bd@.1));
    }
    r
}

/// Parses a dialogue line with the field layout `info`.
#[verifier::rlimit(40)]
fn parse_dialog_line(line_num: usize, line: &String, info: &SsaFieldsInfo) -> (r: Result<
    (String, Dialogue),
    SsaError,
>)
    requires
        info.start_field_idx < info.text_field_idx,
        info.end_field_idx < info.text_field_idx,
        info.start_field_idx != info.end_field_idx,
        info.text_field_idx + 1 == info.num_fields,
    ensures
        match r {
            Ok((pre, d)) => dialogue_spec(line@, line_num as int, info.model()) == Ok::<
                (Seq<char>, DialogueModel),
                SsaFailure,
            >((pre@, d.model())),
            Err(e) => dialogue_spec(line@, line_num as int, info.model()) == Err::<
                (Seq<char>, DialogueModel),
                SsaFailure,
            >(ssa_failure(e)),
        },
{
    let (ws1, ws2, fields, text) = match ssa_dialogue(line.as_str(), info.num_fields) {
        None => {
            let mut msg = String::new();
            proof {
                reveal_strlit("expected `Dialogue:` followed by ");
                reveal_strlit(" comma-separated fields");
            }
            let mut m: Vec<char> = Vec::new();
            extend_str(&mut m, "expected `Dialogue:` followed by ");
            push_number(&mut m, info.num_fields as u64);
            extend_str(&mut m, " comma-separated fields");
            let ms = string_of(m.as_slice());
            append_str(&mut msg, ms.as_str());
            return Err(SsaError::SsaDialogLineParseError { line_num, msg });
        },
        Some(x) => x,
    };
    let ghost spec = ssa_dialogue_spec(line@, info.num_fields as nat);
    let ghost a = spec.unwrap().0;
    let ghost b = spec.unwrap().1;
    let ghost bounds = spec.unwrap().2;
    let ghost t = spec.unwrap().3;
    proof {
        crate::text::lemma_lead_len(line@.skip(b), |c: char| crate::text::is_blank(c));
        lemma_comma_fields_len(line@, blanks_end(line@, b), (info.num_fields - 1) as nat);
    }
    let start_first = info.start_field_idx < info.end_field_idx;
    let i1 = if start_first {
        info.start_field_idx
    } else {
        info.end_field_idx
    };
    let i2 = if start_first {
        info.end_field_idx
    } else {
        info.start_field_idx
    };
    let (begin1, mid1, end1) = field_parts(fields[i1].0, Ghost(line@), Ghost(bounds[i1 as int]));
    let (begin2, mid2, end2) = field_parts(fields[i2].0, Ghost(line@), Ghost(bounds[i2 as int]));
    let ghost tr1 = field_trim(line@, bounds[i1 as int]);
    let ghost tr2 = field_trim(line@, bounds[i2 as int]);
    let t1 = match ssa_timepoint(mid1) {
        None => {
            let mut st = String::new();
            append_str(&mut st, mid1);
            return Err(SsaError::SsaWrongTimepointFormat { line_num, string: st });
        },
        Some(t) => t,
    };
    let t2 = match ssa_timepoint(mid2) {
        None => {
            let mut st = String::new();
            append_str(&mut st, mid2);
            return Err(SsaError::SsaWrongTimepointFormat { line_num, string: st });
        },
        Some(t) => t,
    };
    proof {
        reveal_strlit("Dialogue:");
        assert("Dialogue:"@ =~= dialogue_keyword());
    }
    let mut pre = String::new();
    append_str(&mut pre, ws1);
    append_str(&mut pre, "Dialogue:");
    append_str(&mut pre, ws2);
    append_fields(&mut pre, Ghost(line@), &fields, Ghost(bounds), 0, i1);
    append_str(&mut pre, begin1);
    let mut mid = String::new();
    append_str(&mut mid, end1);
    append_str(&mut mid, ",");
    proof {
        reveal_strlit(",");
    }
    append_fields(&mut mid, Ghost(line@), &fields, Ghost(bounds), i1 + 1, i2);
    append_str(&mut mid, begin2);
    let mut tail = String::new();
    append_str(&mut tail, end2);
    append_str(&mut tail, ",");
    append_fields(&mut tail, Ghost(line@), &fields, Ghost(bounds), i2 + 1, fields.len());
    let mut txt = String::new();
    append_str(&mut txt, text);
    let d = Dialogue {
        start_first,
        first: TimePoint::from_msecs(t1),
        mid,
        second: TimePoint::from_msecs(t2),
        tail,
        text: txt,
    };
    assert(pre@ =~= line@.take(a) + dialogue_keyword() + line@.subrange(b, blanks_end(line@, b))
        + joined_fields(line@, bounds, 0, i1 as int) + line@.subrange(bounds[i1 as int].0, tr1.0));
    assert(","@ =~= seq![',']);
    assert(d.mid@ =~= line@.subrange(tr1.1, bounds[i1 as int].1) + seq![','] + joined_fields(
        line@,
        bounds,
        i1 + 1,
        i2 as int,
    ) + line@.subrange(bounds[i2 as int].0, tr2.0));
    assert(d.tail@ =~= line@.subrange(tr2.1, bounds[i2 as int].1) + seq![','] + joined_fields(
        line@,
        bounds,
        i2 + 1,
        bounds.len() as int,
    ));
    assert(TimePoint::from_ms_spec(d.first@) == d.first);
    assert(TimePoint::from_ms_spec(d.second@) == d.second);
    Ok((pre, d))
}

// ---------------------------------------------------------------------------------------------
// the file

/// One line of the file, parsed, given the section that the earlier lines left open: the
/// section after it and its pieces.
pub open spec fn ssa_line_step(
    line: Seq<char>,
    newl: Seq<char>,
    n: int,
    section: Option<Seq<char>>,
    info: FieldsModel,
) -> Result<(Option<Seq<char>>, Seq<Piece<DialogueModel>>), SsaFailure> {
    let t = trimmed(line);
    match section_name(t) {
        Some(nm) => Ok((Some(nm), seq![Piece::Filler(line), Piece::Filler(newl)])),
        None => if section != Some(events_name()) || !has_at(t, 0, dialogue_keyword()) {
            Ok((section, seq![Piece::Filler(line), Piece::Filler(newl)]))
        } else {
            match dialogue_spec(line, n, info) {
                Err(e) => Err(e),
                Ok((pre, d)) => Ok(
                    (section, seq![Piece::Filler(pre), Piece::Other(d), Piece::Filler(newl)]),
                ),
            }
        },
    }
}

/// The first `k` lines, parsed.
pub open spec fn ssa_fold(lines: Seq<(Seq<char>, Seq<char>)>, k: int, info: FieldsModel) -> Result<
    (Option<Seq<char>>, Seq<Piece<DialogueModel>>),
    SsaFailure,
>
    decreases k,
{
    if k <= 0 {
        Ok((None, Seq::empty()))
    } else {
        match ssa_fold(lines, k - 1, info) {
            Err(e) => Err(e),
            Ok((sec, p)) => match ssa_line_step(lines[k - 1].0, lines[k - 1].1, k - 1, sec, info) {
                Err(e) => Err(e),
                Ok((sec2, q)) => Ok((sec2, p + q)),
            },
        }
    }
}

/// The pieces of a whole `.ssa` file.
pub open spec fn ssa_parse_spec(s: Seq<char>) -> Result<Seq<Piece<DialogueModel>>, SsaFailure> {
    let body = without_bom(s);
    let bom = s.take(s.len() - body.len());
    match find_format(std_lines(body, 0), 0, None) {
        None => Err(SsaFailure::FieldsInfoNotFound),
        Some((ln, fl)) => match fields_info_spec(fl, ln) {
            Err(e) => Err(e),
            Ok(info) => {
                let lines = nd_lines(body, 0);
                match ssa_fold(lines, lines.len() as int, info) {
                    Err(e) => Err(e),
                    Ok((_, p)) => Ok(dedup_pieces(seq![Piece::Filler(bom)] + p)),
                }
            },
        },
    }
}

/// The timespan of a dialogue.
pub open spec fn dialogue_span(d: DialogueModel) -> TimeSpan {
    if d.start_first {
        TimeSpan { start: d.first, end: d.second }
    } else {
        TimeSpan { start: d.second, end: d.first }
    }
}

/// The dialogues among the pieces, in order.
pub open spec fn ssa_dialogues(s: Seq<Piece<DialogueModel>>) -> Seq<DialogueModel>
    decreases s.len(),
{
    if s.len() == 0 {
        Seq::empty()
    } else {
        match s.last() {
            Piece::Other(d) => ssa_dialogues(s.drop_last()).push(d),
            Piece::Filler(_) => ssa_dialogues(s.drop_last()),
        }
    }
}

/// The entries that a file hands out.
pub open spec fn ssa_entries(s: Seq<Piece<DialogueModel>>) -> Seq<(TimeSpan, Option<Seq<char>>)> {
    ssa_dialogues(s).map_values(|d: DialogueModel| (dialogue_span(d), Some(d.text)))
}

pub open spec fn dialogues_before(s: Seq<Piece<DialogueModel>>, i: int) -> int {
    ssa_dialogues(s.take(i)).len() as int
}

/// A dialogue with the timespan and, if the entry carries one, the text of `e`.
pub open spec fn dialogue_updated(d: DialogueModel, e: SubtitleEntry) -> DialogueModel {
    DialogueModel {
        start_first: d.start_first,
        first: if d.start_first {
            e.timespan.start
        } else {
            e.timespan.end
        },
        mid: d.mid,
        second: if d.start_first {
            e.timespan.end
        } else {
            e.timespan.start
        },
        tail: d.tail,
        text: match e.text() {
            Some(t) => t,
            None => d.text,
        },
    }
}

/// The pieces with the `k`-th dialogue updated from `e[k]`.
pub open spec fn ssa_updated(s: Seq<Piece<DialogueModel>>, e: Seq<SubtitleEntry>) -> Seq<Piece<DialogueModel>> {
    Seq::new(
        s.len(),
        |i: int|
            match s[i] {
                Piece::Other(d) => Piece::Other(dialogue_updated(d, e[dialogues_before(s, i)])),
                Piece::Filler(t) => Piece::Filler(t),
            },
    )
}

/// A time point as the `.ssa` writer renders it: `[-]h:mm:ss.cc`.
pub open spec fn ssa_stamp(t: TimePoint) -> Seq<char> {
    let a = if t@ < 0 {
        -t@
    } else {
        t@
    };
    (if t@ < 0 {
        seq!['-']
    } else {
        Seq::<char>::empty()
    }) + decimal((a / 3600000) as nat) + seq![':'] + padded(((a / 60000) % 60) as nat, 2) + seq![
        ':',
    ] + padded(((a / 1000) % 60) as nat, 2) + seq!['.'] + padded(((a / 10) % 100) as nat, 2)
}

/// A dialogue as the writer renders it.
pub open spec fn dialogue_text(d: DialogueModel) -> Seq<char> {
    ssa_stamp(d.first) + d.mid + ssa_stamp(d.second) + d.tail + d.text
}

/// One part of a `.ssa` file.
#[derive(Debug, Clone)]
enum SsaFilePart {
    /// Text that is kept only to write the file back.
    Filler(String),
    /// The timed part of a dialogue line.
    Dialogue(Dialogue),
}

impl FilePart for SsaFilePart {
    type Model = DialogueModel;

    closed spec fn piece(&self) -> Piece<DialogueModel> {
        match self {
            SsaFilePart::Filler(t) => Piece::Filler(t@),
            SsaFilePart::Dialogue(d) => Piece::Other(d.model()),
        }
    }

    fn is_filler(&self) -> (b: bool) {
        match self {
            SsaFilePart::Filler(_) => true,
            SsaFilePart::Dialogue(_) => false,
        }
    }

    fn absorb(&mut self, other: Self) {
        match other {
            SsaFilePart::Filler(t) => {
                match self {
                    SsaFilePart::Filler(s) => {
                        append_str(s, t.as_str());
                    },
                    SsaFilePart::Dialogue(_) => {},
                }
            },
            SsaFilePart::Dialogue(_) => {},
        }
    }
}

fn filler_of(t: &Vec<char>) -> (r: SsaFilePart)
    ensures
        r.piece() == Piece::<DialogueModel>::Filler(t@),
{
    SsaFilePart::Filler(string_of(t.as_slice()))
}

/// A `.ssa`/`.ass` file.
#[derive(Debug, Clone)]
pub struct SsaFile {
    v: Vec<SsaFilePart>,
}

impl View for SsaFile {
    type V = Seq<Piece<DialogueModel>>;

    closed spec fn view(&self) -> Seq<Piece<DialogueModel>> {
        pieces(self.v@)
    }
}

impl SsaFile {
    /// Parses the text of a `.ssa`/`.ass` file.
    pub fn parse(s: &str) -> (r: Result<SsaFile, Error>)
        ensures
            match r {
                Ok(f) => ssa_parse_spec(s@) == Ok::<Seq<Piece<DialogueModel>>, SsaFailure>(f@),
                Err(e) => e matches Error::ParsingError(ParseError::SubStationAlpha(se))
                    && ssa_parse_spec(s@) == Err::<Seq<Piece<DialogueModel>>, SsaFailure>(
                    ssa_failure(se),
                ),
            },
    {
        match Self::parse_inner(s) {
            Ok(f) => Ok(f),
            Err(e) => Err(Error::ParsingError(ParseError::SubStationAlpha(e))),
        }
    }

    fn parse_inner(i: &str) -> (r: Result<SsaFile, SsaError>)
        ensures
            match r {
                Ok(f) => ssa_parse_spec(i@) == Ok::<Seq<Piece<DialogueModel>>, SsaFailure>(f@),
                Err(e) => ssa_parse_spec(i@) == Err::<Seq<Piece<DialogueModel>>, SsaFailure>(
                    ssa_failure(e),
                ),
            },
    {
        let (bom, s) = split_bom(i);
        proof {
            if i@.len() > 0 && i@[0] == '\u{feff}' {
                assert(s@ =~= i@.skip(1));
                assert(bom@ =~= i@.take(1));
            } else {
                assert(s@ =~= i@);
                assert(bom@ =~= i@.take(0));
            }
        }
        let cs = chars_of(s);
        let (line_num, field_info_line) = match Self::get_format_info(cs.as_slice()) {
            Err(e) => {
                return Err(e);
            },
            Ok(x) => x,
        };
        let fields_info = match SsaFieldsInfo::new_from_fields_info_line(line_num, &field_info_line) {
            Err(e) => {
                return Err(e);
            },
            Ok(f) => f,
        };
        let mut file_parts: Vec<SsaFilePart> = Vec::new();
        let mut b = String::new();
        append_str(&mut b, bom);
        file_parts.push(SsaFilePart::Filler(b));
        let ghost head = seq![Piece::<DialogueModel>::Filler(bom@)];
        assert(pieces(file_parts@) =~= head);
        match Self::parse_dialog_lines(&fields_info, s, &mut file_parts) {
            Err(e) => Err(e),
            Ok(()) => Ok(SsaFile { v: dedup_string_parts(file_parts) }),
        }
    }

    /// The number and the trimmed text of the `Format:` line of the `[Events]` section.
    fn get_format_info(s: &[char]) -> (r: Result<(usize, Vec<char>), SsaError>)
        ensures
            match r {
                Ok((n, t)) => find_format(std_lines(s@, 0), 0, None) == Some((n as int, t@))
                    && t@.len() >= 7,
                Err(e) => find_format(std_lines(s@, 0), 0, None) is None && e
                    == SsaError::SsaFieldsInfoNotFound,
            },
    {
        let lines = lines_of(s);
        let ghost lv = chars_view(lines@);
        let mut section: Option<Vec<char>> = None;
        let mut k: usize = 0;
        proof {
            reveal_strlit("Format:");
            assert("Format:"@ =~= format_keyword());
        }
        while k < lines.len()
            invariant
                k <= lines@.len(),
                lv == chars_view(lines@),
                lv == std_lines(s@, 0),
                find_format(lv, 0, None) == find_format(lv, k as int, opt_view(section)),
                "Format:"@ == format_keyword(),
            decreases lines@.len() - k,
        {
            let t = trim_chars(lines[k].as_slice());
            assert(lines@[k as int]@ == lv[k as int]);
            section = next_section(&t, section);
            if is_events(&section) && starts_with_str(&t, "Format:") {
                return Ok((k, t));
            }
            k = k + 1;
        }
        Err(SsaError::SsaFieldsInfoNotFound)
    }

    /// Appends the pieces of every line of `s` to `result`.
    fn parse_dialog_lines(fields_info: &SsaFieldsInfo, s: &str, result: &mut Vec<SsaFilePart>) -> (r:
        Result<(), SsaError>)
        requires
            fields_info.start_field_idx < fields_info.text_field_idx,
            fields_info.end_field_idx < fields_info.text_field_idx,
            fields_info.start_field_idx != fields_info.end_field_idx,
            fields_info.text_field_idx + 1 == fields_info.num_fields,
        ensures
            match r {
                Ok(()) => ssa_fold(nd_lines(s@, 0), nd_lines(s@, 0).len() as int, fields_info.model()) matches Ok((_, p))
                    && pieces(final(result)@) == pieces(old(result)@) + p,
                Err(e) => ssa_fold(nd_lines(s@, 0), nd_lines(s@, 0).len() as int, fields_info.model())
                    == Err::<(Option<Seq<char>>, Seq<Piece<DialogueModel>>), SsaFailure>(
                    ssa_failure(e),
                ),
            },
    {
        let lines = get_lines_non_destructive(s);
        let ghost lv = nd_lines(s@, 0);
        let ghost info = fields_info.model();
        let ghost head = pieces(result@);
        let n = lines.len();
        let mut section: Option<Vec<char>> = None;
        let mut k: usize = 0;
        proof {
            reveal_strlit("Dialogue:");
            assert("Dialogue:"@ =~= dialogue_keyword());
        }
        while k < n
            invariant
                k <= n,
                n == lines@.len(),
                lv == nd_lines(s@, 0),
                lv == pairs_view(lines@),
                info == fields_info.model(),
                "Dialogue:"@ == dialogue_keyword(),
                fields_info.start_field_idx < fields_info.text_field_idx,
                fields_info.end_field_idx < fields_info.text_field_idx,
                fields_info.start_field_idx != fields_info.end_field_idx,
                fields_info.text_field_idx + 1 == fields_info.num_fields,
                ssa_fold(lv, k as int, info) matches Ok((sec, p)) && sec == opt_view(section)
                    && pieces(result@) == head + p,
            decreases n - k,
        {
            let ghost before = pieces(result@);
            let ghost prev = match ssa_fold(lv, k as int, info) {
                Ok((_, p)) => p,
                Err(_) => Seq::empty(),
            };
            let line = &lines[k].0;
            let newl = &lines[k].1;
            let lc = chars_of(line.as_str());
            let nc = chars_of(newl.as_str());
            let t = trim_chars(lc.as_slice());
            let tn = t.len();
            if tn >= 2 && t[0] == '[' && t[tn - 1] == ']' {
                section = Some(slice_of(t.as_slice(), 1, tn - 1));
                result.push(filler_of(&lc));
                result.push(filler_of(&nc));
                assert(pieces(result@) =~= before + seq![Piece::Filler(line@), Piece::Filler(newl@)]);
                assert(head + (prev + seq![Piece::Filler(line@), Piece::Filler(newl@)]) =~= before
                    + seq![Piece::Filler(line@), Piece::Filler(newl@)]);
            } else if !is_events(&section) || !starts_with_str(&t, "Dialogue:") {
                result.push(filler_of(&lc));
                result.push(filler_of(&nc));
                assert(pieces(result@) =~= before + seq![Piece::Filler(line@), Piece::Filler(newl@)]);
                assert(head + (prev + seq![Piece::Filler(line@), Piece::Filler(newl@)]) =~= before
                    + seq![Piece::Filler(line@), Piece::Filler(newl@)]);
            } else {
                match parse_dialog_line(k, line, fields_info) {
                    Err(e) => {
                        proof {
                            lemma_ssa_fold_err(lv, k + 1, lv.len() as int, info);
                        }
                        return Err(e);
                    },
                    Ok((pre, d)) => {
                        let ghost dm = d.model();
                        result.push(SsaFilePart::Filler(pre));
                        result.push(SsaFilePart::Dialogue(d));
                        result.push(filler_of(&nc));
                        let ghost q = seq![Piece::Filler(pre@), Piece::Other(dm), Piece::Filler(newl@)];
                        assert(pieces(result@) =~= before + q);
                        assert(head + (prev + q) =~= before + q);
                    },
                }
            }
            k = k + 1;
        }
        Ok(())
    }

    fn dialogues(&self) -> (r: usize)
        ensures
            r == ssa_dialogues(self@).len(),
    {
        let mut n: usize = 0;
        let mut i: usize = 0;
        while i < self.v.len()
            invariant
                i <= self.v@.len(),
                n == ssa_dialogues(self@.take(i as int)).len(),
                n <= i,
            decreases self.v@.len() - i,
        {
            assert(self@.take(i + 1).drop_last() =~= self@.take(i as int));
            match &self.v[i] {
                SsaFilePart::Filler(_) => {},
                SsaFilePart::Dialogue(_) => {
                    n = n + 1;
                },
            }
            i = i + 1;
        }
        assert(self@.take(self.v@.len() as int) =~= self@);
        n
    }

    /// The entries of the file: one per dialogue line.
    pub fn get_subtitle_entries(&self) -> (r: Result<Vec<SubtitleEntry>, Error>)
        ensures
            r matches Ok(v) && crate::formats::srt::entry_models(v@) == ssa_entries(self@),
    {
        let mut out: Vec<SubtitleEntry> = Vec::new();
        let mut i: usize = 0;
        while i < self.v.len()
            invariant
                i <= self.v@.len(),
                crate::formats::srt::entry_models(out@) == ssa_entries(self@.take(i as int)),
            decreases self.v@.len() - i,
        {
            let ghost before = crate::formats::srt::entry_models(out@);
            assert(self@.take(i + 1).drop_last() =~= self@.take(i as int));
            match &self.v[i] {
                SsaFilePart::Filler(_) => {
                    assert(ssa_entries(self@.take(i + 1)) =~= ssa_entries(self@.take(i as int)));
                },
                SsaFilePart::Dialogue(d) => {
                    let span = if d.start_first {
                        TimeSpan::new(d.first, d.second)
                    } else {
                        TimeSpan::new(d.second, d.first)
                    };
                    let mut t = String::new();
                    append_str(&mut t, d.text.as_str());
                    out.push(SubtitleEntry::new(span, t));
                    assert(crate::formats::srt::entry_models(out@) =~= before.push(
                        (dialogue_span(d.model()), Some(d.text@)),
                    ));
                    assert(ssa_entries(self@.take(i + 1)) =~= ssa_entries(self@.take(i as int)).push(
                        (dialogue_span(d.model()), Some(d.text@)),
                    ));
                },
            }
            i = i + 1;
        }
        assert(self@.take(self.v@.len() as int) =~= self@);
        Ok(out)
    }

    /// Writes the timespans (and, where the entries carry one, the texts) into the dialogues.
    pub fn update_subtitle_entries(&mut self, new_subtitle_entries: &[SubtitleEntry]) -> (r: Result<
        (),
        Error,
    >)
        ensures
            match r {
                Ok(()) => ssa_dialogues(old(self)@).len() == new_subtitle_entries@.len()
                    && final(self)@ == ssa_updated(old(self)@, new_subtitle_entries@),
                Err(e) => ssa_dialogues(old(self)@).len() != new_subtitle_entries@.len()
                    && final(self)@ == old(self)@ && e == (Error::EntryCountMismatch {
                    expected: ssa_dialogues(old(self)@).len() as usize,
                    provided: new_subtitle_entries@.len() as usize,
                }),
            },
    {
        let expected = self.dialogues();
        if expected != new_subtitle_entries.len() {
            return Err(Error::EntryCountMismatch { expected, provided: new_subtitle_entries.len() });
        }
        let ghost old_p = self@;
        let ghost es = new_subtitle_entries@;
        let mut taken: Vec<SsaFilePart> = Vec::new();
        std::mem::swap(&mut taken, &mut self.v);
        let ghost orig = taken@;
        let mut rev = crate::text::reversed(taken);
        let n = rev.len();
        let mut count: usize = 0;
        let mut i: usize = 0;
        while i < n
            invariant
                i <= n,
                n == orig.len(),
                old_p == pieces(orig),
                es == new_subtitle_entries@,
                rev@.len() == n - i,
                forall|j: int| 0 <= j < rev@.len() ==> #[trigger] rev@[j] == orig[n - 1 - j],
                self.v@.len() == i,
                count == dialogues_before(old_p, i as int),
                ssa_dialogues(old_p).len() == es.len(),
                forall|j: int| 0 <= j < i ==> (#[trigger] self.v@[j]).piece() == ssa_updated(old_p, es)[j],
            decreases n - i,
        {
            let part = rev.pop().unwrap();
            assert(part == orig[i as int]);
            proof {
                lemma_dialogues_prefix(old_p, i + 1);
                lemma_dialogues_bound(old_p, i + 1);
            }
            match part {
                SsaFilePart::Filler(t) => {
                    self.v.push(SsaFilePart::Filler(t));
                },
                SsaFilePart::Dialogue(d) => {
                    let e = &new_subtitle_entries[count];
                    let mut d = d;
                    if d.start_first {
                        d.first = e.timespan.start;
                        d.second = e.timespan.end;
                    } else {
                        d.first = e.timespan.end;
                        d.second = e.timespan.start;
                    }
                    match &e.line {
                        Some(text) => {
                            let mut t = String::new();
                            append_str(&mut t, text.as_str());
                            d.text = t;
                        },
                        None => {},
                    }
                    self.v.push(SsaFilePart::Dialogue(d));
                    count = count + 1;
                },
            }
            i = i + 1;
        }
        assert(self@ =~= ssa_updated(old_p, es));
        Ok(())
    }

    #[verifier::spinoff_prover]
    #[verifier::rlimit(30)]
    fn push_stamp(out: &mut Vec<char>, t: TimePoint)
        ensures
            final(out)@ == old(out)@ + ssa_stamp(t),
    {
        let ms = t.msecs();
        let a: u64 = if ms < 0 {
            if ms == i64::MIN {
                9223372036854775808u64
            } else {
                (-ms) as u64
            }
        } else {
            ms as u64
        };
        if ms < 0 {
            out.push('-');
        }
        proof {
            crate::text::lemma_decimal_len((a / 3600000) as nat);
        }
        push_decimal(out, a / 3600000, 0);
        out.push(':');
        push_decimal(out, (a / 60000) % 60, 2);
        out.push(':');
        push_decimal(out, (a / 1000) % 60, 2);
        out.push('.');
        push_decimal(out, (a / 10) % 100, 2);
        assert(padded((a / 3600000) as nat, 0) == decimal((a / 3600000) as nat));
        assert(out@ =~= old(out)@ + ssa_stamp(t));
    }

    /// The file as `.ssa` text, in UTF-8: everything verbatim but the rendered times.
    pub fn to_data(&self) -> (r: Result<Vec<u8>, Error>)
        ensures
            r matches Ok(b) && b@ == vstd::utf8::encode_utf8(
                render(self@, |d: DialogueModel| dialogue_text(d)),
            ),
    {
        let mut out: Vec<char> = Vec::new();
        let mut i: usize = 0;
        while i < self.v.len()
            invariant
                i <= self.v@.len(),
                out@ == render(self@.take(i as int), |d: DialogueModel| dialogue_text(d)),
            decreases self.v@.len() - i,
        {
            assert(self@.take(i + 1).drop_last() =~= self@.take(i as int));
            let ghost before = out@;
            match &self.v[i] {
                SsaFilePart::Filler(t) => {
                    extend_str(&mut out, t.as_str());
                },
                SsaFilePart::Dialogue(d) => {
                    Self::push_stamp(&mut out, d.first);
                    extend_str(&mut out, d.mid.as_str());
                    Self::push_stamp(&mut out, d.second);
                    extend_str(&mut out, d.tail.as_str());
                    extend_str(&mut out, d.text.as_str());
                    assert(out@ =~= before + dialogue_text(d.model()));
                },
            }
            i = i + 1;
        }
        assert(self@.take(self.v@.len() as int) =~= self@);
        let text = string_of(out.as_slice());
        Ok(utf8_of(&text))
    }
}

/// A failure stays a failure, however many lines follow.
pub proof fn lemma_ssa_fold_err(lines: Seq<(Seq<char>, Seq<char>)>, k: int, m: int, info: FieldsModel)
    requires
        0 <= k <= m,
        ssa_fold(lines, k, info) is Err,
    ensures
        ssa_fold(lines, m, info) == ssa_fold(lines, k, info),
    decreases m - k,
{
    if m > k {
        lemma_ssa_fold_err(lines, k, m - 1, info);
    }
}

proof fn lemma_dialogues_prefix(s: Seq<Piece<DialogueModel>>, i: int)
    requires
        0 < i <= s.len(),
    ensures
        dialogues_before(s, i) == dialogues_before(s, i - 1) + (if s[i - 1] is Other {
            1int
        } else {
            0int
        }),
        s[i - 1] matches Piece::Other(d) ==> ssa_dialogues(s.take(i)) == ssa_dialogues(
            s.take(i - 1),
        ).push(d),
{
    assert(s.take(i).drop_last() =~= s.take(i - 1));
}

proof fn lemma_dialogues_bound(s: Seq<Piece<DialogueModel>>, i: int)
    requires
        0 <= i <= s.len(),
    ensures
        dialogues_before(s, i) <= ssa_dialogues(s).len(),
    decreases s.len() - i,
{
    if i < s.len() {
        lemma_dialogues_bound(s, i + 1);
        lemma_dialogues_prefix(s, i + 1);
    } else {
        assert(s.take(i) =~= s);
    }
}

proof fn lemma_updated_prefix(s: Seq<Piece<DialogueModel>>, e: Seq<SubtitleEntry>, i: int)
    requires
        0 <= i <= s.len(),
        ssa_dialogues(s).len() == e.len(),
    ensures
        ssa_dialogues(ssa_updated(s, e).take(i)) == ssa_dialogues(s.take(i)).zip_with(
            e.take(dialogues_before(s, i)),
        ).map_values(|p: (DialogueModel, SubtitleEntry)| dialogue_updated(p.0, p.1)),
        dialogues_before(s, i) <= e.len(),
        ssa_dialogues(s.take(i)).len() == dialogues_before(s, i),
    decreases i,
{
    let u = ssa_updated(s, e);
    lemma_dialogues_bound(s, i);
    if i == 0 {
        assert(u.take(0) =~= Seq::<Piece<DialogueModel>>::empty());
        assert(s.take(0) =~= Seq::<Piece<DialogueModel>>::empty());
        assert(ssa_dialogues(s.take(0)).zip_with(e.take(0)).map_values(
            |p: (DialogueModel, SubtitleEntry)| dialogue_updated(p.0, p.1),
        ) =~= Seq::<DialogueModel>::empty());
    } else {
        lemma_updated_prefix(s, e, i - 1);
        lemma_dialogues_prefix(s, i);
        lemma_dialogues_prefix(u, i);
        let a = ssa_dialogues(s.take(i - 1));
        let b = e.take(dialogues_before(s, i - 1));
        if s[i - 1] is Other {
            let d = s[i - 1]->Other_0;
            let k = dialogues_before(s, i - 1);
            assert(e.take(k + 1) =~= b.push(e[k]));
            assert(a.push(d).zip_with(b.push(e[k])) =~= a.zip_with(b).push((d, e[k])));
            assert(a.push(d).zip_with(b.push(e[k])).map_values(
                |p: (DialogueModel, SubtitleEntry)| dialogue_updated(p.0, p.1),
            ) =~= a.zip_with(b).map_values(
                |p: (DialogueModel, SubtitleEntry)| dialogue_updated(p.0, p.1),
            ).push(dialogue_updated(d, e[k])));
        } else {
            assert(u.take(i).drop_last() =~= u.take(i - 1));
            assert(s.take(i).drop_last() =~= s.take(i - 1));
        }
    }
}

/// Writing entries into the file and reading them back gives their timespans, and their texts
/// wherever they carry one.
pub proof fn law_ssa_update_then_read(s: Seq<Piece<DialogueModel>>, e: Seq<SubtitleEntry>)
    requires
        ssa_dialogues(s).len() == e.len(),
    ensures
        ssa_entries(ssa_updated(s, e)).len() == e.len(),
        forall|k: int|
            0 <= k < e.len() ==> (#[trigger] ssa_entries(ssa_updated(s, e))[k]).0 == e[k].timespan,
        forall|k: int|
            0 <= k < e.len() ==> (e[k].text() matches Some(t) ==> #[trigger] ssa_entries(
                ssa_updated(s, e),
            )[k].1 == Some(t)),
        forall|k: int|
            0 <= k < e.len() && e[k].text() is None ==> #[trigger] ssa_entries(ssa_updated(s, e))[k].1
                == ssa_entries(s)[k].1,
{
    lemma_updated_prefix(s, e, s.len() as int);
    assert(ssa_updated(s, e).take(s.len() as int) =~= ssa_updated(s, e));
    assert(s.take(s.len() as int) =~= s);
    assert(e.take(e.len() as int) =~= e);
}

// ---------------------------------------------------------------------------------------------
// writing back what was read

#[verifier::rlimit(30)]
proof fn lemma_comma_fields(s: Seq<char>, p: int, n: nat)
    requires
        0 <= p <= s.len(),
        comma_fields(s, p, n) is Some,
    ensures
        comma_fields(s, p, n) matches Some((fields, t)) && fields.len() == n && p <= t <= s.len()
            && joined_fields(s, fields, 0, n as int) == s.subrange(p, t) && (forall|k: int|
            0 <= k < n ==> p <= (#[trigger] fields[k]).0 <= fields[k].1 < t),
    decreases n,
{
    if n > 0 {
        let q = find_char(s, p, s.len() as int, ',')->Some_0;
        lemma_find_char(s, p, s.len() as int, ',');
        lemma_comma_fields(s, q + 1, (n - 1) as nat);
        let (rest, t) = comma_fields(s, q + 1, (n - 1) as nat)->Some_0;
        let fields = seq![(p, q)] + rest;
        lemma_joined_shift(s, (p, q), rest, 0, (n - 1) as int);
        assert(joined_fields(s, fields, 0, n as int) == s.subrange(p, q) + seq![','] + joined_fields(
            s,
            fields,
            1,
            n as int,
        ));
        assert(s.subrange(p, t) =~= s.subrange(p, q) + seq![','] + s.subrange(q + 1, t));
        assert forall|k: int| 0 <= k < n implies p <= (#[trigger] fields[k]).0 <= fields[k].1 < t by {
            if k > 0 {
                assert(fields[k] == rest[k - 1]);
            }
        }
    } else {
        assert(s.subrange(p, p) =~= Seq::<char>::empty());
    }
}

proof fn lemma_joined_shift(
    line: Seq<char>,
    x: (int, int),
    rest: Seq<(int, int)>,
    from: int,
    to: int,
)
    requires
        0 <= from,
        to <= rest.len(),
    ensures
        joined_fields(line, seq![x] + rest, from + 1, to + 1) == joined_fields(line, rest, from, to),
    decreases to - from,
{
    if from < to {
        lemma_joined_shift(line, x, rest, from + 1, to);
        assert((seq![x] + rest)[from + 1] == rest[from]);
    }
}

proof fn lemma_joined_split(line: Seq<char>, fields: Seq<(int, int)>, i: int, k: int, j: int)
    requires
        i <= k <= j,
    ensures
        joined_fields(line, fields, i, j) == joined_fields(line, fields, i, k) + joined_fields(
            line,
            fields,
            k,
            j,
        ),
    decreases k - i,
{
    if i < k {
        lemma_joined_split(line, fields, i + 1, k, j);
        assert(joined_fields(line, fields, i, j) =~= joined_fields(line, fields, i, k)
            + joined_fields(line, fields, k, j));
    } else {
        assert(joined_fields(line, fields, i, j) =~= Seq::<char>::empty() + joined_fields(
            line,
            fields,
            k,
            j,
        ));
    }
}

proof fn lemma_field_trim(line: Seq<char>, b: (int, int))
    requires
        0 <= b.0 <= b.1 <= line.len(),
    ensures
        b.0 <= field_trim(line, b).0 <= field_trim(line, b).1 <= b.1,
{
    let f = line.subrange(b.0, b.1);
    lemma_lead_len(f.skip(0), |c: char| is_blank(c));
    let x = blanks_end(f, 0);
    lemma_trail_len(f.subrange(x, f.len() as int), |c: char| is_blank(c));
}


/// Whether the start and end field of a `Format:` layout are two different fields before the
/// text field.
pub open spec fn fields_valid(info: FieldsModel) -> bool {
    &&& 0 <= info.start < info.num - 1
    &&& 0 <= info.end < info.num - 1
    &&& info.start != info.end
}

proof fn lemma_field_positions(s: Seq<char>, names: Seq<(int, int)>, k: int, line_num: int)
    requires
        field_positions(s, names, k, line_num) is Ok,
    ensures
        field_positions(s, names, k, line_num) matches Ok((st, en, tx)) && (st matches Some(a) ==> 0
            <= a < k) && (en matches Some(b) ==> 0 <= b < k) && (tx matches Some(c) ==> 0 <= c < k)
            && (st is Some && en is Some ==> st->Some_0 != en->Some_0) && (st is Some && tx is Some
            ==> st->Some_0 != tx->Some_0) && (en is Some && tx is Some ==> en->Some_0
            != tx->Some_0),
    decreases k,
{
    if k > 0 {
        lemma_field_positions(s, names, k - 1, line_num);
    }
}

/// A layout that parses names the start and end in two different fields before the text.
pub proof fn lemma_fields_info(s: Seq<char>, line_num: int)
    requires
        fields_info_spec(s, line_num) is Ok,
    ensures
        fields_info_spec(s, line_num) matches Ok(info) && fields_valid(info),
{
    let names = comma_chunks(s, 7);
    lemma_field_positions(s, names, names.len() as int, line_num);
}

/// Whether the two times of a dialogue line are written the way the writer writes times.
pub open spec fn dialogue_canonical(line: Seq<char>, info: FieldsModel) -> bool {
    match ssa_dialogue_spec(line, info.num as nat) {
        None => true,
        Some((a, b, fields, t)) => {
            let start_first = info.start < info.end;
            let i1 = if start_first {
                info.start
            } else {
                info.end
            };
            let i2 = if start_first {
                info.end
            } else {
                info.start
            };
            let (s1, e1) = field_trim(line, fields[i1]);
            let (s2, e2) = field_trim(line, fields[i2]);
            &&& ssa_timepoint_spec(line.subrange(s1, e1)) matches Some(t1) ==> ssa_stamp(
                TimePoint::from_ms_spec(t1),
            ) == line.subrange(s1, e1)
            &&& ssa_timepoint_spec(line.subrange(s2, e2)) matches Some(t2) ==> ssa_stamp(
                TimePoint::from_ms_spec(t2),
            ) == line.subrange(s2, e2)
        },
    }
}

#[verifier::rlimit(30)]
proof fn lemma_joined_around(
    line: Seq<char>,
    fields: Seq<(int, int)>,
    m: int,
    i1: int,
    i2: int,
    s1: int,
    e1: int,
    s2: int,
    e2: int,
)
    requires
        0 <= i1 < i2 < m,
        0 <= fields[i1].0,
        0 <= fields[i2].0,
        fields[i1].0 <= s1 <= e1 <= fields[i1].1 <= line.len(),
        fields[i2].0 <= s2 <= e2 <= fields[i2].1 <= line.len(),
    ensures
        joined_fields(line, fields, 0, m) == joined_fields(line, fields, 0, i1) + line.subrange(
            fields[i1].0,
            s1,
        ) + line.subrange(s1, e1) + (line.subrange(e1, fields[i1].1) + seq![','] + joined_fields(
            line,
            fields,
            i1 + 1,
            i2,
        ) + line.subrange(fields[i2].0, s2)) + line.subrange(s2, e2) + (line.subrange(
            e2,
            fields[i2].1,
        ) + seq![','] + joined_fields(line, fields, i2 + 1, m)),
{
    let f1 = fields[i1];
    let f2 = fields[i2];
    lemma_joined_split(line, fields, 0, i1, m);
    lemma_joined_split(line, fields, i1 + 1, i2, m);
    assert(line.subrange(f1.0, f1.1) =~= line.subrange(f1.0, s1) + line.subrange(s1, e1)
        + line.subrange(e1, f1.1));
    assert(line.subrange(f2.0, f2.1) =~= line.subrange(f2.0, s2) + line.subrange(s2, e2)
        + line.subrange(e2, f2.1));
    assert(joined_fields(line, fields, 0, m) =~= joined_fields(line, fields, 0, i1) + line.subrange(
        f1.0,
        s1,
    ) + line.subrange(s1, e1) + (line.subrange(e1, f1.1) + seq![','] + joined_fields(
        line,
        fields,
        i1 + 1,
        i2,
    ) + line.subrange(f2.0, s2)) + line.subrange(s2, e2) + (line.subrange(e2, f2.1) + seq![',']
        + joined_fields(line, fields, i2 + 1, m)));
}

/// The first and the second time field of a layout.
pub open spec fn time_fields(info: FieldsModel) -> (int, int) {
    if info.start < info.end {
        (info.start, info.end)
    } else {
        (info.end, info.start)
    }
}

#[verifier::rlimit(30)]
proof fn lemma_dialogue_shape(line: Seq<char>, info: FieldsModel)
    requires
        fields_valid(info),
        ssa_dialogue_spec(line, info.num as nat) is Some,
    ensures
        ssa_dialogue_spec(line, info.num as nat) matches Some((a, b, fields, t)) && {
            let m = info.num - 1;
            let c = blanks_end(line, b);
            let (i1, i2) = time_fields(info);
            &&& 0 <= a && b == a + 9 && b <= c <= t <= line.len()
            &&& line.subrange(a, b) == dialogue_keyword()
            &&& fields.len() == m
            &&& 0 <= i1 < i2 < m
            &&& joined_fields(line, fields, 0, m) == line.subrange(c, t)
            &&& 0 <= fields[i1].0 <= field_trim(line, fields[i1]).0 <= field_trim(line, fields[i1]).1
                <= fields[i1].1 <= line.len()
            &&& 0 <= fields[i2].0 <= field_trim(line, fields[i2]).0 <= field_trim(line, fields[i2]).1
                <= fields[i2].1 <= line.len()
        },
{
    let (a, b, fields, t) = ssa_dialogue_spec(line, info.num as nat)->Some_0;
    let m = (info.num - 1) as nat;
    lemma_lead_len(line.skip(0), |c: char| is_blank(c));
    assert(line.skip(0) =~= line);
    let c = blanks_end(line, b);
    lemma_lead_len(line.skip(b), |ch: char| is_blank(ch));
    lemma_comma_fields(line, c, m);
    let (i1, i2) = time_fields(info);
    lemma_field_trim(line, fields[i1]);
    lemma_field_trim(line, fields[i2]);
}

#[verifier::rlimit(40)]
proof fn lemma_dialogue_line(line: Seq<char>, n: int, info: FieldsModel)
    requires
        fields_valid(info),
        dialogue_spec(line, n, info) is Ok,
        dialogue_canonical(line, info),
    ensures
        dialogue_spec(line, n, info) matches Ok((pre, d)) && pre + dialogue_text(d) == line,
{
    let (pre, d) = dialogue_spec(line, n, info)->Ok_0;
    let (a, b, fields, t) = ssa_dialogue_spec(line, info.num as nat)->Some_0;
    lemma_dialogue_shape(line, info);
    let m = info.num - 1;
    let c = blanks_end(line, b);
    let (i1, i2) = time_fields(info);
    let (s1, e1) = field_trim(line, fields[i1]);
    let (s2, e2) = field_trim(line, fields[i2]);
    lemma_joined_around(line, fields, m, i1, i2, s1, e1, s2, e2);
    let x0 = line.take(a) + dialogue_keyword() + line.subrange(b, c);
    let j0 = joined_fields(line, fields, 0, i1);
    let jall = joined_fields(line, fields, 0, m);
    assert(pre == x0 + j0 + line.subrange(fields[i1].0, s1));
    assert(ssa_stamp(d.first) == line.subrange(s1, e1));
    assert(ssa_stamp(d.second) == line.subrange(s2, e2));
    assert(d.text == line.skip(t));
    assert(jall == j0 + line.subrange(fields[i1].0, s1) + line.subrange(s1, e1) + d.mid
        + line.subrange(s2, e2) + d.tail);
    assert(pre + dialogue_text(d) =~= x0 + jall + d.text);
    assert(line =~= line.take(a) + line.subrange(a, b) + line.subrange(b, c) + line.subrange(c, t)
        + line.skip(t));
}

/// Whether line `line`, read while the section `section` is open, is a dialogue line whose
/// times are written the way the writer writes times, or no dialogue line at all.
pub open spec fn ssa_line_canonical(line: Seq<char>, section: Option<Seq<char>>, info: FieldsModel) -> bool {
    let t = trimmed(line);
    (section_name(t) is None && section == Some(events_name()) && has_at(t, 0, dialogue_keyword()))
        ==> dialogue_canonical(line, info)
}

/// Whether line `k` of the file, read after the lines before it, is no dialogue line or one whose
/// times are written the way the writer writes times.
pub open spec fn line_canonical_at(lines: Seq<(Seq<char>, Seq<char>)>, k: int, info: FieldsModel) -> bool {
    ssa_fold(lines, k, info) matches Ok((sec, _)) ==> ssa_line_canonical(lines[k].0, sec, info)
}

/// Whether every time of every dialogue line of the file is written the way the writer writes
/// times.
pub open spec fn ssa_canonical(s: Seq<char>) -> bool {
    let body = without_bom(s);
    match find_format(std_lines(body, 0), 0, None) {
        None => true,
        Some((ln, fl)) => match fields_info_spec(fl, ln) {
            Err(_) => true,
            Ok(info) => {
                let lines = nd_lines(body, 0);
                forall|k: int| 0 <= k < lines.len() ==> #[trigger] line_canonical_at(lines, k, info)
            },
        },
    }
}

proof fn lemma_step_render(
    line: Seq<char>,
    newl: Seq<char>,
    n: int,
    section: Option<Seq<char>>,
    info: FieldsModel,
)
    requires
        fields_valid(info),
        ssa_line_step(line, newl, n, section, info) is Ok,
        ssa_line_canonical(line, section, info),
    ensures
        ssa_line_step(line, newl, n, section, info) matches Ok((_, q)) && render(
            q,
            |d: DialogueModel| dialogue_text(d),
        ) == line + newl,
{
    let f = |d: DialogueModel| dialogue_text(d);
    let q = ssa_line_step(line, newl, n, section, info)->Ok_0.1;
    reveal_with_fuel(render, 4);
    let t = trimmed(line);
    if section_name(t) is None && section == Some(events_name()) && has_at(t, 0, dialogue_keyword()) {
        lemma_dialogue_line(line, n, info);
        let (pre, d) = dialogue_spec(line, n, info)->Ok_0;
        assert(q == seq![Piece::Filler(pre), Piece::Other(d), Piece::Filler(newl)]);
        assert(q.drop_last().drop_last().drop_last() =~= Seq::<Piece<DialogueModel>>::empty());
        assert(render(q, f) =~= pre + dialogue_text(d) + newl);
    } else {
        assert(q == seq![Piece::<DialogueModel>::Filler(line), Piece::Filler(newl)]);
        assert(q.drop_last().drop_last() =~= Seq::<Piece<DialogueModel>>::empty());
        assert(render(q, f) =~= line + newl);
    }
}

#[verifier::rlimit(30)]
proof fn lemma_fold_render(lines: Seq<(Seq<char>, Seq<char>)>, k: int, info: FieldsModel)
    requires
        fields_valid(info),
        0 <= k <= lines.len(),
        ssa_fold(lines, k, info) is Ok,
        forall|j: int| 0 <= j < lines.len() ==> #[trigger] line_canonical_at(lines, j, info),
    ensures
        ssa_fold(lines, k, info) matches Ok((_, p)) && render(p, |d: DialogueModel| dialogue_text(d))
            == join_pairs(lines.take(k)),
    decreases k,
{
    let f = |d: DialogueModel| dialogue_text(d);
    if k == 0 {
        assert(lines.take(0) =~= Seq::<(Seq<char>, Seq<char>)>::empty());
    } else {
        lemma_fold_render(lines, k - 1, info);
        let (sec, p) = ssa_fold(lines, k - 1, info)->Ok_0;
        let (line, newl) = lines[k - 1];
        let q = ssa_line_step(line, newl, k - 1, sec, info)->Ok_0.1;
        lemma_render_concat(p, q, f);
        lemma_join_pairs_take(lines, k - 1);
        assert(line_canonical_at(lines, k - 1, info));
        lemma_step_render(line, newl, k - 1, sec, info);
        assert(join_pairs(lines.take(k)) =~= join_pairs(lines.take(k - 1)) + (line + newl));
    }
}

/// Writing a parsed file gives back the text it was read from, byte order mark, line endings,
/// field whitespace and all, when every time of its dialogue lines is written the way the
/// writer writes times.
#[verifier::rlimit(30)]
pub proof fn law_ssa_parse_then_write(s: Seq<char>)
    requires
        ssa_parse_spec(s) is Ok,
        ssa_canonical(s),
    ensures
        ssa_parse_spec(s) matches Ok(p) && render(p, |d: DialogueModel| dialogue_text(d)) == s,
{
    let f = |d: DialogueModel| dialogue_text(d);
    let body = without_bom(s);
    let bom = s.take(s.len() - body.len());
    let (ln, fl) = find_format(std_lines(body, 0), 0, None)->Some_0;
    lemma_fields_info(fl, ln);
    let info = fields_info_spec(fl, ln)->Ok_0;
    let lines = nd_lines(body, 0);
    lemma_fold_render(lines, lines.len() as int, info);
    let raw = ssa_fold(lines, lines.len() as int, info)->Ok_0.1;
    assert(lines.take(lines.len() as int) =~= lines);
    law_lines_join_back(body, 0);
    assert(body.skip(0) =~= body);
    let head = seq![Piece::<DialogueModel>::Filler(bom)];
    lemma_render_concat(head, raw, f);
    assert(head.drop_last() =~= Seq::<Piece<DialogueModel>>::empty());
    reveal_with_fuel(render, 2);
    assert(render(head, f) =~= bom);
    law_dedup_keeps_text(head + raw, f);
    assert(bom + body =~= s);
}

/// Every time that is not negative reads back from the way the writer writes it, cut to
/// hundredths of a second.
pub proof fn law_ssa_stamp_round_trip(t: TimePoint)
    requires
        0 <= t@,
    ensures
        crate::formats::common::ssa_timepoint_spec(ssa_stamp(t)) == Some(t@ - t@ % 10),
{
    let a = t@;
    crate::formats::common::lemma_clock_parts(a);
    let h = (a / 3600000) as nat;
    let m = ((a / 60000) % 60) as nat;
    let sec = ((a / 1000) % 60) as nat;
    let cs = ((a / 10) % 100) as nat;
    let p1 = padded(h, 0);
    let p2 = padded(m, 2);
    let p3 = padded(sec, 2);
    let p4 = padded(cs, 2);
    assert(p1 == crate::text::decimal(h));
    crate::formats::common::lemma_padded_value(h, 0);
    crate::formats::common::lemma_padded_value(m, 2);
    crate::formats::common::lemma_padded_value(sec, 2);
    crate::formats::common::lemma_padded_value(cs, 2);
    let s = ssa_stamp(t);
    assert(s =~= p1 + seq![':'] + p2 + seq![':'] + p3 + seq!['.'] + p4);
    let i1 = p1.len() as int;
    let i2 = i1 + 1 + p2.len();
    let i3 = i2 + 1 + p3.len();
    assert(s.subrange(0, i1) =~= p1);
    assert(s.subrange(i1 + 1, i2) =~= p2);
    assert(s.subrange(i2 + 1, i3) =~= p3);
    assert(s.subrange(i3 + 1, s.len() as int) =~= p4);
    assert(s[i1] == ':' && s[i2] == ':' && s[i3] == '.');
    crate::formats::common::lemma_number_at_padded(s, 0, h, 0);
    crate::formats::common::lemma_number_at_padded(s, i1 + 1, m, 2);
    crate::formats::common::lemma_number_at_padded(s, i2 + 1, sec, 2);
    crate::formats::common::lemma_number_at_padded(s, i3 + 1, cs, 2);
    reveal(crate::formats::common::hms_at);
    reveal(crate::formats::common::ssa_timepoint_spec);
}

} // verus!
