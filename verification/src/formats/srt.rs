//! `SubRip` (`.srt`) files.

use crate::errors::{Error, IntErrorKind, ParseError, SubRipError, SubRipErrorKind};
use crate::formats::common::{
    blank_line, find_char, is_blank_line, is_digit, lemma_digits_value_eq,
    lemma_padded_value, lemma_parse_digits, lemma_std_lines_terminated, lemma_terminated_add,
    blanks_end, lemma_find_char, lemma_number_at_padded, lines_of, parse_i64,
    parse_i64_spec, plain_line, sep_number_at, hms_at, checked_clock, srt_timestamp_at, terminated,
    split_bom, srt_timespan, srt_timespan_spec, std_lines, trim_chars, trimmed,
};
use crate::formats::{SubtitleEntry};
use crate::text::{
    chars_of, chars_view, has_at, is_blank, is_unicode_ws, join_lines, lemma_lead_len_exact,
    lemma_trail_len_exact, padded, push_joined, push_signed, signed_padded, string_of, utf8_of,
};
use crate::timetypes::{TimePoint, TimeSpan, fits_i64, law_components_round_trip, tdiv, trem};
use vstd::prelude::*;

verus! {

broadcast use crate::timetypes::group_time_lemmas;

/// One subtitle of a `.srt` file, in specifications.
pub struct SrtLineModel {
    pub timespan: TimeSpan,
    pub index: int,
    pub texts: Seq<Seq<char>>,
}

/// Why a `.srt` file does not parse, in specifications.
pub enum SrtFailure {
    Index { line_num: int, line: Seq<char>, cause: IntErrorKind },
    Timestamp { line_num: int, line: Seq<char> },
}

pub open spec fn srt_failure(e: SubRipError) -> SrtFailure {
    match e.kind {
        SubRipErrorKind::ExpectedIndexLine { line, cause } => SrtFailure::Index {
            line_num: e.line_num as int,
            line: line@,
            cause,
        },
        SubRipErrorKind::ExpectedTimestampLine { line } => SrtFailure::Timestamp {
            line_num: e.line_num as int,
            line: line@,
        },
    }
}

/// What the parser expects next.
pub enum SrtState {
    /// An empty line or an index.
    Empty,
    /// The timespan line of the entry with this index.
    Index(int),
    /// The first text line.
    Timing(int, TimeSpan),
    /// A further text line or the empty line that ends the entry.
    Dialog(int, TimeSpan, Seq<Seq<char>>),
}

pub open spec fn span_of(a: int, b: int) -> TimeSpan {
    TimeSpan { start: TimePoint::from_ms_spec(a), end: TimePoint::from_ms_spec(b) }
}

/// A text line, or the empty line that completes the entry.
pub open spec fn expect_dialog(
    line: Seq<char>,
    res: Seq<SrtLineModel>,
    index: int,
    ts: TimeSpan,
    texts: Seq<Seq<char>>,
) -> (SrtState, Seq<SrtLineModel>) {
    if is_blank_line(line) {
        (SrtState::Empty, res.push(SrtLineModel { timespan: ts, index, texts }))
    } else {
        (SrtState::Dialog(index, ts, texts.push(trimmed(line))), res)
    }
}

/// One line of the parse.
pub open spec fn srt_step(st: SrtState, res: Seq<SrtLineModel>, line: Seq<char>, n: int) -> Result<
    (SrtState, Seq<SrtLineModel>),
    SrtFailure,
> {
    match st {
        SrtState::Empty => if is_blank_line(line) {
            Ok((SrtState::Empty, res))
        } else {
            match parse_i64_spec(trimmed(line)) {
                Ok(i) => Ok((SrtState::Index(i), res)),
                Err(cause) => Err(SrtFailure::Index { line_num: n, line, cause }),
            }
        },
        SrtState::Index(i) => match srt_timespan_spec(line) {
            Some((a, b)) => Ok((SrtState::Timing(i, span_of(a, b)), res)),
            None => Err(SrtFailure::Timestamp { line_num: n, line }),
        },
        SrtState::Timing(i, ts) => Ok(expect_dialog(line, res, i, ts, Seq::empty())),
        SrtState::Dialog(i, ts, texts) => Ok(expect_dialog(line, res, i, ts, texts)),
    }
}

/// The first `k` lines, parsed.
pub open spec fn srt_run(lines: Seq<Seq<char>>, k: int) -> Result<
    (SrtState, Seq<SrtLineModel>),
    SrtFailure,
>
    decreases k,
{
    if k <= 0 {
        Ok((SrtState::Empty, Seq::empty()))
    } else {
        match srt_run(lines, k - 1) {
            Err(e) => Err(e),
            Ok((st, res)) => srt_step(st, res, lines[k - 1], k - 1),
        }
    }
}

/// A failure stays a failure, however many lines follow.
pub proof fn lemma_srt_run_err(lines: Seq<Seq<char>>, k: int, m: int)
    requires
        0 <= k <= m,
        srt_run(lines, k) is Err,
    ensures
        srt_run(lines, m) == srt_run(lines, k),
    decreases m - k,
{
    if m > k {
        lemma_srt_run_err(lines, k, m - 1);
    }
}

/// The text without a leading byte order mark.
pub open spec fn without_bom(s: Seq<char>) -> Seq<char> {
    if s.len() > 0 && s[0] == '\u{feff}' {
        s.skip(1)
    } else {
        s
    }
}

/// The entries of a `.srt` file: its lines, and one empty line after them.
pub open spec fn srt_parse_spec(s: Seq<char>) -> Result<Seq<SrtLineModel>, SrtFailure> {
    let lines = std_lines(without_bom(s), 0).push(Seq::empty());
    match srt_run(lines, lines.len() as int) {
        Err(e) => Err(e),
        Ok((_, res)) => Ok(res),
    }
}

/// `h:mm:ss,mmm` as the writer renders a time point.
pub open spec fn srt_stamp(t: TimePoint) -> Seq<char> {
    signed_padded(tdiv(t@, 3600000), 2) + seq![':'] + signed_padded(trem(tdiv(t@, 60000), 60), 2)
        + seq![':'] + signed_padded(trem(tdiv(t@, 1000), 60), 2) + seq![','] + signed_padded(
        trem(t@, 1000),
        3,
    )
}

/// One entry as the writer renders it.
pub open spec fn srt_entry_text(l: SrtLineModel) -> Seq<char> {
    signed_padded(l.index, 0) + seq!['\n'] + srt_stamp(l.timespan.start) + seq![
        ' ',
        '-',
        '-',
        '>',
        ' ',
    ] + srt_stamp(l.timespan.end) + seq!['\n'] + join_lines(l.texts) + seq!['\n', '\n']
}

/// The whole file as the writer renders it.
pub open spec fn srt_text(v: Seq<SrtLineModel>) -> Seq<char>
    decreases v.len(),
{
    if v.len() == 0 {
        Seq::empty()
    } else {
        srt_text(v.drop_last()) + srt_entry_text(v.last())
    }
}

/// The entries that a file hands out.
pub open spec fn srt_entries(v: Seq<SrtLineModel>) -> Seq<(TimeSpan, Option<Seq<char>>)> {
    v.map_values(|l: SrtLineModel| (l.timespan, Some(join_lines(l.texts))))
}

pub open spec fn entry_models(v: Seq<SubtitleEntry>) -> Seq<(TimeSpan, Option<Seq<char>>)> {
    v.map_values(|e: SubtitleEntry| (e.timespan, e.text()))
}

/// The file after new entries were written into it: every timespan is replaced, and every text
/// that the entry carries replaces the old lines.
pub open spec fn srt_updated(v: Seq<SrtLineModel>, e: Seq<SubtitleEntry>) -> Seq<SrtLineModel> {
    Seq::new(
        v.len(),
        |k: int|
            SrtLineModel {
                timespan: e[k].timespan,
                index: v[k].index,
                texts: match e[k].text() {
                    Some(t) => std_lines(t, 0),
                    None => v[k].texts,
                },
            },
    )
}

/// One subtitle of a `.srt` file.
#[derive(Debug, Clone)]
struct SrtLine {
    timespan: TimeSpan,
    index: i64,
    texts: Vec<Vec<char>>,
}

impl SrtLine {
    spec fn model(self) -> SrtLineModel {
        SrtLineModel {
            timespan: self.timespan,
            index: self.index as int,
            texts: chars_view(self.texts@),
        }
    }
}

/// A `.srt` file.
#[derive(Debug, Clone)]
pub struct SrtFile {
    v: Vec<SrtLine>,
}

impl View for SrtFile {
    type V = Seq<SrtLineModel>;

    closed spec fn view(&self) -> Seq<SrtLineModel> {
        self.v@.map_values(|l: SrtLine| l.model())
    }
}

enum SrtParserState {
    Emptyline,
    Index(i64),
    Timing(i64, TimeSpan),
    Dialog(i64, TimeSpan, Vec<Vec<char>>),
}

impl SrtParserState {
    spec fn model(self) -> SrtState {
        match self {
            SrtParserState::Emptyline => SrtState::Empty,
            SrtParserState::Index(i) => SrtState::Index(i as int),
            SrtParserState::Timing(i, ts) => SrtState::Timing(i as int, ts),
            SrtParserState::Dialog(i, ts, texts) => SrtState::Dialog(i as int, ts, chars_view(texts@)),
        }
    }
}

impl SrtFile {
    /// Parses the text of a `.srt` file.
    pub fn parse(s: &str) -> (r: Result<SrtFile, Error>)
        ensures
            match r {
                Ok(f) => srt_parse_spec(s@) == Ok::<Seq<SrtLineModel>, SrtFailure>(f@),
                Err(e) => e matches Error::ParsingError(ParseError::SubRip(se))
                    && srt_parse_spec(s@) == Err::<Seq<SrtLineModel>, SrtFailure>(srt_failure(se)),
            },
    {
        match Self::parse_file(s) {
            Ok(f) => Ok(f),
            Err(e) => Err(Error::ParsingError(ParseError::SubRip(e))),
        }
    }

    fn parse_file(i: &str) -> (r: Result<SrtFile, SubRipError>)
        ensures
            match r {
                Ok(f) => srt_parse_spec(i@) == Ok::<Seq<SrtLineModel>, SrtFailure>(f@),
                Err(e) => srt_parse_spec(i@) == Err::<Seq<SrtLineModel>, SrtFailure>(
                    srt_failure(e),
                ),
            },
    {
        let (_, s) = split_bom(i);
        let cs = chars_of(s);
        let lines = lines_of(cs.as_slice());
        let ghost all = std_lines(without_bom(i@), 0).push(Seq::empty());
        proof {
            if i@.len() > 0 && i@[0] == '\u{feff}' {
                assert(s@ =~= i@.skip(1));
            } else {
                assert(s@ =~= i@);
            }
            assert(all =~= chars_view(lines@).push(Seq::empty()));
        }
        let mut result: Vec<SrtLine> = Vec::new();
        let mut state = SrtParserState::Emptyline;
        let n = lines.len();
        let mut line_num: usize = 0;
        assert(result@.map_values(|l: SrtLine| l.model()) =~= Seq::<SrtLineModel>::empty());
        while line_num < n
            invariant
                line_num <= n,
                n == lines@.len(),
                all == chars_view(lines@).push(Seq::empty()),
                all == std_lines(without_bom(i@), 0).push(Seq::empty()),
                srt_run(all, line_num as int) == Ok::<(SrtState, Seq<SrtLineModel>), SrtFailure>(
                    (state.model(), result@.map_values(|l: SrtLine| l.model())),
                ),
            decreases n - line_num,
        {
            assert(lines@[line_num as int]@ == all[line_num as int]);
            state = match Self::step(state, &mut result, &lines[line_num], line_num) {
                Ok(st) => st,
                Err(e) => {
                    proof {
                        lemma_srt_run_err(all, line_num + 1, all.len() as int);
                    }
                    return Err(e);
                },
            };
            line_num = line_num + 1;
        }
        let empty: Vec<char> = Vec::new();
        assert(empty@ =~= all[n as int]);
        match Self::step(state, &mut result, &empty, n) {
            Ok(_) => Ok(SrtFile { v: result }),
            Err(e) => Err(e),
        }
    }

    /// One line of the parse.
    fn step(state: SrtParserState, result: &mut Vec<SrtLine>, line: &Vec<char>, line_num: usize) -> (r:
        Result<SrtParserState, SubRipError>)
        ensures
            match r {
                Ok(st) => srt_step(
                    state.model(),
                    old(result)@.map_values(|l: SrtLine| l.model()),
                    line@,
                    line_num as int,
                ) == Ok::<(SrtState, Seq<SrtLineModel>), SrtFailure>(
                    (st.model(), final(result)@.map_values(|l: SrtLine| l.model())),
                ),
                Err(e) => srt_step(
                    state.model(),
                    old(result)@.map_values(|l: SrtLine| l.model()),
                    line@,
                    line_num as int,
                ) == Err::<(SrtState, Seq<SrtLineModel>), SrtFailure>(srt_failure(e)),
            },
    {
        match state {
            SrtParserState::Emptyline => {
                if blank_line(line.as_slice()) {
                    Ok(SrtParserState::Emptyline)
                } else {
                    match Self::parse_index_line(line_num, line) {
                        Ok(index) => Ok(SrtParserState::Index(index)),
                        Err(e) => Err(e),
                    }
                }
            },
            SrtParserState::Index(index) => match Self::parse_timespan_line(line_num, line) {
                Ok(ts) => Ok(SrtParserState::Timing(index, ts)),
                Err(e) => Err(e),
            },
            SrtParserState::Timing(index, timespan) => {
                let ghost e: Seq<Seq<char>> = Seq::empty();
                let texts: Vec<Vec<char>> = Vec::new();
                assert(chars_view(texts@) =~= e);
                Ok(Self::state_expect_dialog(line, result, index, timespan, texts))
            },
            SrtParserState::Dialog(index, timespan, texts) => {
                Ok(Self::state_expect_dialog(line, result, index, timespan, texts))
            },
        }
    }

    fn state_expect_dialog(
        line: &Vec<char>,
        result: &mut Vec<SrtLine>,
        index: i64,
        timespan: TimeSpan,
        texts: Vec<Vec<char>>,
    ) -> (r: SrtParserState)
        ensures
            (r.model(), final(result)@.map_values(|l: SrtLine| l.model())) == expect_dialog(
                line@,
                old(result)@.map_values(|l: SrtLine| l.model()),
                index as int,
                timespan,
                chars_view(texts@),
            ),
    {
        let ghost before = result@.map_values(|l: SrtLine| l.model());
        if blank_line(line.as_slice()) {
            result.push(SrtLine { index, timespan, texts });
            assert(result@.map_values(|l: SrtLine| l.model()) =~= before.push(
                SrtLineModel { timespan, index: index as int, texts: chars_view(texts@) },
            ));
            SrtParserState::Emptyline
        } else {
            let mut texts = texts;
            let ghost tv = chars_view(texts@);
            texts.push(trim_chars(line.as_slice()));
            assert(chars_view(texts@) =~= tv.push(trimmed(line@)));
            SrtParserState::Dialog(index, timespan, texts)
        }
    }

    fn parse_index_line(line_num: usize, s: &Vec<char>) -> (r: Result<i64, SubRipError>)
        ensures
            match r {
                Ok(i) => parse_i64_spec(trimmed(s@)) == Ok::<int, IntErrorKind>(i as int),
                Err(e) => parse_i64_spec(trimmed(s@)) matches Err(cause) && srt_failure(e)
                    == (SrtFailure::Index { line_num: line_num as int, line: s@, cause }),
            },
    {
        let t = trim_chars(s.as_slice());
        match parse_i64(t.as_slice()) {
            Ok(i) => Ok(i),
            Err(cause) => Err(
                SubRipError {
                    line_num,
                    kind: SubRipErrorKind::ExpectedIndexLine { line: string_of(s.as_slice()), cause },
                },
            ),
        }
    }

    fn parse_timespan_line(line_num: usize, line: &Vec<char>) -> (r: Result<TimeSpan, SubRipError>)
        ensures
            match r {
                Ok(ts) => srt_timespan_spec(line@) matches Some((a, b)) && ts == span_of(a, b),
                Err(e) => srt_timespan_spec(line@) is None && srt_failure(e) == (SrtFailure::Timestamp {
                    line_num: line_num as int,
                    line: line@,
                }),
            },
    {
        let text = string_of(line.as_slice());
        match srt_timespan(text.as_str()) {
            None => Err(
                SubRipError {
                    line_num,
                    kind: SubRipErrorKind::ExpectedTimestampLine { line: text },
                },
            ),
            Some((start, end)) => Ok(
                TimeSpan::new(TimePoint::from_msecs(start), TimePoint::from_msecs(end)),
            ),
        }
    }

    /// The entries of the file, with their lines joined by `\n`.
    pub fn get_subtitle_entries(&self) -> (r: Result<Vec<SubtitleEntry>, Error>)
        ensures
            r matches Ok(v) && entry_models(v@) == srt_entries(self@),
    {
        let mut out: Vec<SubtitleEntry> = Vec::new();
        let mut k: usize = 0;
        while k < self.v.len()
            invariant
                k <= self.v@.len(),
                entry_models(out@) == srt_entries(self@).take(k as int),
            decreases self.v@.len() - k,
        {
            let mut text: Vec<char> = Vec::new();
            push_joined(&mut text, &self.v[k].texts);
            let ghost before = entry_models(out@);
            out.push(SubtitleEntry::new(self.v[k].timespan, string_of(text.as_slice())));
            assert(self@[k as int] == self.v@[k as int].model());
            assert(entry_models(out@) =~= before.push(
                (self.v@[k as int].timespan, Some(join_lines(chars_view(self.v@[k as int].texts@)))),
            ));
            assert(srt_entries(self@).take(k + 1) =~= srt_entries(self@).take(k as int).push(
                srt_entries(self@)[k as int],
            ));
            assert(entry_models(out@) =~= srt_entries(self@).take(k + 1));
            k = k + 1;
        }
        assert(srt_entries(self@).take(self.v@.len() as int) =~= srt_entries(self@));
        Ok(out)
    }

    /// Replaces the timespans (and, where the entries carry one, the texts) of the file.
    pub fn update_subtitle_entries(&mut self, new_subtitle_entries: &[SubtitleEntry]) -> (r: Result<
        (),
        Error,
    >)
        ensures
            match r {
                Ok(()) => old(self)@.len() == new_subtitle_entries@.len() && final(self)@ == srt_updated(
                    old(self)@,
                    new_subtitle_entries@,
                ),
                Err(e) => old(self)@.len() != new_subtitle_entries@.len() && final(self)@ == old(self)@
                    && e == (Error::EntryCountMismatch {
                    expected: old(self)@.len() as usize,
                    provided: new_subtitle_entries@.len() as usize,
                }),
            },
    {
        if self.v.len() != new_subtitle_entries.len() {
            return Err(
                Error::EntryCountMismatch {
                    expected: self.v.len(),
                    provided: new_subtitle_entries.len(),
                },
            );
        }
        let ghost old_v = self@;
        let mut taken: Vec<SrtLine> = Vec::new();
        std::mem::swap(&mut taken, &mut self.v);
        let ghost orig = taken@;
        let mut rev = crate::text::reversed(taken);
        let n = rev.len();
        let mut k: usize = 0;
        while k < n
            invariant
                k <= n,
                n == orig.len(),
                n == new_subtitle_entries@.len(),
                old_v == orig.map_values(|l: SrtLine| l.model()),
                rev@.len() == n - k,
                forall|j: int| 0 <= j < rev@.len() ==> #[trigger] rev@[j] == orig[n - 1 - j],
                self.v@.len() == k,
                forall|j: int|
                    0 <= j < k ==> (#[trigger] self.v@[j]).model() == srt_updated(
                        old_v,
                        new_subtitle_entries@,
                    )[j],
            decreases n - k,
        {
            let mut line = rev.pop().unwrap();
            assert(line == orig[k as int]);
            let entry = &new_subtitle_entries[k];
            line.timespan = entry.timespan;
            match &entry.line {
                Some(text) => {
                    let cs = chars_of(text.as_str());
                    line.texts = lines_of(cs.as_slice());
                },
                None => {},
            }
            self.v.push(line);
            k = k + 1;
        }
        assert(self@ =~= srt_updated(old_v, new_subtitle_entries@));
        Ok(())
    }

    fn push_stamp(out: &mut Vec<char>, t: TimePoint)
        ensures
            final(out)@ == old(out)@ + srt_stamp(t),
    {
        let ms: i64 = t.msecs();
        push_signed(out, t.hours(), 2);
        out.push(':');
        push_signed(out, (ms / 60000) % 60, 2);
        out.push(':');
        push_signed(out, (ms / 1000) % 60, 2);
        out.push(',');
        push_signed(out, ms % 1000, 3);
        assert(out@ =~= old(out)@ + srt_stamp(t));
    }

    #[verifier::spinoff_prover]
    #[verifier::rlimit(40)]
    fn push_entry(out: &mut Vec<char>, line: &SrtLine)
        ensures
            final(out)@ == old(out)@ + srt_entry_text(line.model()),
    {
        let ghost p0 = out@;
        push_signed(out, line.index, 0);
        out.push('\n');
        let ghost a = signed_padded(line.index as int, 0) + seq!['\n'];
        assert(out@ =~= p0 + a);
        let ghost p1 = out@;
        Self::push_stamp(out, line.timespan.start);
        out.push(' ');
        out.push('-');
        out.push('-');
        out.push('>');
        out.push(' ');
        let ghost b = srt_stamp(line.timespan.start) + seq![' ', '-', '-', '>', ' '];
        assert(out@ =~= p1 + b);
        let ghost p2 = out@;
        Self::push_stamp(out, line.timespan.end);
        out.push('\n');
        let ghost c = srt_stamp(line.timespan.end) + seq!['\n'];
        assert(out@ =~= p2 + c);
        let ghost p3 = out@;
        push_joined(out, &line.texts);
        out.push('\n');
        out.push('\n');
        let ghost d = join_lines(chars_view(line.texts@)) + seq!['\n', '\n'];
        assert(out@ =~= p3 + d);
        assert(srt_entry_text(line.model()) =~= a + b + c + d);
        assert(out@ =~= p0 + (a + b + c + d));
    }

    /// The file as `.srt` text, in UTF-8.
    pub fn to_data(&self) -> (r: Result<Vec<u8>, Error>)
        ensures
            r matches Ok(b) && b@ == vstd::utf8::encode_utf8(srt_text(self@)),
    {
        let mut out: Vec<char> = Vec::new();
        let mut k: usize = 0;
        while k < self.v.len()
            invariant
                k <= self.v@.len(),
                out@ == srt_text(self@.take(k as int)),
            decreases self.v@.len() - k,
        {
            Self::push_entry(&mut out, &self.v[k]);
            assert(self@.take(k + 1).drop_last() =~= self@.take(k as int));
            k = k + 1;
        }
        assert(self@.take(self.v@.len() as int) =~= self@);
        let text = string_of(out.as_slice());
        Ok(utf8_of(&text))
    }

    /// Builds a file from timespans and texts; the entries are numbered from one.
    pub fn create(v: Vec<(TimeSpan, String)>) -> (r: Result<SrtFile, Error>)
        requires
            v@.len() < i64::MAX,
        ensures
            r matches Ok(f) && f@ == Seq::new(
                v@.len(),
                |k: int|
                    SrtLineModel {
                        timespan: v@[k].0,
                        index: k + 1,
                        texts: std_lines(v@[k].1@, 0),
                    },
            ),
    {
        let mut parts: Vec<SrtLine> = Vec::new();
        let mut k: usize = 0;
        while k < v.len()
            invariant
                k <= v@.len(),
                v@.len() < i64::MAX,
                parts@.len() == k,
                forall|j: int|
                    0 <= j < k ==> (#[trigger] parts@[j]).model() == (SrtLineModel {
                        timespan: v@[j].0,
                        index: j + 1,
                        texts: std_lines(v@[j].1@, 0),
                    }),
            decreases v@.len() - k,
        {
            let cs = chars_of(v[k].1.as_str());
            parts.push(
                SrtLine { index: (k as i64) + 1, timespan: v[k].0, texts: lines_of(cs.as_slice()) },
            );
            k = k + 1;
        }
        let f = SrtFile { v: parts };
        assert(f@ =~= Seq::new(
            v@.len(),
            |k: int|
                SrtLineModel { timespan: v@[k].0, index: k + 1, texts: std_lines(v@[k].1@, 0) },
        ));
        Ok(f)
    }
}

// ---------------------------------------------------------------------------------------------
// reading back what was written

/// Whether a text comes back unchanged when it is split into lines and joined again: it does
/// not end with a line feed and has no carriage return right before one.
pub open spec fn survives_lines(t: Seq<char>) -> bool {
    t.len() == 0 || (t.last() != '\n' && forall|j: int|
        0 < j < t.len() && #[trigger] t[j] == '\n' ==> t[j - 1] != '\r')
}

proof fn lemma_join_lines_front(x: Seq<char>, rest: Seq<Seq<char>>)
    requires
        rest.len() > 0,
    ensures
        join_lines(seq![x] + rest) == x + seq!['\n'] + join_lines(rest),
    decreases rest.len(),
{
    let v = seq![x] + rest;
    if rest.len() == 1 {
        assert(v.drop_last() =~= seq![x]);
        assert(join_lines(seq![x]) == x);
        assert(v.last() == rest[0]);
        assert(join_lines(rest) == rest[0]);
        assert(join_lines(v) =~= x + seq!['\n'] + join_lines(rest));
    } else {
        lemma_join_lines_front(x, rest.drop_last());
        assert(v.drop_last() =~= seq![x] + rest.drop_last());
        assert(join_lines(v) =~= x + seq!['\n'] + join_lines(rest));
    }
}

#[verifier::rlimit(30)]
proof fn lemma_std_lines_join(t: Seq<char>, i: int)
    requires
        0 <= i <= t.len(),
        survives_lines(t),
    ensures
        join_lines(std_lines(t, i)) == t.skip(i),
    decreases t.len() - i,
{
    if i == t.len() {
        assert(t.skip(i) =~= Seq::<char>::empty());
    } else {
        lemma_find_char(t, i, t.len() as int, '\n');
        match find_char(t, i, t.len() as int, '\n') {
            None => {
                assert(t.subrange(i, t.len() as int) =~= t.skip(i));
            },
            Some(k) => {
                assert(k + 1 < t.len());
                if k > i {
                    assert(t[k - 1] != '\r');
                }
                lemma_std_lines_join(t, k + 1);
                let rest = std_lines(t, k + 1);
                assert(rest.len() > 0);
                lemma_join_lines_front(t.subrange(i, k), rest);
                assert(t.skip(i) =~= t.subrange(i, k) + seq!['\n'] + t.skip(k + 1));
            },
        }
    }
}

/// Writing entries into a file and reading the entries back gives their timespans, and the
/// text of every entry whose text comes back unchanged from being split into lines.
pub proof fn law_srt_update_then_read(v: Seq<SrtLineModel>, e: Seq<SubtitleEntry>)
    requires
        v.len() == e.len(),
    ensures
        srt_entries(srt_updated(v, e)).len() == e.len(),
        forall|k: int|
            0 <= k < e.len() ==> (#[trigger] srt_entries(srt_updated(v, e))[k]).0 == e[k].timespan,
        forall|k: int|
            0 <= k < e.len() ==> (e[k].text() is Some && survives_lines(e[k].text()->Some_0)
                ==> #[trigger] srt_entries(srt_updated(v, e))[k].1 == e[k].text()),
        forall|k: int|
            0 <= k < e.len() && e[k].text() is None ==> #[trigger] srt_entries(srt_updated(v, e))[k].1
                == srt_entries(v)[k].1,
{
    assert forall|k: int|
        0 <= k < e.len() && e[k].text() is Some && survives_lines(e[k].text()->Some_0) implies #[trigger] srt_entries(
            srt_updated(v, e),
        )[k].1 == e[k].text() by {
        let t = e[k].text()->Some_0;
        lemma_std_lines_join(t, 0);
        assert(t.skip(0) =~= t);
    }
}

// ---------------------------------------------------------------------------------------------
// reading back what the writer wrote

/// Whether `t` holds no whitespace at its ends: then `trimmed` keeps it whole.
pub open spec fn untrimmed(t: Seq<char>) -> bool {
    t.len() > 0 && !is_unicode_ws(t[0]) && !is_unicode_ws(t.last())
}

proof fn lemma_trimmed_whole(t: Seq<char>)
    requires
        untrimmed(t),
    ensures
        trimmed(t) == t,
        !is_blank_line(t),
{
    lemma_lead_len_exact(t, |c: char| is_unicode_ws(c), 0);
    assert(t.skip(0) =~= t);
    lemma_trail_len_exact(t.skip(0), |c: char| is_unicode_ws(c), 0);
    assert(t.subrange(0, t.len() as int) =~= t);
}

/// An index written by the writer is read back.
#[verifier::rlimit(30)]
proof fn lemma_index_line(i: int)
    requires
        fits_i64(i),
    ensures
        untrimmed(signed_padded(i, 0)),
        plain_line(signed_padded(i, 0)),
        parse_i64_spec(trimmed(signed_padded(i, 0))) == Ok::<int, IntErrorKind>(i),
        signed_padded(i, 0)[0] == '-' || is_digit(signed_padded(i, 0)[0]),
{
    let s = signed_padded(i, 0);
    if i >= 0 {
        lemma_padded_value(i as nat, 0);
        assert(s == padded(i as nat, 0));
        assert(is_digit(s[0]) && is_digit(s.last()));
        lemma_trimmed_whole(s);
        lemma_parse_digits(s, 0, 0, false);
    } else {
        let p = padded((-i) as nat, 0);
        lemma_padded_value((-i) as nat, 0);
        assert(s == seq!['-'] + p);
        assert(is_digit(s.last())) by {
            assert(s.last() == p.last());
        }
        lemma_trimmed_whole(s);
        assert forall|m: int| 1 <= m < s.len() implies is_digit(#[trigger] s[m]) by {
            assert(s[m] == p[m - 1]);
        }
        assert(s.subrange(1, 1 + p.len() as int) =~= p.subrange(0, p.len() as int));
        lemma_digits_value_eq(s, 1, p, 0, p.len() as int);
        lemma_parse_digits(s, 1, 1, true);
    }
}

/// A time that the writer wrote at `i`, followed by no digit, is read back.
#[verifier::rlimit(30)]
proof fn lemma_stamp_read(s: Seq<char>, i: int, t: TimePoint)
    requires
        0 <= t@,
        0 <= i,
        i + srt_stamp(t).len() <= s.len(),
        s.subrange(i, i + srt_stamp(t).len()) == srt_stamp(t),
        i + srt_stamp(t).len() < s.len() ==> !is_digit(s[i + srt_stamp(t).len()]),
    ensures
        srt_timestamp_at(s, i) == Some((t@, i + srt_stamp(t).len())),
{
    reveal(srt_timestamp_at);
    reveal(hms_at);
    let x = t@;
    let h = tdiv(x, 3600000);
    let m = trem(tdiv(x, 60000), 60);
    let sec = trem(tdiv(x, 1000), 60);
    let ms = trem(x, 1000);
    law_components_round_trip(x);
    assert(0 <= h && 0 <= m < 60 && 0 <= sec < 60 && 0 <= ms < 1000);
    let a = padded(h as nat, 2);
    let b = padded(m as nat, 2);
    let c = padded(sec as nat, 2);
    let d = padded(ms as nat, 3);
    let st = srt_stamp(t);
    assert(st == a + seq![':'] + b + seq![':'] + c + seq![','] + d);
    lemma_padded_value(h as nat, 2);
    lemma_padded_value(m as nat, 2);
    lemma_padded_value(sec as nat, 2);
    lemma_padded_value(ms as nat, 3);
    let i1 = i + a.len();
    let i2 = i1 + 1 + b.len();
    let i3 = i2 + 1 + c.len();
    let e = i3 + 1 + d.len();
    assert(e == i + st.len());
    let w = s.subrange(i, e);
    assert(s.subrange(i, i1) =~= a) by {
        assert forall|k: int| 0 <= k < a.len() implies s.subrange(i, i1)[k] == a[k] by {
            assert(w[k] == st[k]);
        }
    }
    assert(s[i1] == ':') by {
        assert(w[a.len() as int] == st[a.len() as int]);
    }
    assert(s.subrange(i1 + 1, i2) =~= b) by {
        assert forall|k: int| 0 <= k < b.len() implies s.subrange(i1 + 1, i2)[k] == b[k] by {
            assert(w[a.len() + 1 + k] == st[a.len() + 1 + k]);
        }
    }
    assert(s[i2] == ':') by {
        assert(w[i2 - i] == st[i2 - i]);
    }
    assert(s.subrange(i2 + 1, i3) =~= c) by {
        assert forall|k: int| 0 <= k < c.len() implies s.subrange(i2 + 1, i3)[k] == c[k] by {
            assert(w[i2 + 1 - i + k] == st[i2 + 1 - i + k]);
        }
    }
    assert(s[i3] == ',') by {
        assert(w[i3 - i] == st[i3 - i]);
    }
    assert(s.subrange(i3 + 1, e) =~= d) by {
        assert forall|k: int| 0 <= k < d.len() implies s.subrange(i3 + 1, e)[k] == d[k] by {
            assert(w[i3 + 1 - i + k] == st[i3 + 1 - i + k]);
        }
    }
    lemma_number_at_padded(s, i, h as nat, 2);
    lemma_number_at_padded(s, i1 + 1, m as nat, 2);
    lemma_number_at_padded(s, i2 + 1, sec as nat, 2);
    lemma_number_at_padded(s, i3 + 1, ms as nat, 3);
    assert(sep_number_at(s, i1, ':') == Some((m, i2)));
    assert(sep_number_at(s, i2, ':') == Some((sec, i3)));
    assert(hms_at(s, i) == Some((h, m, sec, i3)));
    assert(sep_number_at(s, i3, ',') == Some((ms, e)));
    assert(checked_clock(h, m, sec, ms) == Some(x));
}

proof fn lemma_stamp_chars(t: TimePoint)
    requires
        0 <= t@,
    ensures
        forall|j: int|
            0 <= j < srt_stamp(t).len() ==> is_digit(#[trigger] srt_stamp(t)[j]) || srt_stamp(t)[j]
                == ':' || srt_stamp(t)[j] == ',',
        srt_stamp(t).len() > 0,
        is_digit(srt_stamp(t)[0]),
        is_digit(srt_stamp(t).last()),
{
    let x = t@;
    let h = tdiv(x, 3600000);
    let m = trem(tdiv(x, 60000), 60);
    let sec = trem(tdiv(x, 1000), 60);
    let ms = trem(x, 1000);
    assert(0 <= h && 0 <= m && 0 <= sec && 0 <= ms);
    let a = padded(h as nat, 2);
    let b = padded(m as nat, 2);
    let c = padded(sec as nat, 2);
    let d = padded(ms as nat, 3);
    lemma_padded_value(h as nat, 2);
    lemma_padded_value(m as nat, 2);
    lemma_padded_value(sec as nat, 2);
    lemma_padded_value(ms as nat, 3);
    let st = srt_stamp(t);
    assert(st == a + seq![':'] + b + seq![':'] + c + seq![','] + d);
    assert(st.last() == d.last());
}

/// The text that separates the two times of a timespan line.
pub open spec fn arrow() -> Seq<char> {
    seq![' ', '-', '-', '>', ' ']
}

/// The timespan line of an entry as the writer writes it.
#[verifier::opaque]
pub open spec fn stamp_line(ts: TimeSpan) -> Seq<char> {
    srt_stamp(ts.start) + arrow() + srt_stamp(ts.end)
}

/// A timespan line that the writer wrote is read back.
#[verifier::rlimit(30)]
proof fn lemma_stamp_line(ts: TimeSpan)
    requires
        0 <= ts.start@,
        0 <= ts.end@,
    ensures
        srt_timespan_spec(stamp_line(ts)) == Some((ts.start@, ts.end@)),
        untrimmed(stamp_line(ts)),
        plain_line(stamp_line(ts)),
{
    reveal(stamp_line);
    let a = srt_stamp(ts.start);
    let b = srt_stamp(ts.end);
    let s = stamp_line(ts);
    lemma_stamp_chars(ts.start);
    lemma_stamp_chars(ts.end);
    let la = a.len() as int;
    let n = s.len() as int;
    assert(s[0] == a[0]);
    assert(s.last() == b.last());
    assert forall|j: int| 0 <= j < s.len() implies s[j] != '\n' by {
        if j < la {
            assert(s[j] == a[j]);
        } else if j >= la + 5 {
            assert(s[j] == b[j - la - 5]);
        }
    }
    lemma_lead_len_exact(s.skip(0), |c: char| is_blank(c), 0);
    assert(blanks_end(s, 0) == 0);
    assert(s.subrange(0, la) =~= a);
    lemma_stamp_read(s, 0, ts.start);
    assert(s.skip(la)[0] == ' ' && s.skip(la)[1] == '-');
    lemma_lead_len_exact(s.skip(la), |c: char| is_blank(c), 1);
    assert(blanks_end(s, la) == la + 1);
    assert(s.subrange(la + 1, la + 4) =~= seq!['-', '-', '>']);
    assert(has_at(s, la + 1, seq!['-', '-', '>']));
    assert(s.skip(la + 4)[0] == ' ' && s.skip(la + 4)[1] == b[0]);
    lemma_lead_len_exact(s.skip(la + 4), |c: char| is_blank(c), 1);
    assert(blanks_end(s, la + 4) == la + 5);
    assert(s.subrange(la + 5, n) =~= b);
    lemma_stamp_read(s, la + 5, ts.end);
    assert(s.skip(n) =~= Seq::<char>::empty());
    lemma_lead_len_exact(s.skip(n), |c: char| is_blank(c), 0);
    assert(blanks_end(s, n) == n);
}

/// Whether a text line reads back as it was written: it is not blank, has no whitespace at its
/// ends and holds no line feed.
pub open spec fn rereadable_text(t: Seq<char>) -> bool {
    untrimmed(t) && forall|j: int| 0 <= j < t.len() ==> t[j] != '\n'
}

/// Whether an entry reads back as it was written: its times are not negative, its index fits
/// into an `i64`, and every text line reads back.
pub open spec fn rereadable(l: SrtLineModel) -> bool {
    &&& 0 <= l.timespan.start@
    &&& 0 <= l.timespan.end@
    &&& fits_i64(l.index)
    &&& forall|k: int| 0 <= k < l.texts.len() ==> rereadable_text(#[trigger] l.texts[k])
}

/// The text lines of an entry as the writer writes them: an entry without text gets one empty
/// line.
pub open spec fn text_lines(l: SrtLineModel) -> Seq<Seq<char>> {
    if l.texts.len() == 0 {
        seq![Seq::<char>::empty()]
    } else {
        l.texts
    }
}

/// The lines of one entry as the writer writes them.
#[verifier::opaque]
pub open spec fn entry_lines(l: SrtLineModel) -> Seq<Seq<char>> {
    seq![signed_padded(l.index, 0), stamp_line(l.timespan)] + text_lines(l) + seq![Seq::<char>::empty()]
}

/// The lines of all entries as the writer writes them.
pub open spec fn all_lines(v: Seq<SrtLineModel>) -> Seq<Seq<char>>
    decreases v.len(),
{
    if v.len() == 0 {
        Seq::empty()
    } else {
        all_lines(v.drop_last()) + entry_lines(v.last())
    }
}

proof fn lemma_join_terminated(t: Seq<Seq<char>>)
    requires
        t.len() > 0,
    ensures
        terminated(t) == join_lines(t) + seq!['\n'],
    decreases t.len(),
{
    let u = t.drop_last();
    let x = t.last();
    reveal_with_fuel(terminated, 2);
    lemma_terminated_add(u, seq![x]);
    assert(u + seq![x] =~= t);
    assert(seq![x].drop_first() =~= Seq::<Seq<char>>::empty());
    assert(terminated(seq![x]) =~= x + seq!['\n']);
    if u.len() > 0 {
        lemma_join_terminated(u);
        assert(terminated(t) =~= join_lines(t) + seq!['\n']);
    } else {
        assert(t.len() == 1);
        assert(terminated(t) =~= join_lines(t) + seq!['\n']);
    }
}

#[verifier::rlimit(30)]
proof fn lemma_entry_text(l: SrtLineModel)
    ensures
        srt_entry_text(l) == terminated(entry_lines(l)),
{
    reveal(stamp_line);
    reveal(entry_lines);
    reveal_with_fuel(terminated, 3);
    let head = seq![signed_padded(l.index, 0), stamp_line(l.timespan)];
    let tl = text_lines(l);
    let last = seq![Seq::<char>::empty()];
    lemma_terminated_add(head, tl + last);
    lemma_terminated_add(tl, last);
    assert(entry_lines(l) =~= head + (tl + last));
    assert(head.drop_first().drop_first() =~= Seq::<Seq<char>>::empty());
    assert(terminated(head.drop_first()) =~= stamp_line(l.timespan) + seq!['\n']);
    assert(terminated(head) =~= signed_padded(l.index, 0) + seq!['\n'] + stamp_line(l.timespan)
        + seq!['\n']);
    assert(last.drop_first() =~= Seq::<Seq<char>>::empty());
    assert(terminated(last) =~= seq!['\n']);
    if l.texts.len() == 0 {
        assert(join_lines(l.texts) =~= Seq::<char>::empty());
        assert(terminated(tl) =~= seq!['\n']);
    } else {
        lemma_join_terminated(l.texts);
    }
    assert(srt_entry_text(l) =~= terminated(entry_lines(l)));
}

proof fn lemma_text_lines(v: Seq<SrtLineModel>)
    ensures
        srt_text(v) == terminated(all_lines(v)),
    decreases v.len(),
{
    if v.len() > 0 {
        lemma_text_lines(v.drop_last());
        lemma_entry_text(v.last());
        lemma_terminated_add(all_lines(v.drop_last()), entry_lines(v.last()));
    }
}

#[verifier::rlimit(30)]
proof fn lemma_all_lines_prefix(v: Seq<SrtLineModel>, e: int)
    requires
        0 <= e <= v.len(),
    ensures
        all_lines(v.take(e)).len() <= all_lines(v).len(),
        all_lines(v).take(all_lines(v.take(e)).len() as int) == all_lines(v.take(e)),
    decreases v.len(),
{
    if e == v.len() {
        assert(v.take(e) =~= v);
        assert(all_lines(v).take(all_lines(v).len() as int) =~= all_lines(v));
    } else {
        let u = v.drop_last();
        lemma_all_lines_prefix(u, e);
        assert(u.take(e) =~= v.take(e));
        let n = all_lines(v.take(e)).len() as int;
        assert(all_lines(v).take(n) =~= all_lines(u).take(n));
    }
}

proof fn lemma_entry_lines_plain(l: SrtLineModel)
    requires
        rereadable(l),
    ensures
        forall|k: int| 0 <= k < entry_lines(l).len() ==> plain_line(#[trigger] entry_lines(l)[k]),
        untrimmed(signed_padded(l.index, 0)),
{
    reveal(entry_lines);
    lemma_index_line(l.index);
    lemma_stamp_line(l.timespan);
    let e = entry_lines(l);
    assert forall|k: int| 0 <= k < e.len() implies plain_line(#[trigger] e[k]) by {
        if 2 <= k < e.len() - 1 && l.texts.len() > 0 {
            let t = l.texts[k - 2];
            assert(e[k] == t);
            assert(rereadable_text(t));
            assert(t.last() != '\r') by {
                assert(is_unicode_ws('\r'));
            }
        }
    }
}

proof fn lemma_all_lines_plain(v: Seq<SrtLineModel>)
    requires
        forall|k: int| 0 <= k < v.len() ==> rereadable(#[trigger] v[k]),
    ensures
        forall|k: int| 0 <= k < all_lines(v).len() ==> plain_line(#[trigger] all_lines(v)[k]),
    decreases v.len(),
{
    if v.len() > 0 {
        lemma_all_lines_plain(v.drop_last());
        lemma_entry_lines_plain(v.last());
        let a = all_lines(v.drop_last());
        let e = entry_lines(v.last());
        assert forall|k: int| 0 <= k < all_lines(v).len() implies plain_line(#[trigger] all_lines(v)[k]) by {
            if k < a.len() {
                assert(all_lines(v)[k] == a[k]);
            } else {
                assert(all_lines(v)[k] == e[k - a.len()]);
            }
        }
    }
}

#[verifier::rlimit(30)]
proof fn lemma_texts_run(lines: Seq<Seq<char>>, p: int, l: SrtLineModel, res: Seq<SrtLineModel>, m: int)
    requires
        rereadable(l),
        1 <= m <= l.texts.len(),
        0 <= p,
        p + 2 + m <= lines.len(),
        forall|k: int| 0 <= k < l.texts.len() && p + 2 + k < lines.len() ==> lines[p + 2 + k] == #[trigger] l.texts[k],
        srt_run(lines, p + 2) == Ok::<(SrtState, Seq<SrtLineModel>), SrtFailure>(
            (SrtState::Timing(l.index, l.timespan), res),
        ),
    ensures
        srt_run(lines, p + 2 + m) == Ok::<(SrtState, Seq<SrtLineModel>), SrtFailure>(
            (SrtState::Dialog(l.index, l.timespan, l.texts.take(m)), res),
        ),
    decreases m,
{
    let t = l.texts[m - 1];
    assert(lines[p + 2 + m - 1] == t);
    assert(rereadable_text(t));
    lemma_trimmed_whole(t);
    if m == 1 {
        assert(seq![t] =~= l.texts.take(1));
    } else {
        lemma_texts_run(lines, p, l, res, m - 1);
        assert(l.texts.take(m - 1).push(t) =~= l.texts.take(m));
    }
}

/// Reading the lines of an entry that the writer wrote adds the entry.
#[verifier::spinoff_prover]
#[verifier::rlimit(30)]
proof fn lemma_entry_run(lines: Seq<Seq<char>>, p: int, l: SrtLineModel, res: Seq<SrtLineModel>)
    requires
        rereadable(l),
        0 <= p,
        p + entry_lines(l).len() <= lines.len(),
        lines.subrange(p, p + entry_lines(l).len()) == entry_lines(l),
        srt_run(lines, p) == Ok::<(SrtState, Seq<SrtLineModel>), SrtFailure>((SrtState::Empty, res)),
    ensures
        srt_run(lines, p + entry_lines(l).len()) == Ok::<(SrtState, Seq<SrtLineModel>), SrtFailure>(
            (SrtState::Empty, res.push(l)),
        ),
{
    reveal(entry_lines);
    let e = entry_lines(l);
    let n = e.len() as int;
    assert forall|k: int| 0 <= k < n implies lines[p + k] == #[trigger] e[k] by {
        assert(lines.subrange(p, p + n)[k] == e[k]);
    }
    lemma_index_line(l.index);
    lemma_trimmed_whole(signed_padded(l.index, 0));
    lemma_stamp_line(l.timespan);
    assert(lines[p] == signed_padded(l.index, 0)) by {
        assert(e[0] == signed_padded(l.index, 0));
    }
    assert(srt_run(lines, p + 1) == Ok::<(SrtState, Seq<SrtLineModel>), SrtFailure>(
        (SrtState::Index(l.index), res),
    ));
    assert(lines[p + 1] == stamp_line(l.timespan)) by {
        assert(e[1] == stamp_line(l.timespan));
    }
    assert(span_of(l.timespan.start@, l.timespan.end@) == l.timespan);
    assert(srt_run(lines, p + 2) == Ok::<(SrtState, Seq<SrtLineModel>), SrtFailure>(
        (SrtState::Timing(l.index, l.timespan), res),
    ));
    let blank = Seq::<char>::empty();
    assert(is_blank_line(blank));
    if l.texts.len() == 0 {
        assert(n == 4);
        assert(lines[p + 2] == blank) by {
            assert(e[2] == blank);
        }
        assert(lines[p + 3] == blank) by {
            assert(e[3] == blank);
        }
        assert(l.texts =~= Seq::<Seq<char>>::empty());
        assert(l == SrtLineModel { timespan: l.timespan, index: l.index, texts: Seq::empty() });
        assert(srt_run(lines, p + 3) == Ok::<(SrtState, Seq<SrtLineModel>), SrtFailure>(
            (SrtState::Empty, res.push(l)),
        ));
    } else {
        let m = l.texts.len() as int;
        assert(n == 3 + m);
        assert forall|k: int| 0 <= k < m && p + 2 + k < lines.len() implies lines[p + 2 + k]
            == #[trigger] l.texts[k] by {
            assert(e[2 + k] == l.texts[k]);
        }
        lemma_texts_run(lines, p, l, res, m);
        assert(l.texts.take(m) =~= l.texts);
        assert(lines[p + 2 + m] == blank) by {
            assert(e[2 + m] == blank);
        }
    }
}

#[verifier::rlimit(30)]
proof fn lemma_entry_slice(v: Seq<SrtLineModel>, lines: Seq<Seq<char>>, e: int)
    requires
        0 < e <= v.len(),
        all_lines(v).len() <= lines.len(),
        lines.take(all_lines(v).len() as int) == all_lines(v),
    ensures
        all_lines(v.take(e)) == all_lines(v.take(e - 1)) + entry_lines(v[e - 1]),
        all_lines(v.take(e)).len() <= lines.len(),
        lines.subrange(
            all_lines(v.take(e - 1)).len() as int,
            (all_lines(v.take(e - 1)).len() + entry_lines(v[e - 1]).len()) as int,
        ) == entry_lines(v[e - 1]),
{
    let a = all_lines(v.take(e - 1));
    let l = v[e - 1];
    assert(v.take(e).drop_last() =~= v.take(e - 1));
    assert(all_lines(v.take(e)) == a + entry_lines(l));
    lemma_all_lines_prefix(v, e);
    let p = a.len() as int;
    let n = entry_lines(l).len() as int;
    let w = all_lines(v.take(e));
    assert forall|k: int| 0 <= k < n implies lines.subrange(p, p + n)[k] == entry_lines(l)[k] by {
        assert(lines.take(all_lines(v).len() as int)[p + k] == lines[p + k]);
        assert(all_lines(v).take(w.len() as int)[p + k] == all_lines(v)[p + k]);
        assert(w[p + k] == entry_lines(l)[k]);
    }
    assert(lines.subrange(p, p + n) =~= entry_lines(l));
}

#[verifier::spinoff_prover]
#[verifier::rlimit(30)]
proof fn lemma_run_all(v: Seq<SrtLineModel>, lines: Seq<Seq<char>>, e: int)
    requires
        forall|k: int| 0 <= k < v.len() ==> rereadable(#[trigger] v[k]),
        0 <= e <= v.len(),
        all_lines(v).len() <= lines.len(),
        lines.take(all_lines(v).len() as int) == all_lines(v),
    ensures
        srt_run(lines, all_lines(v.take(e)).len() as int) == Ok::<(SrtState, Seq<SrtLineModel>), SrtFailure>(
            (SrtState::Empty, v.take(e)),
        ),
    decreases e,
{
    if e == 0 {
        assert(v.take(0) =~= Seq::<SrtLineModel>::empty());
    } else {
        lemma_run_all(v, lines, e - 1);
        lemma_entry_slice(v, lines, e);
        let p = all_lines(v.take(e - 1)).len() as int;
        lemma_entry_run(lines, p, v[e - 1], v.take(e - 1));
        assert(v.take(e - 1).push(v[e - 1]) =~= v.take(e));
    }
}

#[verifier::rlimit(30)]
proof fn lemma_first_line(v: Seq<SrtLineModel>)
    requires
        v.len() > 0,
    ensures
        all_lines(v).len() > 0,
        all_lines(v)[0] == signed_padded(v[0].index, 0),
{
    reveal(entry_lines);
    lemma_all_lines_prefix(v, 1);
    let w = v.take(1);
    assert(w.drop_last() =~= Seq::<SrtLineModel>::empty());
    assert(all_lines(Seq::<SrtLineModel>::empty()) =~= Seq::<Seq<char>>::empty());
    assert(w.last() == v[0]);
    assert(all_lines(w) == all_lines(w.drop_last()) + entry_lines(w.last()));
    assert(all_lines(w)[0] == signed_padded(v[0].index, 0));
    assert(all_lines(v).take(all_lines(w).len() as int)[0] == all_lines(v)[0]);
}

#[verifier::rlimit(30)]
proof fn lemma_no_bom(v: Seq<SrtLineModel>)
    requires
        forall|k: int| 0 <= k < v.len() ==> rereadable(#[trigger] v[k]),
    ensures
        without_bom(srt_text(v)) == srt_text(v),
{
    lemma_text_lines(v);
    if v.len() > 0 {
        let all = all_lines(v);
        lemma_first_line(v);
        let first = signed_padded(v[0].index, 0);
        assert(rereadable(v[0]));
        lemma_index_line(v[0].index);
        assert(terminated(all) == all[0] + seq!['\n'] + terminated(all.drop_first()));
        assert(terminated(all)[0] == first[0]);
    }
}

/// Reading a written file gives back its entries, when every entry reads back as it was
/// written: its times are not negative, its index fits into an `i64`, and each text line is
/// not blank, has no whitespace at its ends and holds no line feed.
#[verifier::spinoff_prover]
#[verifier::rlimit(30)]
pub proof fn law_srt_write_then_read(v: Seq<SrtLineModel>)
    requires
        forall|k: int| 0 <= k < v.len() ==> rereadable(#[trigger] v[k]),
    ensures
        srt_parse_spec(srt_text(v)) == Ok::<Seq<SrtLineModel>, SrtFailure>(v),
{
    let s = srt_text(v);
    let all = all_lines(v);
    lemma_text_lines(v);
    lemma_all_lines_plain(v);
    lemma_no_bom(v);
    assert(without_bom(s) == s);
    assert(s.skip(0) =~= s);
    lemma_std_lines_terminated(s, 0, all);
    let lines = all.push(Seq::<char>::empty());
    assert(lines.take(all.len() as int) =~= all);
    lemma_run_all(v, lines, v.len() as int);
    assert(v.take(v.len() as int) =~= v);
    assert(is_blank_line(Seq::<char>::empty()));
}

/// A file in the writer's own form, one block per entry with an index that fits into an `i64`,
/// times that are not negative and text lines that are not blank, have no whitespace at their
/// ends and hold no line feed, is parsed and written back character for character.
pub proof fn law_srt_parse_then_write(s: Seq<char>, v: Seq<SrtLineModel>)
    requires
        s == srt_text(v),
        forall|k: int| 0 <= k < v.len() ==> rereadable(#[trigger] v[k]),
    ensures
        srt_parse_spec(s) matches Ok(m) && srt_text(m) == s,
{
    law_srt_write_then_read(v);
}

} // verus!
