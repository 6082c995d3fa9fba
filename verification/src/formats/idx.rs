//! `VobSub` index (`.idx`) files.
//!
//! Only the `timestamp:` lines matter for the timing; everything else is kept verbatim as filler
//! so that the file can be written back unchanged.

use crate::errors::{Error, IdxError, ParseError};
use crate::formats::common::{
    FilePart, Piece, dedup_pieces, dedup_string_parts, get_lines_non_destructive,
    idx_line, idx_line_spec, idx_timestamp, idx_timestamp_spec, is_stamp_char,
    join_pairs, law_dedup_keeps_text, law_lines_join_back, lemma_join_pairs_take,
    lemma_render_concat, nd_lines, pieces, render, split_bom, timestamp_keyword,
};
use crate::formats::SubtitleEntry;
use crate::formats::srt::without_bom;
use crate::text::{
    append_str, chars_of, extend_str, has_at, is_blank, lead_len, lemma_lead_len, skip_blanks_at,
    padded, push_decimal, string_of, utf8_of,
};
use crate::timetypes::{TimePoint, TimeSpan};
use vstd::prelude::*;

verus! {

broadcast use crate::timetypes::group_time_lemmas;

/// Why an `.idx` file does not parse, in specifications: the line and the message.
pub struct IdxFailure {
    pub line_num: int,
    pub msg: Seq<char>,
}

pub open spec fn idx_failure(e: IdxError) -> IdxFailure {
    match e {
        IdxError::IdxLineParseError { line_num, msg } => IdxFailure {
            line_num: line_num as int,
            msg: msg@,
        },
    }
}

/// `s` without its leading spaces and tabs.
pub open spec fn trimmed_start(s: Seq<char>) -> Seq<char> {
    s.skip(lead_len(s, |c: char| is_blank(c)) as int)
}

/// The pieces that one line of the file becomes.
pub open spec fn idx_line_pieces(line: Seq<char>, n: int) -> Result<Seq<Piece<TimePoint>>, IdxFailure> {
    if !has_at(trimmed_start(line), 0, timestamp_keyword()) {
        Ok(seq![Piece::Filler(line)])
    } else {
        match idx_line_spec(line) {
            None => Err(
                IdxFailure { line_num: n, msg: "expected a line starting with `timestamp:`"@ },
            ),
            Some((a, b, c, t)) => {
                let stamp = line.subrange(c, t);
                match idx_timestamp_spec(stamp) {
                    None => Err(
                        IdxFailure {
                            line_num: n,
                            msg: "expected a timestamp of the form `00:41:36:961`, found `"@ + stamp
                                + "`"@,
                        },
                    ),
                    Some(ms) => Ok(
                        seq![
                            Piece::Filler(line.take(a)),
                            Piece::Filler(timestamp_keyword()),
                            Piece::Filler(line.subrange(b, c)),
                            Piece::Other(TimePoint::from_ms_spec(ms)),
                            Piece::Filler(line.skip(t)),
                        ],
                    ),
                }
            },
        }
    }
}

/// The pieces of the first `k` lines, each followed by its line ending.
pub open spec fn idx_raw(lines: Seq<(Seq<char>, Seq<char>)>, k: int) -> Result<
    Seq<Piece<TimePoint>>,
    IdxFailure,
>
    decreases k,
{
    if k <= 0 {
        Ok(Seq::empty())
    } else {
        match idx_raw(lines, k - 1) {
            Err(e) => Err(e),
            Ok(prev) => match idx_line_pieces(lines[k - 1].0, k - 1) {
                Err(e) => Err(e),
                Ok(p) => Ok(prev + p + seq![Piece::Filler(lines[k - 1].1)]),
            },
        }
    }
}

/// The pieces of a whole `.idx` file: the byte order mark, then every line.
pub open spec fn idx_parse_spec(s: Seq<char>) -> Result<Seq<Piece<TimePoint>>, IdxFailure> {
    let bom = s.take(s.len() - without_bom(s).len());
    let lines = nd_lines(without_bom(s), 0);
    match idx_raw(lines, lines.len() as int) {
        Err(e) => Err(e),
        Ok(p) => Ok(dedup_pieces(seq![Piece::Filler(bom)] + p)),
    }
}

/// The timestamps among the pieces, in order.
pub open spec fn idx_times(s: Seq<Piece<TimePoint>>) -> Seq<TimePoint>
    decreases s.len(),
{
    if s.len() == 0 {
        Seq::empty()
    } else {
        match s.last() {
            Piece::Other(t) => idx_times(s.drop_last()).push(t),
            Piece::Filler(_) => idx_times(s.drop_last()),
        }
    }
}

/// `t` shifted by one minute, wrapping around at the ends of `i64`.
pub open spec fn plus_minute(t: TimePoint) -> TimePoint {
    TimePoint::from_ms_spec(
        if t@ + 60000 > i64::MAX {
            t@ + 60000 - 0x10000000000000000
        } else {
            t@ + 60000
        },
    )
}

/// Each timestamp starts an entry that ends where the next one starts; the last lasts a minute.
pub open spec fn idx_spans(times: Seq<TimePoint>) -> Seq<TimeSpan> {
    Seq::new(
        times.len(),
        |k: int|
            TimeSpan {
                start: times[k],
                end: if k + 1 < times.len() {
                    times[k + 1]
                } else {
                    plus_minute(times[k])
                },
            },
    )
}

/// How many timestamps come before position `i`.
pub open spec fn times_before(s: Seq<Piece<TimePoint>>, i: int) -> int {
    idx_times(s.take(i)).len() as int
}

/// The pieces with the `k`-th timestamp replaced by `starts[k]`.
pub open spec fn idx_updated(s: Seq<Piece<TimePoint>>, starts: Seq<TimePoint>) -> Seq<Piece<TimePoint>> {
    Seq::new(
        s.len(),
        |i: int|
            match s[i] {
                Piece::Other(_) => Piece::Other(starts[times_before(s, i)]),
                Piece::Filler(t) => Piece::Filler(t),
            },
    )
}

/// A time point as the `.idx` writer renders it: `[-]hh:mm:ss:mmm`.
pub open spec fn idx_stamp(t: TimePoint) -> Seq<char> {
    let a = if t@ < 0 {
        -t@
    } else {
        t@
    };
    (if t@ < 0 {
        seq!['-']
    } else {
        Seq::<char>::empty()
    }) + padded((a / 3600000) as nat, 2) + seq![':'] + padded(((a / 60000) % 60) as nat, 2) + seq![
        ':',
    ] + padded(((a / 1000) % 60) as nat, 2) + seq![':'] + padded((a % 1000) as nat, 3)
}

/// One part of an `.idx` file.
#[derive(Debug, Clone)]
enum IdxFilePart {
    /// Text that is kept only to write the file back.
    Filler(String),
    /// The timestamp of a subtitle.
    Timestamp(TimePoint),
}

impl FilePart for IdxFilePart {
    type Model = TimePoint;

    closed spec fn piece(&self) -> Piece<TimePoint> {
        match self {
            IdxFilePart::Filler(t) => Piece::Filler(t@),
            IdxFilePart::Timestamp(t) => Piece::Other(*t),
        }
    }

    fn is_filler(&self) -> (b: bool) {
        match self {
            IdxFilePart::Filler(_) => true,
            IdxFilePart::Timestamp(_) => false,
        }
    }

    fn absorb(&mut self, other: Self) {
        match other {
            IdxFilePart::Filler(t) => {
                match self {
                    IdxFilePart::Filler(s) => {
                        append_str(s, t.as_str());
                    },
                    IdxFilePart::Timestamp(_) => {},
                }
            },
            IdxFilePart::Timestamp(_) => {},
        }
    }
}

/// An `.idx` file.
#[derive(Debug, Clone)]
pub struct IdxFile {
    v: Vec<IdxFilePart>,
}

impl View for IdxFile {
    type V = Seq<Piece<TimePoint>>;

    closed spec fn view(&self) -> Seq<Piece<TimePoint>> {
        pieces(self.v@)
    }
}

impl IdxFile {
    fn new(v: Vec<IdxFilePart>) -> (f: IdxFile)
        ensures
            f@ == dedup_pieces(pieces(v@)),
    {
        IdxFile { v: dedup_string_parts(v) }
    }

    fn timestamp_count(&self) -> (n: usize)
        ensures
            n == idx_times(self@).len(),
    {
        let mut n: usize = 0;
        let mut i: usize = 0;
        while i < self.v.len()
            invariant
                i <= self.v@.len(),
                n == idx_times(self@.take(i as int)).len(),
                n <= i,
            decreases self.v@.len() - i,
        {
            assert(self@.take(i + 1).drop_last() =~= self@.take(i as int));
            match &self.v[i] {
                IdxFilePart::Filler(_) => {},
                IdxFilePart::Timestamp(_) => {
                    n = n + 1;
                },
            }
            i = i + 1;
        }
        assert(self@.take(self.v@.len() as int) =~= self@);
        n
    }

    fn times(&self) -> (r: Vec<TimePoint>)
        ensures
            r@ == idx_times(self@),
    {
        let mut r: Vec<TimePoint> = Vec::new();
        let mut i: usize = 0;
        while i < self.v.len()
            invariant
                i <= self.v@.len(),
                r@ == idx_times(self@.take(i as int)),
            decreases self.v@.len() - i,
        {
            assert(self@.take(i + 1).drop_last() =~= self@.take(i as int));
            match &self.v[i] {
                IdxFilePart::Filler(_) => {},
                IdxFilePart::Timestamp(t) => {
                    r.push(*t);
                },
            }
            i = i + 1;
        }
        assert(self@.take(self.v@.len() as int) =~= self@);
        r
    }

    /// The entries: each timestamp starts one, which ends where the next one starts; the last one
    /// lasts a minute.
    pub fn get_subtitle_entries(&self) -> (r: Result<Vec<SubtitleEntry>, Error>)
        ensures
            r matches Ok(v) && v@.map_values(|e: SubtitleEntry| e.timespan) == idx_spans(
                idx_times(self@),
            ) && forall|k: int| 0 <= k < v@.len() ==> (#[trigger] v@[k]).line is None,
    {
        let times = self.times();
        let n = times.len();
        let mut out: Vec<SubtitleEntry> = Vec::new();
        let mut k: usize = 0;
        while k < n
            invariant
                k <= n,
                n == times@.len(),
                out@.len() == k,
                forall|j: int|
                    0 <= j < k ==> (#[trigger] out@[j]).timespan == idx_spans(times@)[j]
                        && out@[j].line is None,
            decreases n - k,
        {
            let start = times[k];
            let end = if k + 1 < n {
                times[k + 1]
            } else {
                TimePoint::from_msecs(start.msecs().wrapping_add(60000))
            };
            out.push(SubtitleEntry { timespan: TimeSpan::new(start, end), line: None });
            k = k + 1;
        }
        assert(out@.map_values(|e: SubtitleEntry| e.timespan) =~= idx_spans(idx_times(self@)));
        Ok(out)
    }

    /// Moves every timestamp to the start of the corresponding entry.
    pub fn update_subtitle_entries(&mut self, ts: &[SubtitleEntry]) -> (r: Result<(), Error>)
        ensures
            match r {
                Ok(()) => idx_times(old(self)@).len() == ts@.len() && final(self)@ == idx_updated(
                    old(self)@,
                    ts@.map_values(|e: SubtitleEntry| e.timespan.start),
                ),
                Err(e) => idx_times(old(self)@).len() != ts@.len() && final(self)@ == old(self)@
                    && e == (Error::EntryCountMismatch {
                    expected: idx_times(old(self)@).len() as usize,
                    provided: ts@.len() as usize,
                }),
            },
    {
        let expected = self.timestamp_count();
        if expected != ts.len() {
            return Err(Error::EntryCountMismatch { expected, provided: ts.len() });
        }
        let ghost old_p = self@;
        let ghost starts = ts@.map_values(|e: SubtitleEntry| e.timespan.start);
        let mut taken: Vec<IdxFilePart> = Vec::new();
        std::mem::swap(&mut taken, &mut self.v);
        let ghost orig = taken@;
        let mut rev = crate::text::reversed(taken);
        let n = rev.len();
        let mut count: usize = 0;
        let mut i: usize = 0;
        while i < n
            invariant
                i <= n,
                n == orig.len(),
                old_p == pieces(orig),
                rev@.len() == n - i,
                forall|j: int| 0 <= j < rev@.len() ==> #[trigger] rev@[j] == orig[n - 1 - j],
                self.v@.len() == i,
                count == times_before(old_p, i as int),
                count <= ts@.len(),
                idx_times(old_p).len() == ts@.len(),
                starts == ts@.map_values(|e: SubtitleEntry| e.timespan.start),
                forall|j: int| 0 <= j < i ==> (#[trigger] self.v@[j]).piece() == idx_updated(old_p, starts)[j],
            decreases n - i,
        {
            let part = rev.pop().unwrap();
            assert(part == orig[i as int]);
            proof {
                assert(old_p.take(i + 1).drop_last() =~= old_p.take(i as int));
                lemma_times_prefix(old_p, i + 1);
                lemma_times_bound(old_p, i + 1);
            }
            match part {
                IdxFilePart::Filler(t) => {
                    self.v.push(IdxFilePart::Filler(t));
                },
                IdxFilePart::Timestamp(_) => {
                    self.v.push(IdxFilePart::Timestamp(ts[count].timespan.start));
                    count = count + 1;
                },
            }
            i = i + 1;
        }
        assert(self@ =~= idx_updated(old_p, starts));
        Ok(())
    }

    fn push_stamp(out: &mut Vec<char>, t: TimePoint)
        ensures
            final(out)@ == old(out)@ + idx_stamp(t),
    {
        let ms = t.msecs();
        let a: u64 = if ms < 0 {
            if ms == i64::MIN {
                9223372036854775808u64
            } else {
                (-ms) as u64
            }
        } else {
            ms as u64
        };
        if ms < 0 {
            out.push('-');
        }
        push_decimal(out, a / 3600000, 2);
        out.push(':');
        push_decimal(out, (a / 60000) % 60, 2);
        out.push(':');
        push_decimal(out, (a / 1000) % 60, 2);
        out.push(':');
        push_decimal(out, a % 1000, 3);
        assert(out@ =~= old(out)@ + idx_stamp(t));
    }

    /// The file as `.idx` text, in UTF-8: the filler verbatim, the timestamps rendered.
    pub fn to_data(&self) -> (r: Result<Vec<u8>, Error>)
        ensures
            r matches Ok(b) && b@ == vstd::utf8::encode_utf8(
                render(self@, |t: TimePoint| idx_stamp(t)),
            ),
    {
        let mut out: Vec<char> = Vec::new();
        let mut i: usize = 0;
        while i < self.v.len()
            invariant
                i <= self.v@.len(),
                out@ == render(self@.take(i as int), |t: TimePoint| idx_stamp(t)),
            decreases self.v@.len() - i,
        {
            assert(self@.take(i + 1).drop_last() =~= self@.take(i as int));
            match &self.v[i] {
                IdxFilePart::Filler(t) => {
                    extend_str(&mut out, t.as_str());
                },
                IdxFilePart::Timestamp(t) => {
                    Self::push_stamp(&mut out, *t);
                },
            }
            i = i + 1;
        }
        assert(self@.take(self.v@.len() as int) =~= self@);
        let text = string_of(out.as_slice());
        Ok(utf8_of(&text))
    }

    /// Parses the text of an `.idx` file.
    pub fn parse(s: &str) -> (r: Result<IdxFile, Error>)
        ensures
            match r {
                Ok(f) => idx_parse_spec(s@) == Ok::<Seq<Piece<TimePoint>>, IdxFailure>(f@),
                Err(e) => e matches Error::ParsingError(ParseError::VobSubIdx(ie)) && idx_parse_spec(s@)
                    == Err::<Seq<Piece<TimePoint>>, IdxFailure>(idx_failure(ie)),
            },
    {
        match Self::parse_inner(s) {
            Ok(f) => Ok(f),
            Err(e) => Err(Error::ParsingError(ParseError::VobSubIdx(e))),
        }
    }

    fn parse_inner(i: &str) -> (r: Result<IdxFile, IdxError>)
        ensures
            match r {
                Ok(f) => idx_parse_spec(i@) == Ok::<Seq<Piece<TimePoint>>, IdxFailure>(f@),
                Err(e) => idx_parse_spec(i@) == Err::<Seq<Piece<TimePoint>>, IdxFailure>(
                    idx_failure(e),
                ),
            },
    {
        let (bom, s) = split_bom(i);
        let mut result: Vec<IdxFilePart> = Vec::new();
        let mut b = String::new();
        append_str(&mut b, bom);
        result.push(IdxFilePart::Filler(b));
        let ghost head = seq![Piece::<TimePoint>::Filler(bom@)];
        proof {
            assert(pieces(result@) =~= head);
            if i@.len() > 0 && i@[0] == '\u{feff}' {
                assert(s@ =~= i@.skip(1));
                assert(bom@ =~= i@.take(1));
            } else {
                assert(s@ =~= i@);
                assert(bom@ =~= i@.take(0));
            }
        }
        let lines = get_lines_non_destructive(s);
        let ghost lv = nd_lines(without_bom(i@), 0);
        let n = lines.len();
        let mut k: usize = 0;
        while k < n
            invariant
                k <= n,
                n == lines@.len(),
                lv == nd_lines(without_bom(i@), 0),
                lv == crate::formats::common::pairs_view(lines@),
                idx_raw(lv, k as int) matches Ok(p) && pieces(result@) == head + p,
            decreases n - k,
        {
            let ghost before = pieces(result@);
            let (line, newl) = (&lines[k].0, &lines[k].1);
            match Self::parse_line(k, line) {
                Err(e) => {
                    proof {
                        lemma_idx_raw_err(lv, k + 1, lv.len() as int);
                    }
                    return Err(e);
                },
                Ok(parts) => {
                    let mut parts = parts;
                    let ghost pp = pieces(parts@);
                    result.append(&mut parts);
                    let mut nl = String::new();
                    append_str(&mut nl, newl.as_str());
                    result.push(IdxFilePart::Filler(nl));
                    proof {
                        let prev = match idx_raw(lv, k as int) {
                            Ok(p) => p,
                            Err(_) => Seq::empty(),
                        };
                        assert(pieces(result@) =~= before + pp + seq![Piece::Filler(newl@)]);
                        assert(before + pp + seq![Piece::Filler(newl@)] =~= head + (prev + pp
                            + seq![Piece::Filler(newl@)]));
                    }
                },
            }
            k = k + 1;
        }
        Ok(IdxFile::new(result))
    }

    /// Whether the line starts with `timestamp:` once leading spaces and tabs are removed.
    fn starts_with_keyword(s: &String) -> (b: bool)
        ensures
            b == has_at(trimmed_start(s@), 0, timestamp_keyword()),
    {
        let cs = chars_of(s.as_str());
        let a = skip_blanks_at(cs.as_slice(), 0);
        proof {
            assert(cs@.skip(0) =~= cs@);
            reveal_strlit("timestamp:");
            assert("timestamp:"@ =~= timestamp_keyword());
        }
        let kw = chars_of("timestamp:");
        let starts = crate::text::matches_at(cs.as_slice(), a, kw.as_slice());
        proof {
            let t = trimmed_start(s@);
            assert(t =~= cs@.skip(a as int));
            if has_at(t, 0, timestamp_keyword()) {
                assert(t.subrange(0, 10) =~= cs@.subrange(a as int, a + 10));
            }
            if starts {
                assert(t.subrange(0, 10) =~= cs@.subrange(a as int, a + 10));
            }
        }
        starts
    }

    fn parse_line(line_num: usize, s: &String) -> (r: Result<Vec<IdxFilePart>, IdxError>)
        ensures
            match r {
                Ok(v) => idx_line_pieces(s@, line_num as int) == Ok::<
                    Seq<Piece<TimePoint>>,
                    IdxFailure,
                >(pieces(v@)),
                Err(e) => idx_line_pieces(s@, line_num as int) == Err::<
                    Seq<Piece<TimePoint>>,
                    IdxFailure,
                >(idx_failure(e)),
            },
    {
        let starts = Self::starts_with_keyword(s);
        if !starts {
            let mut f = String::new();
            append_str(&mut f, s.as_str());
            let v = vec![IdxFilePart::Filler(f)];
            assert(pieces(v@) =~= seq![Piece::Filler(s@)]);
            return Ok(v);
        }
        let (ws1, keyword, ws2, timestamp_str, rest) = match idx_line(s.as_str()) {
            None => {
                proof {
                    reveal_strlit("expected a line starting with `timestamp:`");
                }
                let mut msg = String::new();
                append_str(&mut msg, "expected a line starting with `timestamp:`");
                return Err(IdxError::IdxLineParseError { line_num, msg });
            },
            Some(p) => p,
        };
        let t = match idx_timestamp(timestamp_str) {
            None => {
                let mut msg = String::new();
                append_str(&mut msg, "expected a timestamp of the form `00:41:36:961`, found `");
                append_str(&mut msg, timestamp_str);
                append_str(&mut msg, "`");
                return Err(IdxError::IdxLineParseError { line_num, msg });
            },
            Some(ms) => TimePoint::from_msecs(ms),
        };
        let mut f1 = String::new();
        append_str(&mut f1, ws1);
        let mut f2 = String::new();
        append_str(&mut f2, keyword);
        let mut f3 = String::new();
        append_str(&mut f3, ws2);
        let mut f5 = String::new();
        append_str(&mut f5, rest);
        let v = vec![
            IdxFilePart::Filler(f1),
            IdxFilePart::Filler(f2),
            IdxFilePart::Filler(f3),
            IdxFilePart::Timestamp(t),
            IdxFilePart::Filler(f5),
        ];
        assert(pieces(v@) =~= seq![
            Piece::Filler(ws1@),
            Piece::Filler(keyword@),
            Piece::Filler(ws2@),
            Piece::Other(t),
            Piece::Filler(rest@),
        ]);
        Ok(v)
    }
}

/// A failure stays a failure, however many lines follow.
pub proof fn lemma_idx_raw_err(lines: Seq<(Seq<char>, Seq<char>)>, k: int, m: int)
    requires
        0 <= k <= m,
        idx_raw(lines, k) is Err,
    ensures
        idx_raw(lines, m) == idx_raw(lines, k),
    decreases m - k,
{
    if m > k {
        lemma_idx_raw_err(lines, k, m - 1);
    }
}

/// Counting the timestamps of a prefix one piece at a time.
pub proof fn lemma_times_prefix(s: Seq<Piece<TimePoint>>, i: int)
    requires
        0 < i <= s.len(),
    ensures
        times_before(s, i) == times_before(s, i - 1) + (if s[i - 1] is Other {
            1int
        } else {
            0int
        }),
        s[i - 1] matches Piece::Other(t) ==> idx_times(s.take(i)) == idx_times(s.take(i - 1)).push(t),
{
    assert(s.take(i).drop_last() =~= s.take(i - 1));
}

/// Writing start times into the file and reading the entries back gives those start times.
pub proof fn law_idx_update_then_read(s: Seq<Piece<TimePoint>>, starts: Seq<TimePoint>)
    requires
        idx_times(s).len() == starts.len(),
    ensures
        idx_times(idx_updated(s, starts)) == starts,
{
    lemma_updated_prefix(s, starts, s.len() as int);
    assert(idx_updated(s, starts).take(s.len() as int) =~= idx_updated(s, starts));
    assert(starts.take(starts.len() as int) =~= starts);
    assert(s.take(s.len() as int) =~= s);
}

proof fn lemma_updated_prefix(s: Seq<Piece<TimePoint>>, starts: Seq<TimePoint>, i: int)
    requires
        0 <= i <= s.len(),
        idx_times(s).len() == starts.len(),
    ensures
        idx_times(idx_updated(s, starts).take(i)) == starts.take(times_before(s, i)),
        times_before(s, i) <= starts.len(),
    decreases i,
{
    let u = idx_updated(s, starts);
    if i == 0 {
        assert(u.take(0) =~= Seq::<Piece<TimePoint>>::empty());
        assert(s.take(0) =~= Seq::<Piece<TimePoint>>::empty());
        assert(starts.take(0) =~= Seq::<TimePoint>::empty());
    } else {
        lemma_updated_prefix(s, starts, i - 1);
        lemma_times_prefix(s, i);
        lemma_times_prefix(u, i);
        lemma_times_bound(s, i);
        if s[i - 1] is Other {
            assert(starts.take(times_before(s, i)) =~= starts.take(times_before(s, i - 1)).push(
                starts[times_before(s, i - 1)],
            ));
        } else {
            assert(u.take(i).drop_last() =~= u.take(i - 1));
        }
    }
}

proof fn lemma_times_bound(s: Seq<Piece<TimePoint>>, i: int)
    requires
        0 <= i <= s.len(),
    ensures
        times_before(s, i) <= idx_times(s).len(),
    decreases s.len() - i,
{
    if i < s.len() {
        lemma_times_bound(s, i + 1);
        lemma_times_prefix(s, i + 1);
    } else {
        assert(s.take(i) =~= s);
    }
}

/// Whether a line that holds a timestamp holds it the way the writer writes it.
pub open spec fn idx_line_canonical(line: Seq<char>) -> bool {
    has_at(trimmed_start(line), 0, timestamp_keyword()) ==> match idx_line_spec(line) {
        Some((a, b, c, t)) => match idx_timestamp_spec(line.subrange(c, t)) {
            Some(ms) => idx_stamp(TimePoint::from_ms_spec(ms)) == line.subrange(c, t),
            None => true,
        },
        None => true,
    }
}

/// Whether every timestamp of the file is written the way the writer writes it.
pub open spec fn idx_canonical(s: Seq<char>) -> bool {
    let lines = nd_lines(without_bom(s), 0);
    forall|k: int| 0 <= k < lines.len() ==> idx_line_canonical(#[trigger] lines[k].0)
}

#[verifier::rlimit(30)]
proof fn lemma_line_render(line: Seq<char>, n: int)
    requires
        idx_line_canonical(line),
        idx_line_pieces(line, n) is Ok,
    ensures
        idx_line_pieces(line, n) matches Ok(p) && render(p, |t: TimePoint| idx_stamp(t)) == line,
{
    let f = |t: TimePoint| idx_stamp(t);
    let p = idx_line_pieces(line, n)->Ok_0;
    reveal_with_fuel(render, 6);
    if !has_at(trimmed_start(line), 0, timestamp_keyword()) {
        assert(p.drop_last() =~= Seq::<Piece<TimePoint>>::empty());
        assert(render(p, f) =~= line);
    } else {
        let (a, b, c, t) = idx_line_spec(line)->Some_0;
        lemma_lead_len(line.skip(0), |ch: char| is_blank(ch));
        assert(line.skip(0) =~= line);
        lemma_lead_len(line.skip(b), |ch: char| is_blank(ch));
        lemma_lead_len(line.skip(c), |ch: char| is_stamp_char(ch));
        assert(0 <= a && a + 10 <= line.len());
        assert(b <= c <= t <= line.len());
        let stamp = line.subrange(c, t);
        let ms = idx_timestamp_spec(stamp)->Some_0;
        let q = seq![
            Piece::<TimePoint>::Filler(line.take(a)),
            Piece::Filler(timestamp_keyword()),
            Piece::Filler(line.subrange(b, c)),
            Piece::Other(TimePoint::from_ms_spec(ms)),
            Piece::Filler(line.skip(t)),
        ];
        assert(p == q);
        assert(q.drop_last().drop_last().drop_last().drop_last().drop_last() =~= Seq::<
            Piece<TimePoint>,
        >::empty());
        assert(q.drop_last().drop_last().drop_last().drop_last() =~= seq![
            Piece::<TimePoint>::Filler(line.take(a)),
        ]);
        assert(q.drop_last().drop_last().drop_last() =~= seq![
            Piece::<TimePoint>::Filler(line.take(a)),
            Piece::Filler(timestamp_keyword()),
        ]);
        assert(q.drop_last().drop_last() =~= seq![
            Piece::<TimePoint>::Filler(line.take(a)),
            Piece::Filler(timestamp_keyword()),
            Piece::Filler(line.subrange(b, c)),
        ]);
        assert(render(q, f) == line.take(a) + timestamp_keyword() + line.subrange(b, c) + stamp
            + line.skip(t));
        assert(line.subrange(a, b) == timestamp_keyword());
        assert(line =~= line.take(a) + line.subrange(a, b) + line.subrange(b, c) + stamp + line.skip(
            t,
        ));
    }
}

#[verifier::rlimit(30)]
proof fn lemma_raw_render(lines: Seq<(Seq<char>, Seq<char>)>, k: int)
    requires
        0 <= k <= lines.len(),
        idx_raw(lines, k) is Ok,
        forall|j: int| 0 <= j < lines.len() ==> idx_line_canonical(#[trigger] lines[j].0),
    ensures
        idx_raw(lines, k) matches Ok(p) && render(p, |t: TimePoint| idx_stamp(t)) == join_pairs(
            lines.take(k),
        ),
    decreases k,
{
    let f = |t: TimePoint| idx_stamp(t);
    if k == 0 {
        assert(lines.take(0) =~= Seq::<(Seq<char>, Seq<char>)>::empty());
    } else {
        lemma_raw_render(lines, k - 1);
        let prev = idx_raw(lines, k - 1)->Ok_0;
        let p = idx_line_pieces(lines[k - 1].0, k - 1)->Ok_0;
        assert(idx_line_canonical(lines[k - 1].0));
        lemma_line_render(lines[k - 1].0, k - 1);
        let tail = seq![Piece::<TimePoint>::Filler(lines[k - 1].1)];
        lemma_render_concat(prev + p, tail, f);
        lemma_render_concat(prev, p, f);
        assert(tail.drop_last() =~= Seq::<Piece<TimePoint>>::empty());
        reveal_with_fuel(render, 2);
        assert(render(tail, f) =~= lines[k - 1].1);
        lemma_join_pairs_take(lines, k - 1);
    }
}

/// Writing a parsed file gives back the text it was read from, byte order mark and line endings
/// included, when each timestamp in it is written the way the writer writes timestamps.
#[verifier::rlimit(30)]
pub proof fn law_idx_parse_then_write(s: Seq<char>)
    requires
        idx_parse_spec(s) is Ok,
        idx_canonical(s),
    ensures
        idx_parse_spec(s) matches Ok(p) && render(p, |t: TimePoint| idx_stamp(t)) == s,
{
    let f = |t: TimePoint| idx_stamp(t);
    let body = without_bom(s);
    let bom = s.take(s.len() - body.len());
    let lines = nd_lines(body, 0);
    let raw = idx_raw(lines, lines.len() as int)->Ok_0;
    lemma_raw_render(lines, lines.len() as int);
    assert(lines.take(lines.len() as int) =~= lines);
    law_lines_join_back(body, 0);
    assert(body.skip(0) =~= body);
    let head = seq![Piece::<TimePoint>::Filler(bom)];
    lemma_render_concat(head, raw, f);
    assert(head.drop_last() =~= Seq::<Piece<TimePoint>>::empty());
    reveal_with_fuel(render, 2);
    assert(render(head, f) =~= bom);
    law_dedup_keeps_text(head + raw, f);
    assert(bom + body =~= s);
}

/// Every time that is not negative reads back from the way the writer writes it.
pub proof fn law_idx_stamp_round_trip(t: TimePoint)
    requires
        0 <= t@,
    ensures
        idx_timestamp_spec(idx_stamp(t)) == Some(t@),
{
    let a = t@;
    crate::formats::common::lemma_clock_parts(a);
    let h = (a / 3600000) as nat;
    let m = ((a / 60000) % 60) as nat;
    let sec = ((a / 1000) % 60) as nat;
    let ms = (a % 1000) as nat;
    let p1 = padded(h, 2);
    let p2 = padded(m, 2);
    let p3 = padded(sec, 2);
    let p4 = padded(ms, 3);
    crate::formats::common::lemma_padded_value(h, 2);
    crate::formats::common::lemma_padded_value(m, 2);
    crate::formats::common::lemma_padded_value(sec, 2);
    crate::formats::common::lemma_padded_value(ms, 3);
    let s = idx_stamp(t);
    assert(s =~= p1 + seq![':'] + p2 + seq![':'] + p3 + seq![':'] + p4);
    let i1 = p1.len() as int;
    let i2 = i1 + 1 + p2.len();
    let i3 = i2 + 1 + p3.len();
    assert(s.subrange(0, i1) =~= p1);
    assert(s.subrange(i1 + 1, i2) =~= p2);
    assert(s.subrange(i2 + 1, i3) =~= p3);
    assert(s.subrange(i3 + 1, s.len() as int) =~= p4);
    assert(s[i1] == ':' && s[i2] == ':' && s[i3] == ':');
    crate::formats::common::lemma_number_at_padded(s, 0, h, 2);
    crate::formats::common::lemma_number_at_padded(s, i1 + 1, m, 2);
    crate::formats::common::lemma_number_at_padded(s, i2 + 1, sec, 2);
    crate::formats::common::lemma_number_at_padded(s, i3 + 1, ms, 3);
    reveal(crate::formats::common::hms_at);
}

} // verus!
