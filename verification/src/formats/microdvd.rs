//! `MicroDVD` (`.sub` text) files.
//!
//! Times are frame numbers; the frame rate converts them to and from milliseconds. The frame
//! rate is the exact fraction `num / den` frames per second.

use crate::errors::{Error, MicroDvdError, MicroDvdErrorKind, ParseError};
use crate::formats::common::{lines_of, mdvd_line, mdvd_line_spec, std_lines};
use crate::formats::srt::{entry_models, without_bom};
use crate::formats::SubtitleEntry;
use crate::text::{
    chars_of, chars_eq, chars_view, extend_chars, push_signed, signed_padded, slice_of, string_of,
    utf8_of,
};
use crate::timetypes::{TimePoint, TimeSpan, tdiv};
use vstd::prelude::*;

verus! {

broadcast use crate::timetypes::group_time_lemmas;

/// A frame rate of `num / den` frames per second; neither is zero.
#[derive(Debug, Clone, Copy, PartialEq, Eq, Structural)]
pub struct Fps {
    num: u32,
    den: u32,
}

impl Fps {
    #[verifier::type_invariant]
    spec fn inv(self) -> bool {
        self.num > 0 && self.den > 0
    }

    /// The number of frames in `den()` seconds.
    pub closed spec fn num(self) -> int {
        self.num as int
    }

    /// The number of seconds that `num()` frames take.
    pub closed spec fn den(self) -> int {
        self.den as int
    }

    /// The frame rate `num / den` frames per second, if neither is zero.
    pub fn new(num: u32, den: u32) -> (r: Option<Fps>)
        ensures
            r is Some <==> (num > 0 && den > 0),
            r matches Some(f) ==> f.num() == num && f.den() == den,
    {
        if num > 0 && den > 0 {
            Some(Fps { num, den })
        } else {
            None
        }
    }

}

/// `x` clamped into the range of `i64`, as a cast from a float does it.
pub open spec fn saturate(x: int) -> int {
    if x > i64::MAX {
        i64::MAX as int
    } else if x < i64::MIN {
        i64::MIN as int
    } else {
        x
    }
}

/// The start of frame `frame`, in milliseconds rounded towards zero.
pub open spec fn frame_to_ms(frame: int, fps: Fps) -> int {
    saturate(tdiv(frame * 1000 * fps.den(), fps.num()))
}

/// The frame that `ms` milliseconds fall into, rounded towards zero.
pub open spec fn ms_to_frame(ms: int, fps: Fps) -> int {
    saturate(tdiv(ms * fps.num(), 1000 * fps.den()))
}

fn clamp_i128(x: i128) -> (r: i64)
    ensures
        r == saturate(x as int),
{
    if x > i64::MAX as i128 {
        i64::MAX
    } else if x < i64::MIN as i128 {
        i64::MIN
    } else {
        x as i64
    }
}

/// Division rounding towards zero of a non-zero positive divisor.
fn div_trunc(a: i128, d: i128) -> (r: i128)
    requires
        d > 0,
        a > i128::MIN,
    ensures
        r == tdiv(a as int, d as int),
{
    if a >= 0 {
        a / d
    } else {
        -((-a) / d)
    }
}

fn frames_to_msecs(frame: i64, fps: Fps) -> (r: i64)
    ensures
        r == frame_to_ms(frame as int, fps),
{
    proof {
        use_type_invariant(fps);
    }
    assert((frame as int) * 1000 * fps.den <= 0x8000_0000_0000_0000 * 1000 * 0x1_0000_0000) by (nonlinear_arith)
        requires
            fps.den <= 0xffff_ffff,
            i64::MIN <= frame <= i64::MAX,
    {
    }
    assert((frame as int) * 1000 * fps.den >= -0x8000_0000_0000_0000 * 1000 * 0x1_0000_0000) by (nonlinear_arith)
        requires
            fps.den <= 0xffff_ffff,
            i64::MIN <= frame <= i64::MAX,
    {
    }
    let p = (frame as i128) * 1000 * (fps.den as i128);
    clamp_i128(div_trunc(p, fps.num as i128))
}

fn msecs_to_frames(ms: i64, fps: Fps) -> (r: i64)
    ensures
        r == ms_to_frame(ms as int, fps),
{
    proof {
        use_type_invariant(fps);
    }
    assert((ms as int) * fps.num <= 0x8000_0000_0000_0000 * 0x1_0000_0000) by (nonlinear_arith)
        requires
            fps.num <= 0xffff_ffff,
            i64::MIN <= ms <= i64::MAX,
    {
    }
    assert((ms as int) * fps.num >= -0x8000_0000_0000_0000 * 0x1_0000_0000) by (nonlinear_arith)
        requires
            fps.num <= 0xffff_ffff,
            i64::MIN <= ms <= i64::MAX,
    {
    }
    let p = (ms as i128) * (fps.num as i128);
    clamp_i128(div_trunc(p, 1000 * (fps.den as i128)))
}

// ---------------------------------------------------------------------------------------------
// letter case, as the standard library decides it

/// Whether `char::is_uppercase` holds of `c`.
pub uninterp spec fn char_is_uppercase(c: char) -> bool;

/// What `char::to_lowercase` gives for `c`.
pub uninterp spec fn char_lowercase(c: char) -> Seq<char>;

/// What `char::to_uppercase` gives for `c`.
pub uninterp spec fn char_uppercase(c: char) -> Seq<char>;

/// `char::is_uppercase`: the Unicode `Uppercase` property of `c`.
#[verifier::external_body]
fn is_uppercase(c: char) -> (b: bool)
    ensures
        b == char_is_uppercase(c),
{
    c.is_uppercase()
}

/// `char::to_lowercase`: the characters of the Unicode lower-case mapping of `c`.
#[verifier::external_body]
fn lowercase_of(c: char) -> (r: Vec<char>)
    ensures
        r@ == char_lowercase(c),
{
    c.to_lowercase().collect()
}

/// `char::to_uppercase`: the characters of the Unicode upper-case mapping of `c`.
#[verifier::external_body]
fn uppercase_of(c: char) -> (r: Vec<char>)
    ensures
        r@ == char_uppercase(c),
{
    c.to_uppercase().collect()
}

/// `s` with its first character mapped to lower case.
pub open spec fn lower_first(s: Seq<char>) -> Seq<char> {
    if s.len() == 0 {
        s
    } else {
        char_lowercase(s[0]) + s.skip(1)
    }
}

/// `s` with its first character mapped to upper case.
pub open spec fn upper_first(s: Seq<char>) -> Seq<char> {
    if s.len() == 0 {
        s
    } else {
        char_uppercase(s[0]) + s.skip(1)
    }
}

fn map_first(s: &Vec<char>, upper: bool) -> (r: Vec<char>)
    ensures
        r@ == (if upper {
            upper_first(s@)
        } else {
            lower_first(s@)
        }),
{
    if s.len() == 0 {
        return Vec::new();
    }
    let mut r = if upper {
        uppercase_of(s[0])
    } else {
        lowercase_of(s[0])
    };
    let rest = slice_of(s.as_slice(), 1, s.len());
    extend_chars(&mut r, rest.as_slice());
    r
}

/// A tag whose first letter is upper case applies to every sub-line of its line.
pub open spec fn is_container(f: Seq<char>) -> bool {
    f.len() > 0 && char_is_uppercase(f[0])
}

// ---------------------------------------------------------------------------------------------
// the model and the parse

/// One sub-line of a `MicroDVD` file, in specifications.
pub struct MdvdLineModel {
    pub start: int,
    pub end: int,
    pub formatting: Seq<Seq<char>>,
    pub text: Seq<char>,
}

/// The tags of one sub-line that apply to the whole line (`want`) or to the sub-line alone,
/// each with its first letter in lower case.
pub open spec fn tag_kind(tags: Seq<Seq<char>>, want: bool) -> Seq<Seq<char>>
    decreases tags.len(),
{
    if tags.len() == 0 {
        Seq::empty()
    } else if is_container(tags.last()) == want {
        tag_kind(tags.drop_last(), want).push(lower_first(tags.last()))
    } else {
        tag_kind(tags.drop_last(), want)
    }
}

/// The whole-line tags of every sub-line.
pub open spec fn all_containers(tagss: Seq<Seq<Seq<char>>>) -> Seq<Seq<char>>
    decreases tagss.len(),
{
    if tagss.len() == 0 {
        Seq::empty()
    } else {
        all_containers(tagss.drop_last()) + tag_kind(tagss.last(), true)
    }
}

/// The tag texts of every sub-line of `s`.
pub open spec fn tag_texts(s: Seq<char>, subs: Seq<(Seq<(int, int)>, int, int)>) -> Seq<Seq<Seq<char>>> {
    subs.map_values(
        |sub: (Seq<(int, int)>, int, int)| sub.0.map_values(|b: (int, int)| s.subrange(b.0, b.1)),
    )
}

/// The sub-lines of the line `s`.
pub open spec fn line_models(s: Seq<char>, start: int, end: int, subs: Seq<(Seq<(int, int)>, int, int)>) -> Seq<
    MdvdLineModel,
> {
    let tags = tag_texts(s, subs);
    Seq::new(
        subs.len(),
        |k: int|
            MdvdLineModel {
                start,
                end,
                formatting: all_containers(tags) + tag_kind(tags[k], false),
                text: s.subrange(subs[k].1, subs[k].2),
            },
    )
}

/// Why a `MicroDVD` file does not parse: the number and text of the offending line.
pub struct MdvdFailure {
    pub line_num: int,
    pub line: Seq<char>,
}

pub open spec fn mdvd_failure(e: MicroDvdError) -> MdvdFailure {
    match e.kind {
        MicroDvdErrorKind::ExpectedSubtitleLine { line } => MdvdFailure {
            line_num: e.line_num as int,
            line: line@,
        },
    }
}

/// The sub-lines of the first `k` lines.
pub open spec fn mdvd_fold(lines: Seq<Seq<char>>, k: int) -> Result<Seq<MdvdLineModel>, MdvdFailure>
    decreases k,
{
    if k <= 0 {
        Ok(Seq::empty())
    } else {
        match mdvd_fold(lines, k - 1) {
            Err(e) => Err(e),
            Ok(prev) => match mdvd_line_spec(lines[k - 1]) {
                None => Err(MdvdFailure { line_num: k - 1, line: lines[k - 1] }),
                Some((a, b, subs)) => Ok(prev + line_models(lines[k - 1], a, b, subs)),
            },
        }
    }
}

/// The sub-lines of a whole `MicroDVD` file.
pub open spec fn mdvd_parse_spec(s: Seq<char>) -> Result<Seq<MdvdLineModel>, MdvdFailure> {
    let lines = std_lines(without_bom(s), 0);
    mdvd_fold(lines, lines.len() as int)
}

/// The entries that the sub-lines stand for at frame rate `fps`.
pub open spec fn mdvd_entries(v: Seq<MdvdLineModel>, fps: Fps) -> Seq<(TimeSpan, Option<Seq<char>>)> {
    v.map_values(
        |l: MdvdLineModel|
            (
                TimeSpan {
                    start: TimePoint::from_ms_spec(frame_to_ms(l.start, fps)),
                    end: TimePoint::from_ms_spec(frame_to_ms(l.end, fps)),
                },
                Some(l.text),
            ),
    )
}

/// The sub-lines after new entries were written into them at frame rate `fps`.
pub open spec fn mdvd_updated(v: Seq<MdvdLineModel>, e: Seq<SubtitleEntry>, fps: Fps) -> Seq<MdvdLineModel> {
    Seq::new(
        v.len(),
        |k: int|
            MdvdLineModel {
                start: ms_to_frame(e[k].timespan.start@, fps),
                end: ms_to_frame(e[k].timespan.end@, fps),
                formatting: v[k].formatting,
                text: match e[k].text() {
                    Some(t) => t,
                    None => v[k].text,
                },
            },
    )
}

// ---------------------------------------------------------------------------------------------
// writing

/// Whether `a` orders before `b` as `String`s do.
pub open spec fn str_lt(a: Seq<char>, b: Seq<char>) -> bool
    decreases a.len(),
{
    if a.len() == 0 {
        b.len() > 0
    } else if b.len() == 0 {
        false
    } else if a[0] != b[0] {
        (a[0] as u32) < (b[0] as u32)
    } else {
        str_lt(a.skip(1), b.skip(1))
    }
}

/// `x` added to the ascending list of distinct strings `set`.
pub open spec fn set_insert(set: Seq<Seq<char>>, x: Seq<char>) -> Seq<Seq<char>>
    decreases set.len(),
{
    if set.len() == 0 {
        seq![x]
    } else if set.last() == x {
        set
    } else if str_lt(set.last(), x) {
        set.push(x)
    } else {
        set_insert(set.drop_last(), x).push(set.last())
    }
}

/// The distinct strings of `s` in ascending order.
pub open spec fn as_set(s: Seq<Seq<char>>) -> Seq<Seq<char>>
    decreases s.len(),
{
    if s.len() == 0 {
        Seq::empty()
    } else {
        set_insert(as_set(s.drop_last()), s.last())
    }
}

/// The elements of `set` that every sub-line of the group carries.
pub open spec fn keep_common(set: Seq<Seq<char>>, g: Seq<MdvdLineModel>) -> Seq<Seq<char>>
    decreases set.len(),
{
    if set.len() == 0 {
        Seq::empty()
    } else if forall|k: int| 0 <= k < g.len() ==> #[trigger] g[k].formatting.contains(set.last()) {
        keep_common(set.drop_last(), g).push(set.last())
    } else {
        keep_common(set.drop_last(), g)
    }
}

/// The elements of `set` that are not in `common`.
pub open spec fn without(set: Seq<Seq<char>>, common: Seq<Seq<char>>) -> Seq<Seq<char>>
    decreases set.len(),
{
    if set.len() == 0 {
        Seq::empty()
    } else if common.contains(set.last()) {
        without(set.drop_last(), common)
    } else {
        without(set.drop_last(), common).push(set.last())
    }
}

/// The tags, each in braces, with the first letter mapped to upper or lower case.
pub open spec fn tags_text(tags: Seq<Seq<char>>, upper: bool) -> Seq<char>
    decreases tags.len(),
{
    if tags.len() == 0 {
        Seq::empty()
    } else {
        tags_text(tags.drop_last(), upper) + seq!['{'] + (if upper {
            upper_first(tags.last())
        } else {
            lower_first(tags.last())
        }) + seq!['}']
    }
}

/// The tags that every sub-line of a group of more than one sub-line carries.
pub open spec fn group_common(g: Seq<MdvdLineModel>) -> Seq<Seq<char>> {
    if g.len() == 1 {
        Seq::empty()
    } else {
        keep_common(as_set(g[0].formatting), g)
    }
}

/// The sub-lines `g[..k]` as the writer renders them, separated by `|`.
pub open spec fn sub_lines_text(g: Seq<MdvdLineModel>, common: Seq<Seq<char>>, k: int) -> Seq<char>
    decreases k,
{
    if k <= 0 {
        Seq::empty()
    } else {
        sub_lines_text(g, common, k - 1) + (if k > 1 {
            seq!['|']
        } else {
            Seq::<char>::empty()
        }) + tags_text(without(as_set(g[k - 1].formatting), common), false) + g[k - 1].text
    }
}

/// One group of sub-lines with the same frames as the writer renders it.
pub open spec fn group_text(g: Seq<MdvdLineModel>) -> Seq<char> {
    seq!['{'] + signed_padded(g[0].start, 0) + seq!['}', '{'] + signed_padded(g[0].end, 0) + seq![
        '}',
    ] + tags_text(group_common(g), true) + sub_lines_text(g, group_common(g), g.len() as int)
}

/// Whether `a` does not come after `b` in frame order.
pub open spec fn key_le(a: MdvdLineModel, b: MdvdLineModel) -> bool {
    a.start < b.start || (a.start == b.start && a.end <= b.end)
}

/// `x` inserted into `s` after the last element that does not come after it.
pub open spec fn insert_stable(s: Seq<MdvdLineModel>, x: MdvdLineModel) -> Seq<MdvdLineModel>
    decreases s.len(),
{
    if s.len() == 0 || key_le(s.last(), x) {
        s.push(x)
    } else {
        insert_stable(s.drop_last(), x).push(s.last())
    }
}

/// The sub-lines sorted by their frames, equal ones keeping their order.
pub open spec fn stable_sort(s: Seq<MdvdLineModel>) -> Seq<MdvdLineModel>
    decreases s.len(),
{
    if s.len() == 0 {
        Seq::empty()
    } else {
        insert_stable(stable_sort(s.drop_last()), s.last())
    }
}

/// Runs of consecutive sub-lines with the same frames.
pub open spec fn frame_groups(s: Seq<MdvdLineModel>) -> Seq<Seq<MdvdLineModel>>
    decreases s.len(),
{
    if s.len() == 0 {
        Seq::empty()
    } else {
        let g = frame_groups(s.drop_last());
        let x = s.last();
        if g.len() > 0 && g.last()[0].start == x.start && g.last()[0].end == x.end {
            g.update(g.len() - 1, g.last().push(x))
        } else {
            g.push(seq![x])
        }
    }
}

/// The groups as the writer renders them, one line each.
pub open spec fn groups_text(gs: Seq<Seq<MdvdLineModel>>) -> Seq<char>
    decreases gs.len(),
{
    if gs.len() == 0 {
        Seq::empty()
    } else {
        groups_text(gs.drop_last()) + (if gs.len() > 1 {
            seq!['\n']
        } else {
            Seq::<char>::empty()
        }) + group_text(gs.last())
    }
}

/// The whole file as the writer renders it.
pub open spec fn mdvd_text(v: Seq<MdvdLineModel>) -> Seq<char> {
    groups_text(frame_groups(stable_sort(v)))
}

// ---------------------------------------------------------------------------------------------
// the file

/// One sub-line of a `MicroDVD` file.
#[derive(Debug, Clone)]
struct MdvdLine {
    start_frame: i64,
    end_frame: i64,
    formatting: Vec<Vec<char>>,
    text: Vec<char>,
}

impl MdvdLine {
    spec fn model(self) -> MdvdLineModel {
        MdvdLineModel {
            start: self.start_frame as int,
            end: self.end_frame as int,
            formatting: chars_view(self.formatting@),
            text: self.text@,
        }
    }
}

pub open spec fn str_views(v: Seq<&str>) -> Seq<Seq<char>> {
    v.map_values(|t: &str| t@)
}

/// A `MicroDVD` file together with the frame rate that its frames are read with.
#[derive(Debug, Clone)]
pub struct MdvdFile {
    fps: Fps,
    v: Vec<MdvdLine>,
}

impl View for MdvdFile {
    type V = Seq<MdvdLineModel>;

    closed spec fn view(&self) -> Seq<MdvdLineModel> {
        self.v@.map_values(|l: MdvdLine| l.model())
    }
}

/// Copies the strings.
fn copy_strings(v: &Vec<Vec<char>>) -> (r: Vec<Vec<char>>)
    ensures
        chars_view(r@) == chars_view(v@),
{
    let mut r: Vec<Vec<char>> = Vec::new();
    let mut i: usize = 0;
    while i < v.len()
        invariant
            i <= v@.len(),
            chars_view(r@) == chars_view(v@).take(i as int),
        decreases v@.len() - i,
    {
        let c = slice_of(v[i].as_slice(), 0, v[i].len());
        assert(c@ =~= v@[i as int]@);
        let ghost before = chars_view(r@);
        r.push(c);
        assert(chars_view(r@) =~= before.push(c@));
        assert(chars_view(v@).take(i + 1) =~= chars_view(v@).take(i as int).push(v@[i as int]@));
        assert(chars_view(r@) =~= chars_view(v@).take(i + 1));
        i = i + 1;
    }
    assert(chars_view(v@).take(v@.len() as int) =~= chars_view(v@));
    r
}

/// The tags of one sub-line of the kind `want`, first letter in lower case.
fn tags_of_kind(tags: &Vec<&str>, want: bool) -> (r: Vec<Vec<char>>)
    ensures
        chars_view(r@) == tag_kind(str_views(tags@), want),
{
    let ghost tv = str_views(tags@);
    let mut r: Vec<Vec<char>> = Vec::new();
    let mut i: usize = 0;
    while i < tags.len()
        invariant
            i <= tags@.len(),
            tv == str_views(tags@),
            chars_view(r@) == tag_kind(tv.take(i as int), want),
        decreases tags@.len() - i,
    {
        let t = chars_of(tags[i]);
        let c = t.len() > 0 && is_uppercase(t[0]);
        assert(tv.take(i + 1).drop_last() =~= tv.take(i as int));
        if c == want {
            let ghost before = chars_view(r@);
            r.push(map_first(&t, false));
            assert(chars_view(r@) =~= before.push(lower_first(t@)));
        }
        i = i + 1;
    }
    assert(tv.take(tags@.len() as int) =~= tv);
    r
}

impl MdvdFile {
    /// Parses the text of a `MicroDVD` file; its frames are read with the frame rate `fps`.
    pub fn parse(s: &str, fps: Fps) -> (r: Result<MdvdFile, Error>)
        ensures
            match r {
                Ok(f) => mdvd_parse_spec(s@) == Ok::<Seq<MdvdLineModel>, MdvdFailure>(f@) && f.fps()
                    == fps,
                Err(e) => e matches Error::ParsingError(ParseError::MicroDvd(me)) && mdvd_parse_spec(s@)
                    == Err::<Seq<MdvdLineModel>, MdvdFailure>(mdvd_failure(me)),
            },
    {
        match Self::parse_file(s, fps) {
            Ok(f) => Ok(f),
            Err(e) => Err(Error::ParsingError(ParseError::MicroDvd(e))),
        }
    }

    /// The frame rate the frames are read with.
    pub closed spec fn fps(&self) -> Fps {
        self.fps
    }

    fn parse_file(i: &str, fps: Fps) -> (r: Result<MdvdFile, MicroDvdError>)
        ensures
            match r {
                Ok(f) => mdvd_parse_spec(i@) == Ok::<Seq<MdvdLineModel>, MdvdFailure>(f@) && f.fps()
                    == fps,
                Err(e) => mdvd_parse_spec(i@) == Err::<Seq<MdvdLineModel>, MdvdFailure>(
                    mdvd_failure(e),
                ),
            },
    {
        let (_, s) = crate::formats::common::split_bom(i);
        proof {
            if i@.len() > 0 && i@[0] == '\u{feff}' {
                assert(s@ =~= i@.skip(1));
            } else {
                assert(s@ =~= i@);
            }
        }
        let cs = chars_of(s);
        let lines = lines_of(cs.as_slice());
        let ghost lv = chars_view(lines@);
        let mut result: Vec<MdvdLine> = Vec::new();
        assert(result@.map_values(|l: MdvdLine| l.model()) =~= Seq::<MdvdLineModel>::empty());
        let mut k: usize = 0;
        while k < lines.len()
            invariant
                k <= lines@.len(),
                lv == chars_view(lines@),
                lv == std_lines(without_bom(i@), 0),
                mdvd_fold(lv, k as int) == Ok::<Seq<MdvdLineModel>, MdvdFailure>(
                    result@.map_values(|l: MdvdLine| l.model()),
                ),
            decreases lines@.len() - k,
        {
            let line = string_of(lines[k].as_slice());
            assert(line@ == lv[k as int]);
            match mdvd_line(line.as_str()) {
                None => {
                    proof {
                        lemma_mdvd_fold_err(lv, k + 1, lv.len() as int);
                    }
                    return Err(
                        MicroDvdError {
                            line_num: k,
                            kind: MicroDvdErrorKind::ExpectedSubtitleLine { line },
                        },
                    );
                },
                Some((start_frame, end_frame, subs)) => {
                    let ghost before = result@.map_values(|l: MdvdLine| l.model());
                    let mut made = Self::construct_mdvd_lines(
                        start_frame,
                        end_frame,
                        &subs,
                        Ghost(line@),
                    );
                    let ghost mm = made@.map_values(|l: MdvdLine| l.model());
                    result.append(&mut made);
                    assert(result@.map_values(|l: MdvdLine| l.model()) =~= before + mm);
                },
            }
            k = k + 1;
        }
        Ok(MdvdFile { fps, v: result })
    }

    /// The sub-lines of one line: every sub-line gets the whole-line tags of all of them and
    /// its own tags.
    fn construct_mdvd_lines(
        start_frame: i64,
        end_frame: i64,
        subs: &Vec<(Vec<&str>, &str)>,
        line: Ghost<Seq<char>>,
    ) -> (r: Vec<MdvdLine>)
        requires
            mdvd_line_spec(line@) matches Some((a, b, v)) && a == start_frame && b == end_frame
                && subs@.len() == v.len() && (forall|k: int|
                0 <= k < v.len() ==> (#[trigger] subs@[k]).0@.len() == v[k].0.len() && (forall|m: int|
                    0 <= m < v[k].0.len() ==> (#[trigger] subs@[k].0@[m])@ == line@.subrange(
                        v[k].0[m].0,
                        v[k].0[m].1,
                    )) && subs@[k].1@ == line@.subrange(v[k].1, v[k].2)),
        ensures
            mdvd_line_spec(line@) matches Some((a, b, v)) && r@.map_values(|l: MdvdLine| l.model())
                == line_models(line@, a, b, v),
    {
        let ghost v = mdvd_line_spec(line@).unwrap().2;
        let ghost tags = tag_texts(line@, v);
        assert forall|k: int| 0 <= k < v.len() implies #[trigger] str_views(subs@[k].0@) == tags[k] by {
            assert(str_views(subs@[k].0@) =~= tags[k]);
        }
        // the whole-line tags of all sub-lines
        let mut cline: Vec<Vec<char>> = Vec::new();
        let mut k: usize = 0;
        while k < subs.len()
            invariant
                k <= subs@.len(),
                subs@.len() == v.len(),
                tags == tag_texts(line@, v),
                forall|j: int| 0 <= j < v.len() ==> #[trigger] str_views(subs@[j].0@)
                    == tags[j],
                chars_view(cline@) == all_containers(tags.take(k as int)),
            decreases subs@.len() - k,
        {
            let mut more = tags_of_kind(&subs[k].0, true);
            let ghost before = chars_view(cline@);
            let ghost mv = chars_view(more@);
            cline.append(&mut more);
            assert(tags.take(k + 1).drop_last() =~= tags.take(k as int));
            assert(chars_view(cline@) =~= before + mv);
            k = k + 1;
        }
        assert(tags.take(subs@.len() as int) =~= tags);
        let mut out: Vec<MdvdLine> = Vec::new();
        let mut k: usize = 0;
        while k < subs.len()
            invariant
                k <= subs@.len(),
                subs@.len() == v.len(),
                tags == tag_texts(line@, v),
                forall|j: int| 0 <= j < v.len() ==> #[trigger] str_views(subs@[j].0@)
                    == tags[j],
                forall|j: int|
                    0 <= j < v.len() ==> (#[trigger] subs@[j]).1@ == line@.subrange(v[j].1, v[j].2),
                chars_view(cline@) == all_containers(tags),
                out@.len() == k,
                forall|j: int|
                    0 <= j < k ==> (#[trigger] out@[j]).model() == line_models(
                        line@,
                        start_frame as int,
                        end_frame as int,
                        v,
                    )[j],
            decreases subs@.len() - k,
        {
            let mut fmt = copy_strings(&cline);
            let mut own = tags_of_kind(&subs[k].0, false);
            let ghost cv = chars_view(fmt@);
            let ghost ov = chars_view(own@);
            fmt.append(&mut own);
            assert(chars_view(fmt@) =~= cv + ov);
            out.push(
                MdvdLine {
                    start_frame,
                    end_frame,
                    formatting: fmt,
                    text: chars_of(subs[k].1),
                },
            );
            k = k + 1;
        }
        assert(out@.map_values(|l: MdvdLine| l.model()) =~= line_models(
            line@,
            start_frame as int,
            end_frame as int,
            v,
        ));
        out
    }

    /// One entry per sub-line, its frames converted with the frame rate of the file.
    pub fn get_subtitle_entries(&self) -> (r: Result<Vec<SubtitleEntry>, Error>)
        ensures
            r matches Ok(v) && entry_models(v@) == mdvd_entries(self@, self.fps()),
    {
        let mut out: Vec<SubtitleEntry> = Vec::new();
        let mut i: usize = 0;
        while i < self.v.len()
            invariant
                i <= self.v@.len(),
                entry_models(out@) == mdvd_entries(self@, self.fps).take(i as int),
            decreases self.v@.len() - i,
        {
            let l = &self.v[i];
            let span = TimeSpan::new(
                TimePoint::from_msecs(frames_to_msecs(l.start_frame, self.fps)),
                TimePoint::from_msecs(frames_to_msecs(l.end_frame, self.fps)),
            );
            let ghost before = entry_models(out@);
            out.push(SubtitleEntry::new(span, string_of(l.text.as_slice())));
            assert(entry_models(out@) =~= before.push(mdvd_entries(self@, self.fps)[i as int]));
            assert(mdvd_entries(self@, self.fps).take(i + 1) =~= mdvd_entries(self@, self.fps).take(
                i as int,
            ).push(mdvd_entries(self@, self.fps)[i as int]));
            i = i + 1;
        }
        assert(mdvd_entries(self@, self.fps).take(self.v@.len() as int) =~= mdvd_entries(
            self@,
            self.fps,
        ));
        Ok(out)
    }

    /// Writes the timespans (converted to frames) and, where the entries carry one, the texts
    /// into the sub-lines.
    pub fn update_subtitle_entries(&mut self, new_subtitle_entries: &[SubtitleEntry]) -> (r: Result<
        (),
        Error,
    >)
        ensures
            final(self).fps() == old(self).fps(),
            match r {
                Ok(()) => old(self)@.len() == new_subtitle_entries@.len() && final(self)@ == mdvd_updated(
                    old(self)@,
                    new_subtitle_entries@,
                    old(self).fps(),
                ),
                Err(e) => old(self)@.len() != new_subtitle_entries@.len() && final(self)@ == old(self)@
                    && e == (Error::EntryCountMismatch {
                    expected: old(self)@.len() as usize,
                    provided: new_subtitle_entries@.len() as usize,
                }),
            },
    {
        if self.v.len() != new_subtitle_entries.len() {
            return Err(
                Error::EntryCountMismatch {
                    expected: self.v.len(),
                    provided: new_subtitle_entries.len(),
                },
            );
        }
        let ghost old_v = self@;
        let fps = self.fps;
        let mut taken: Vec<MdvdLine> = Vec::new();
        std::mem::swap(&mut taken, &mut self.v);
        let ghost orig = taken@;
        let mut rev = crate::text::reversed(taken);
        let n = rev.len();
        let mut k: usize = 0;
        while k < n
            invariant
                k <= n,
                n == orig.len(),
                n == new_subtitle_entries@.len(),
                fps == self.fps,
                old_v == orig.map_values(|l: MdvdLine| l.model()),
                rev@.len() == n - k,
                forall|j: int| 0 <= j < rev@.len() ==> #[trigger] rev@[j] == orig[n - 1 - j],
                self.v@.len() == k,
                forall|j: int|
                    0 <= j < k ==> (#[trigger] self.v@[j]).model() == mdvd_updated(
                        old_v,
                        new_subtitle_entries@,
                        fps,
                    )[j],
            decreases n - k,
        {
            let mut line = rev.pop().unwrap();
            assert(line == orig[k as int]);
            let e = &new_subtitle_entries[k];
            line.start_frame = msecs_to_frames(e.timespan.start.msecs(), fps);
            line.end_frame = msecs_to_frames(e.timespan.end.msecs(), fps);
            match &e.line {
                Some(text) => {
                    line.text = chars_of(text.as_str());
                },
                None => {},
            }
            self.v.push(line);
            k = k + 1;
        }
        assert(self@ =~= mdvd_updated(old_v, new_subtitle_entries@, fps));
        Ok(())
    }
}

/// A failure stays a failure, however many lines follow.
pub proof fn lemma_mdvd_fold_err(lines: Seq<Seq<char>>, k: int, m: int)
    requires
        0 <= k <= m,
        mdvd_fold(lines, k) is Err,
    ensures
        mdvd_fold(lines, m) == mdvd_fold(lines, k),
    decreases m - k,
{
    if m > k {
        lemma_mdvd_fold_err(lines, k, m - 1);
    }
}

// ---------------------------------------------------------------------------------------------
// writing, in code

/// Whether `a` orders before `b` as `String`s do.
fn str_less(a: &Vec<char>, b: &Vec<char>) -> (r: bool)
    ensures
        r == str_lt(a@, b@),
{
    let mut i: usize = 0;
    assert(a@.skip(0) =~= a@);
    assert(b@.skip(0) =~= b@);
    while i < a.len() && i < b.len()
        invariant
            i <= a@.len(),
            i <= b@.len(),
            str_lt(a@, b@) == str_lt(a@.skip(i as int), b@.skip(i as int)),
        decreases a@.len() - i,
    {
        if a[i] != b[i] {
            return (a[i] as u32) < (b[i] as u32);
        }
        assert(a@.skip(i as int).skip(1) =~= a@.skip(i + 1));
        assert(b@.skip(i as int).skip(1) =~= b@.skip(i + 1));
        i = i + 1;
    }
    i < b.len()
}

proof fn lemma_set_insert_suffix(s: Seq<Seq<char>>, x: Seq<char>, j: int)
    requires
        0 <= j <= s.len(),
        forall|m: int| j <= m < s.len() ==> s[m] != x && !str_lt(#[trigger] s[m], x),
    ensures
        set_insert(s, x) == set_insert(s.take(j), x) + s.skip(j),
    decreases s.len() - j,
{
    if j < s.len() {
        lemma_set_insert_suffix(s.drop_last(), x, j);
        assert(s.drop_last().take(j) =~= s.take(j));
        assert(s.drop_last().skip(j).push(s.last()) =~= s.skip(j));
        assert(set_insert(s.take(j), x) + s.drop_last().skip(j) + seq![s.last()] =~= set_insert(
            s.take(j),
            x,
        ) + s.skip(j));
    } else {
        assert(s.take(j) =~= s);
        assert(s.skip(j) =~= Seq::<Seq<char>>::empty());
        assert(set_insert(s, x) + Seq::<Seq<char>>::empty() =~= set_insert(s, x));
    }
}

/// Adds `x` to the ascending list of distinct strings `set`.
fn set_add(set: &mut Vec<Vec<char>>, x: &Vec<char>)
    ensures
        chars_view(final(set)@) == set_insert(chars_view(old(set)@), x@),
{
    let ghost sv = chars_view(set@);
    let mut j = set.len();
    while j > 0
        invariant
            j <= set@.len(),
            sv == chars_view(set@),
            set@ == old(set)@,
            forall|m: int| j <= m < sv.len() ==> sv[m] != x@ && !str_lt(#[trigger] sv[m], x@),
        ensures
            j <= set@.len(),
            sv == chars_view(set@),
            set@ == old(set)@,
            forall|m: int| j <= m < sv.len() ==> sv[m] != x@ && !str_lt(#[trigger] sv[m], x@),
            j == 0 || (sv[j - 1] != x@ && str_lt(sv[j - 1], x@)),
        decreases j,
    {
        if chars_eq(set[j - 1].as_slice(), x.as_slice()) {
            proof {
                lemma_set_insert_suffix(sv, x@, j as int);
                assert(sv.take(j as int).last() == x@);
                assert(sv.take(j as int) + sv.skip(j as int) =~= sv);
            }
            return;
        }
        assert(sv[j - 1] == set@[j - 1]@);
        if str_less(&set[j - 1], x) {
            break;
        }
        j = j - 1;
    }
    proof {
        lemma_set_insert_suffix(sv, x@, j as int);
        if j > 0 {
            assert(sv.take(j as int).last() == sv[j - 1]);
            assert(sv.take(j as int).drop_last() =~= sv.take(j - 1));
        } else {
            assert(sv.take(0) =~= Seq::<Seq<char>>::empty());
        }
    }
    let c = slice_of(x.as_slice(), 0, x.len());
    assert(c@ =~= x@);
    set.insert(j, c);
    assert(chars_view(set@) =~= sv.take(j as int).push(x@) + sv.skip(j as int));
}

/// The distinct strings of `f` in ascending order.
fn to_set(f: &Vec<Vec<char>>) -> (r: Vec<Vec<char>>)
    ensures
        chars_view(r@) == as_set(chars_view(f@)),
{
    let mut r: Vec<Vec<char>> = Vec::new();
    let mut i: usize = 0;
    while i < f.len()
        invariant
            i <= f@.len(),
            chars_view(r@) == as_set(chars_view(f@).take(i as int)),
        decreases f@.len() - i,
    {
        set_add(&mut r, &f[i]);
        assert(chars_view(f@).take(i + 1).drop_last() =~= chars_view(f@).take(i as int));
        i = i + 1;
    }
    assert(chars_view(f@).take(f@.len() as int) =~= chars_view(f@));
    r
}

fn contains_str(v: &Vec<Vec<char>>, x: &Vec<char>) -> (r: bool)
    ensures
        r == chars_view(v@).contains(x@),
{
    let mut i: usize = 0;
    while i < v.len()
        invariant
            i <= v@.len(),
            forall|m: int| 0 <= m < i ==> chars_view(v@)[m] != x@,
        decreases v@.len() - i,
    {
        if chars_eq(v[i].as_slice(), x.as_slice()) {
            assert(chars_view(v@)[i as int] == x@);
            return true;
        }
        i = i + 1;
    }
    false
}

/// The models of the sub-lines `idx` of `lines`.
pub open spec fn group_models(lines: Seq<MdvdLineModel>, idx: Seq<usize>) -> Seq<MdvdLineModel> {
    idx.map_values(|i: usize| lines[i as int])
}

/// The tags of `set` that every sub-line of the group carries.
fn common_of(set: &Vec<Vec<char>>, lines: &Vec<MdvdLine>, idx: &Vec<usize>) -> (r: Vec<Vec<char>>)
    requires
        forall|k: int| 0 <= k < idx@.len() ==> #[trigger] idx@[k] < lines@.len(),
    ensures
        chars_view(r@) == keep_common(
            chars_view(set@),
            group_models(lines@.map_values(|l: MdvdLine| l.model()), idx@),
        ),
{
    let ghost g = group_models(lines@.map_values(|l: MdvdLine| l.model()), idx@);
    let mut r: Vec<Vec<char>> = Vec::new();
    let mut i: usize = 0;
    while i < set.len()
        invariant
            i <= set@.len(),
            g == group_models(lines@.map_values(|l: MdvdLine| l.model()), idx@),
            forall|k: int| 0 <= k < idx@.len() ==> #[trigger] idx@[k] < lines@.len(),
            chars_view(r@) == keep_common(chars_view(set@).take(i as int), g),
        decreases set@.len() - i,
    {
        let mut all = true;
        let mut k: usize = 0;
        while k < idx.len()
            invariant
                k <= idx@.len(),
                i < set@.len(),
                g == group_models(lines@.map_values(|l: MdvdLine| l.model()), idx@),
                forall|k: int| 0 <= k < idx@.len() ==> #[trigger] idx@[k] < lines@.len(),
                all == forall|m: int| 0 <= m < k ==> #[trigger] g[m].formatting.contains(set@[i as int]@),
            decreases idx@.len() - k,
        {
            let c = contains_str(&lines[idx[k]].formatting, &set[i]);
            assert(g[k as int] == lines@[idx@[k as int] as int].model());
            assert(c == g[k as int].formatting.contains(set@[i as int]@));
            let ghost before = all;
            all = all && c;
            assert(all == forall|m: int| 0 <= m < k + 1 ==> #[trigger] g[m].formatting.contains(set@[i as int]@)) by {
                if all {
                    assert forall|m: int| 0 <= m < k + 1 implies #[trigger] g[m].formatting.contains(set@[i as int]@) by {
                        if m < k {
                            assert(before);
                        }
                    }
                }
            }
            k = k + 1;
        }
        let ghost t = chars_view(set@).take(i + 1);
        assert(t.drop_last() =~= chars_view(set@).take(i as int));
        assert(t.last() == set@[i as int]@);
        if all {
            let ghost before = chars_view(r@);
            let c = slice_of(set[i].as_slice(), 0, set[i].len());
            assert(c@ =~= set@[i as int]@);
            r.push(c);
            assert(chars_view(r@) =~= before.push(c@));
        }
        i = i + 1;
    }
    assert(chars_view(set@).take(set@.len() as int) =~= chars_view(set@));
    r
}

/// The elements of `set` that are not in `common`.
fn without_exec(set: &Vec<Vec<char>>, common: &Vec<Vec<char>>) -> (r: Vec<Vec<char>>)
    ensures
        chars_view(r@) == without(chars_view(set@), chars_view(common@)),
{
    let mut r: Vec<Vec<char>> = Vec::new();
    let mut i: usize = 0;
    while i < set.len()
        invariant
            i <= set@.len(),
            chars_view(r@) == without(chars_view(set@).take(i as int), chars_view(common@)),
        decreases set@.len() - i,
    {
        let ghost t = chars_view(set@).take(i + 1);
        assert(t.drop_last() =~= chars_view(set@).take(i as int));
        assert(t.last() == set@[i as int]@);
        if !contains_str(common, &set[i]) {
            let ghost before = chars_view(r@);
            let c = slice_of(set[i].as_slice(), 0, set[i].len());
            assert(c@ =~= set@[i as int]@);
            r.push(c);
            assert(chars_view(r@) =~= before.push(c@));
        }
        i = i + 1;
    }
    assert(chars_view(set@).take(set@.len() as int) =~= chars_view(set@));
    r
}

/// Appends the tags, each in braces, first letter mapped to upper or lower case.
fn push_tags(out: &mut Vec<char>, tags: &Vec<Vec<char>>, upper: bool)
    ensures
        final(out)@ == old(out)@ + tags_text(chars_view(tags@), upper),
{
    let mut i: usize = 0;
    while i < tags.len()
        invariant
            i <= tags@.len(),
            out@ == old(out)@ + tags_text(chars_view(tags@).take(i as int), upper),
        decreases tags@.len() - i,
    {
        let ghost before = out@;
        out.push('{');
        let m = map_first(&tags[i], upper);
        extend_chars(out, m.as_slice());
        out.push('}');
        let ghost t = chars_view(tags@).take(i + 1);
        assert(t.drop_last() =~= chars_view(tags@).take(i as int));
        assert(t.last() == tags@[i as int]@);
        assert(out@ =~= old(out)@ + tags_text(t, upper));
        i = i + 1;
    }
    assert(chars_view(tags@).take(tags@.len() as int) =~= chars_view(tags@));
}

impl MdvdFile {
    /// Appends one group of sub-lines with the same frames.
    fn push_group(&self, out: &mut Vec<char>, idx: &Vec<usize>)
        requires
            idx@.len() > 0,
            forall|k: int| 0 <= k < idx@.len() ==> #[trigger] idx@[k] < self.v@.len(),
        ensures
            final(out)@ == old(out)@ + group_text(group_models(self@, idx@)),
    {
        let ghost g = group_models(self@, idx@);
        let first = &self.v[idx[0]];
        assert(g[0] == first.model());
        out.push('{');
        push_signed(out, first.start_frame, 0);
        out.push('}');
        out.push('{');
        push_signed(out, first.end_frame, 0);
        out.push('}');
        let common = if idx.len() == 1 {
            Vec::new()
        } else {
            let s0 = to_set(&first.formatting);
            common_of(&s0, &self.v, idx)
        };
        assert(chars_view(common@) == group_common(g)) by {
            if idx@.len() == 1 {
                assert(chars_view(common@) =~= Seq::<Seq<char>>::empty());
            }
        }
        push_tags(out, &common, true);
        let ghost head = out@;
        let mut k: usize = 0;
        while k < idx.len()
            invariant
                k <= idx@.len(),
                g == group_models(self@, idx@),
                forall|j: int| 0 <= j < idx@.len() ==> #[trigger] idx@[j] < self.v@.len(),
                chars_view(common@) == group_common(g),
                out@ == head + sub_lines_text(g, chars_view(common@), k as int),
            decreases idx@.len() - k,
        {
            if k > 0 {
                out.push('|');
            }
            let line = &self.v[idx[k]];
            assert(g[k as int] == line.model());
            let set = to_set(&line.formatting);
            let own = without_exec(&set, &common);
            push_tags(out, &own, false);
            extend_chars(out, line.text.as_slice());
            assert(out@ =~= head + sub_lines_text(g, chars_view(common@), k + 1));
            k = k + 1;
        }
        assert(out@ =~= old(out)@ + group_text(g));
    }

    /// The file as `MicroDVD` text, in UTF-8: the sub-lines sorted by frames, those with the
    /// same frames joined into one line with their shared tags written once.
    pub fn to_data(&self) -> (r: Result<Vec<u8>, Error>)
        ensures
            r matches Ok(b) && b@ == vstd::utf8::encode_utf8(mdvd_text(self@)),
    {
        let ghost m = self@;
        // stable insertion sort of the positions
        let mut order: Vec<usize> = Vec::new();
        let mut i: usize = 0;
        while i < self.v.len()
            invariant
                i <= self.v@.len(),
                m == self@,
                forall|k: int| 0 <= k < order@.len() ==> #[trigger] order@[k] < i,
                order@.len() == i,
                group_models(m, order@) == stable_sort(m.take(i as int)),
            decreases self.v@.len() - i,
        {
            let x = &self.v[i];
            assert(m[i as int] == x.model());
            let mut j = order.len();
            while j > 0
                invariant
                    j <= order@.len(),
                    m == self@,
                    i < m.len(),
                    m[i as int] == x.model(),
                    forall|k: int| 0 <= k < order@.len() ==> #[trigger] order@[k] < i,
                    forall|k: int|
                        j <= k < order@.len() ==> !key_le(#[trigger] group_models(m, order@)[k], m[i as int]),
                ensures
                    j <= order@.len(),
                    forall|k: int|
                        j <= k < order@.len() ==> !key_le(#[trigger] group_models(m, order@)[k], m[i as int]),
                    j > 0 ==> key_le(group_models(m, order@)[j - 1], m[i as int]),
                decreases j,
            {
                let y = &self.v[order[j - 1]];
                assert(group_models(m, order@)[j - 1] == y.model());
                if y.start_frame < x.start_frame || (y.start_frame == x.start_frame && y.end_frame
                    <= x.end_frame) {
                    break;
                }
                j = j - 1;
            }
            proof {
                lemma_insert_stable_at(group_models(m, order@), m[i as int], j as int);
                assert(m.take(i + 1).drop_last() =~= m.take(i as int));
            }
            let ghost before = order@;
            order.insert(j, i);
            assert(group_models(m, order@) =~= group_models(m, before).take(j as int).push(m[i as int])
                + group_models(m, before).skip(j as int));
            i = i + 1;
        }
        assert(m.take(m.len() as int) =~= m);
        let ghost sorted = stable_sort(m);
        // the runs of equal frames
        let mut groups: Vec<Vec<usize>> = Vec::new();
        let mut k: usize = 0;
        while k < order.len()
            invariant
                k <= order@.len(),
                m == self@,
                order@.len() == m.len(),
                group_models(m, order@) == sorted,
                forall|a: int| 0 <= a < order@.len() ==> #[trigger] order@[a] < m.len(),
                groups@.map_values(|g: Vec<usize>| group_models(m, g@)) == frame_groups(sorted.take(k as int)),
                forall|a: int| 0 <= a < groups@.len() ==> (#[trigger] groups@[a])@.len() > 0,
                forall|a: int, b: int|
                    0 <= a < groups@.len() && 0 <= b < groups@[a]@.len() ==> #[trigger] groups@[a]@[b] < m.len(),
            decreases order@.len() - k,
        {
            let ix = order[k];
            let x = &self.v[ix];
            assert(sorted[k as int] == x.model());
            let ghost gm = groups@.map_values(|g: Vec<usize>| group_models(m, g@));
            assert(sorted.take(k + 1).drop_last() =~= sorted.take(k as int));
            let mut joined = false;
            if groups.len() > 0 {
                let last = groups.len() - 1;
                let f = groups[last][0];
                assert(gm.last()[0] == self.v@[f as int].model());
                if self.v[f].start_frame == x.start_frame && self.v[f].end_frame == x.end_frame {
                    let mut g = groups.pop().unwrap();
                    let ghost gv = g@;
                    g.push(ix);
                    assert(group_models(m, g@) =~= group_models(m, gv).push(x.model()));
                    groups.push(g);
                    assert(groups@.map_values(|g: Vec<usize>| group_models(m, g@)) =~= gm.update(
                        gm.len() - 1,
                        gm.last().push(x.model()),
                    ));
                    joined = true;
                }
            }
            if !joined {
                let g = vec![ix];
                assert(group_models(m, g@) =~= seq![x.model()]);
                groups.push(g);
                assert(groups@.map_values(|g: Vec<usize>| group_models(m, g@)) =~= gm.push(
                    seq![x.model()],
                ));
            }
            k = k + 1;
        }
        assert(sorted.take(order@.len() as int) =~= sorted);
        let ghost gs = groups@.map_values(|g: Vec<usize>| group_models(m, g@));
        let mut out: Vec<char> = Vec::new();
        let mut gi: usize = 0;
        while gi < groups.len()
            invariant
                gi <= groups@.len(),
                m == self@,
                gs == groups@.map_values(|g: Vec<usize>| group_models(m, g@)),
                forall|a: int| 0 <= a < groups@.len() ==> (#[trigger] groups@[a])@.len() > 0,
                forall|a: int, b: int|
                    0 <= a < groups@.len() && 0 <= b < groups@[a]@.len() ==> #[trigger] groups@[a]@[b] < m.len(),
                out@ == groups_text(gs.take(gi as int)),
            decreases groups@.len() - gi,
        {
            if gi != 0 {
                out.push('\n');
            }
            assert(forall|b: int| 0 <= b < groups@[gi as int]@.len() ==> #[trigger] groups@[gi as int]@[b] < m.len());
            self.push_group(&mut out, &groups[gi]);
            assert(gs.take(gi + 1).drop_last() =~= gs.take(gi as int));
            assert(out@ =~= groups_text(gs.take(gi + 1)));
            gi = gi + 1;
        }
        assert(gs.take(groups@.len() as int) =~= gs);
        let text = string_of(out.as_slice());
        Ok(utf8_of(&text))
    }
}

/// Inserting into a list after scanning back over the elements that come after the new one.
proof fn lemma_insert_stable_at(s: Seq<MdvdLineModel>, x: MdvdLineModel, j: int)
    requires
        0 <= j <= s.len(),
        forall|k: int| j <= k < s.len() ==> !key_le(#[trigger] s[k], x),
        j > 0 ==> key_le(s[j - 1], x),
    ensures
        insert_stable(s, x) == s.take(j).push(x) + s.skip(j),
    decreases s.len() - j,
{
    if j < s.len() {
        lemma_insert_stable_at(s.drop_last(), x, j);
        assert(s.drop_last().take(j) =~= s.take(j));
        assert(s.drop_last().skip(j).push(s.last()) =~= s.skip(j));
        assert(s.take(j).push(x) + s.drop_last().skip(j) + seq![s.last()] =~= s.take(j).push(x)
            + s.skip(j));
    } else {
        assert(s.take(j) =~= s);
        assert(s.skip(j) =~= Seq::<MdvdLineModel>::empty());
        if j > 0 {
            assert(s.last() == s[j - 1]);
        }
        assert(s.push(x) + Seq::<MdvdLineModel>::empty() =~= s.push(x));
    }
}

/// A time written as a frame, read back: the start of the frame, in whole milliseconds.
pub open spec fn read_back(ms: int, fps: Fps) -> int {
    frame_to_ms(ms_to_frame(ms, fps), fps)
}

/// Writing entries into a file and reading them back gives each time rounded to the start of its
/// frame, and each text that was written.
pub proof fn law_mdvd_update_then_read(v: Seq<MdvdLineModel>, e: Seq<SubtitleEntry>, fps: Fps)
    requires
        v.len() == e.len(),
    ensures
        mdvd_entries(mdvd_updated(v, e, fps), fps).len() == e.len(),
        forall|k: int|
            0 <= k < e.len() ==> (#[trigger] mdvd_entries(mdvd_updated(v, e, fps), fps)[k]).0 == (
            TimeSpan {
                start: TimePoint::from_ms_spec(read_back(e[k].timespan.start@, fps)),
                end: TimePoint::from_ms_spec(read_back(e[k].timespan.end@, fps)),
            }),
        forall|k: int|
            0 <= k < e.len() && e[k].text() is Some ==> (#[trigger] mdvd_entries(
                mdvd_updated(v, e, fps),
                fps,
            )[k]).1 == e[k].text(),
        forall|k: int|
            0 <= k < e.len() && e[k].text() is None ==> (#[trigger] mdvd_entries(
                mdvd_updated(v, e, fps),
                fps,
            )[k]).1 == mdvd_entries(v, fps)[k].1,
{
}

/// A time that is written as a frame and read back is the start of its frame: not later than the
/// time, and earlier by less than one frame and a millisecond.
pub proof fn law_frame_rounding(ms: int, fps: Fps)
    requires
        fps.num() > 0,
        fps.den() > 0,
        0 <= ms <= i64::MAX,
        ms * fps.num() / (1000 * fps.den()) <= i64::MAX,
    ensures
        read_back(ms, fps) <= ms,
        (ms - read_back(ms, fps)) * fps.num() < 1000 * fps.den() + fps.num(),
{
    let n = fps.num();
    let q = 1000 * fps.den();
    let a = ms * n;
    assert(a >= 0) by (nonlinear_arith)
        requires
            ms >= 0,
            n > 0,
            a == ms * n,
    ;
    let f = a / q;
    assert(0 <= f) by (nonlinear_arith)
        requires
            a >= 0,
            q > 0,
            f == a / q,
    ;
    assert(ms_to_frame(ms, fps) == f);
    let fq = f * q;
    assert(fq <= a && a < fq + q) by (nonlinear_arith)
        requires
            a >= 0,
            q > 0,
            f == a / q,
            fq == f * q,
    ;
    let back = fq / n;
    assert(0 <= back && back * n <= fq && fq < back * n + n) by (nonlinear_arith)
        requires
            fq >= 0,
            n > 0,
            back == fq / n,
    ;
    assert(back <= ms) by (nonlinear_arith)
        requires
            back * n <= fq,
            fq <= a,
            a == ms * n,
            n > 0,
    ;
    let d = fps.den();
    assert(f * 1000 * d == fq) by (nonlinear_arith)
        requires
            fq == f * q,
            q == 1000 * d,
    ;
    assert(frame_to_ms(f, fps) == back);
    assert((ms - back) * n < q + n) by (nonlinear_arith)
        requires
            a < fq + q,
            fq < back * n + n,
            a == ms * n,
    ;
}

/// Whether the sub-lines are in frame order.
pub open spec fn frame_sorted(s: Seq<MdvdLineModel>) -> bool {
    forall|i: int, j: int| 0 <= i < j < s.len() ==> key_le(s[i], s[j])
}

proof fn lemma_insert_stable(s: Seq<MdvdLineModel>, x: MdvdLineModel)
    requires
        frame_sorted(s),
    ensures
        frame_sorted(insert_stable(s, x)),
        insert_stable(s, x).to_multiset() == s.to_multiset().insert(x),
        forall|i: int|
            0 <= i < insert_stable(s, x).len() ==> #[trigger] insert_stable(s, x)[i] == x || exists|j: int|
                0 <= j < s.len() && insert_stable(s, x)[i] == s[j],
    decreases s.len(),
{
    broadcast use vstd::seq_lib::group_to_multiset_ensures;

    let r = insert_stable(s, x);
    if s.len() == 0 || key_le(s.last(), x) {
        assert forall|i: int| 0 <= i < r.len() implies #[trigger] r[i] == x || exists|j: int|
            0 <= j < s.len() && r[i] == s[j] by {
            if i < s.len() {
                assert(r[i] == s[i]);
            }
        }
        assert forall|i: int, j: int| 0 <= i < j < r.len() implies key_le(r[i], r[j]) by {
            assert(r[i] == s[i]);
            if j == s.len() {
                if i < s.len() - 1 {
                    assert(key_le(s[i], s[s.len() - 1]));
                }
            } else {
                assert(r[j] == s[j]);
            }
        }
    } else {
        let t = s.drop_last();
        lemma_insert_stable(t, x);
        let q = insert_stable(t, x);
        assert(s.to_multiset() =~= t.to_multiset().insert(s.last())) by {
            assert(t.push(s.last()) =~= s);
        }
        assert forall|i: int| 0 <= i < r.len() implies #[trigger] r[i] == x || exists|j: int|
            0 <= j < s.len() && r[i] == s[j] by {
            if i < q.len() {
                assert(r[i] == q[i]);
                if q[i] != x {
                    let j = choose|j: int| 0 <= j < t.len() && q[i] == t[j];
                    assert(r[i] == s[j]);
                }
            } else {
                assert(r[i] == s[s.len() - 1]);
            }
        }
        assert forall|i: int, j: int| 0 <= i < j < r.len() implies key_le(r[i], r[j]) by {
            if j == r.len() - 1 {
                assert(r[j] == s.last());
                assert(r[i] == q[i]);
                if q[i] != x {
                    let k = choose|k: int| 0 <= k < t.len() && q[i] == t[k];
                    assert(s[k] == t[k]);
                }
            } else {
                assert(r[i] == q[i] && r[j] == q[j]);
            }
        }
    }
}

/// The writer keeps every sub-line, as often as it occurs, and puts them in frame order.
pub proof fn law_stable_sort(s: Seq<MdvdLineModel>)
    ensures
        stable_sort(s).to_multiset() == s.to_multiset(),
        frame_sorted(stable_sort(s)),
    decreases s.len(),
{
    broadcast use vstd::seq_lib::group_to_multiset_ensures;

    if s.len() > 0 {
        law_stable_sort(s.drop_last());
        lemma_insert_stable(stable_sort(s.drop_last()), s.last());
        assert(s.drop_last().push(s.last()) =~= s);
    }
}

proof fn lemma_str_lt_irreflexive(a: Seq<char>)
    ensures
        !str_lt(a, a),
    decreases a.len(),
{
    if a.len() > 0 {
        lemma_str_lt_irreflexive(a.skip(1));
    }
}

proof fn lemma_str_lt_transitive(a: Seq<char>, b: Seq<char>, c: Seq<char>)
    requires
        str_lt(a, b),
        str_lt(b, c),
    ensures
        str_lt(a, c),
    decreases a.len(),
{
    if a.len() > 0 && b.len() > 0 && c.len() > 0 && a[0] == b[0] && b[0] == c[0] {
        lemma_str_lt_transitive(a.skip(1), b.skip(1), c.skip(1));
    }
}

proof fn lemma_str_lt_total(a: Seq<char>, b: Seq<char>)
    requires
        a != b,
    ensures
        str_lt(a, b) || str_lt(b, a),
    decreases a.len(),
{
    if a.len() > 0 && b.len() > 0 && a[0] == b[0] {
        if a.skip(1) == b.skip(1) {
            assert(a =~= seq![a[0]] + a.skip(1));
            assert(b =~= seq![b[0]] + b.skip(1));
        }
        lemma_str_lt_total(a.skip(1), b.skip(1));
    } else if a.len() == 0 && b.len() == 0 {
        assert(a =~= b);
    } else if a.len() > 0 && b.len() > 0 {
        let x = a[0];
        let y = b[0];
        vstd::utf8::char_u32_cast(x, x as u32);
        vstd::utf8::char_u32_cast(y, y as u32);
        assert((x as u32) != (y as u32));
    }
}

/// Whether the strings are in strictly ascending order.
pub open spec fn ascending(set: Seq<Seq<char>>) -> bool {
    forall|i: int, j: int| 0 <= i < j < set.len() ==> str_lt(set[i], set[j])
}

proof fn lemma_set_insert(set: Seq<Seq<char>>, x: Seq<char>)
    requires
        ascending(set),
    ensures
        ascending(set_insert(set, x)),
        forall|y: Seq<char>| #[trigger] set_insert(set, x).contains(y) <==> (set.contains(y) || y == x),
    decreases set.len(),
{
    let r = set_insert(set, x);
    if set.len() == 0 {
        assert forall|y: Seq<char>| #[trigger] r.contains(y) <==> (set.contains(y) || y == x) by {
            if y == x {
                assert(r[0] == x);
            }
        }
    } else if set.last() == x {
        assert forall|y: Seq<char>| #[trigger] r.contains(y) <==> (set.contains(y) || y == x) by {
            if y == x {
                assert(set[set.len() - 1] == x);
            }
        }
    } else if str_lt(set.last(), x) {
        assert forall|i: int, j: int| 0 <= i < j < r.len() implies str_lt(r[i], r[j]) by {
            if j == set.len() && i < set.len() - 1 {
                lemma_str_lt_transitive(set[i], set.last(), x);
            }
        }
        assert forall|y: Seq<char>| #[trigger] r.contains(y) <==> (set.contains(y) || y == x) by {
            if set.contains(y) {
                let k = choose|k: int| 0 <= k < set.len() && set[k] == y;
                assert(r[k] == y);
            }
            if y == x {
                assert(r[set.len() as int] == x);
            }
            if r.contains(y) {
                let k = choose|k: int| 0 <= k < r.len() && r[k] == y;
                if k < set.len() {
                    assert(set[k] == y);
                }
            }
        }
    } else {
        let t = set.drop_last();
        let l = set.last();
        lemma_str_lt_total(l, x);
        lemma_set_insert(t, x);
        let q = set_insert(t, x);
        assert forall|i: int, j: int| 0 <= i < j < r.len() implies str_lt(r[i], r[j]) by {
            if j == r.len() - 1 {
                assert(r[i] == q[i]);
                assert(q.contains(q[i]));
                if q[i] != x {
                    let k = choose|k: int| 0 <= k < t.len() && t[k] == q[i];
                    assert(set[k] == t[k]);
                }
            } else {
                assert(r[i] == q[i] && r[j] == q[j]);
            }
        }
        assert forall|y: Seq<char>| #[trigger] r.contains(y) <==> (set.contains(y) || y == x) by {
            if set.contains(y) {
                let k = choose|k: int| 0 <= k < set.len() && set[k] == y;
                if k < t.len() {
                    assert(t[k] == y);
                    assert(t.contains(y));
                    assert(q.contains(y));
                    let m = choose|m: int| 0 <= m < q.len() && q[m] == y;
                    assert(r[m] == y);
                } else {
                    assert(r[r.len() - 1] == y);
                }
            }
            if y == x {
                assert(q.contains(x));
                let m = choose|m: int| 0 <= m < q.len() && q[m] == x;
                assert(r[m] == x);
            }
            if r.contains(y) {
                let k = choose|k: int| 0 <= k < r.len() && r[k] == y;
                if k < q.len() {
                    assert(q[k] == y);
                    assert(q.contains(y));
                    if y != x {
                        let m = choose|m: int| 0 <= m < t.len() && t[m] == y;
                        assert(set[m] == y);
                    }
                } else {
                    assert(set[set.len() - 1] == y);
                }
            }
        }
    }
}

/// The tags of a sub-line are written in one fixed order: ascending, each once, and exactly the
/// tags the sub-line carries.
pub proof fn law_tags_in_order(s: Seq<Seq<char>>)
    ensures
        ascending(as_set(s)),
        forall|y: Seq<char>| #[trigger] as_set(s).contains(y) <==> s.contains(y),
    decreases s.len(),
{
    if s.len() > 0 {
        law_tags_in_order(s.drop_last());
        lemma_set_insert(as_set(s.drop_last()), s.last());
        assert forall|y: Seq<char>| #[trigger] as_set(s).contains(y) <==> s.contains(y) by {
            if s.drop_last().contains(y) {
                let k = choose|k: int| 0 <= k < s.drop_last().len() && s.drop_last()[k] == y;
                assert(s[k] == y);
            }
            if s.contains(y) {
                let k = choose|k: int| 0 <= k < s.len() && s[k] == y;
                if k < s.len() - 1 {
                    assert(s.drop_last()[k] == y);
                }
            }
        }
    }
}

/// The elements of `set` that `keep_common` keeps are those that every sub-line carries.
proof fn lemma_keep_common(set: Seq<Seq<char>>, g: Seq<MdvdLineModel>)
    ensures
        forall|t: Seq<char>| #[trigger] keep_common(set, g).contains(t) <==> (set.contains(t) && forall|k: int|
            0 <= k < g.len() ==> #[trigger] g[k].formatting.contains(t)),
    decreases set.len(),
{
    if set.len() > 0 {
        let init = set.drop_last();
        lemma_keep_common(init, g);
        assert forall|t: Seq<char>| #[trigger] keep_common(set, g).contains(t) <==> (set.contains(t)
            && forall|k: int| 0 <= k < g.len() ==> #[trigger] g[k].formatting.contains(t)) by {
            if set.contains(t) {
                let j = choose|j: int| 0 <= j < set.len() && set[j] == t;
                if j < set.len() - 1 {
                    assert(init[j] == t);
                }
            }
            if init.contains(t) {
                let j = choose|j: int| 0 <= j < init.len() && init[j] == t;
                assert(set[j] == t);
            }
            let kept = keep_common(init, g);
            if kept.contains(t) {
                let j = choose|j: int| 0 <= j < kept.len() && kept[j] == t;
                assert(kept.push(set.last())[j] == t);
            }
            assert(kept.push(set.last())[kept.len() as int] == set.last());
            if kept.push(set.last()).contains(t) && t != set.last() {
                let j = choose|j: int| 0 <= j < kept.len() + 1 && kept.push(set.last())[j] == t;
                assert(kept[j] == t);
            }
        }
    }
}

/// The elements of `set` that `without` keeps are those that are not in `common`.
proof fn lemma_without(set: Seq<Seq<char>>, common: Seq<Seq<char>>)
    ensures
        forall|t: Seq<char>| #[trigger] without(set, common).contains(t) <==> (set.contains(t)
            && !common.contains(t)),
    decreases set.len(),
{
    if set.len() > 0 {
        let init = set.drop_last();
        lemma_without(init, common);
        assert forall|t: Seq<char>| #[trigger] without(set, common).contains(t) <==> (set.contains(t)
            && !common.contains(t)) by {
            if set.contains(t) {
                let j = choose|j: int| 0 <= j < set.len() && set[j] == t;
                if j < set.len() - 1 {
                    assert(init[j] == t);
                }
            }
            if init.contains(t) {
                let j = choose|j: int| 0 <= j < init.len() && init[j] == t;
                assert(set[j] == t);
            }
            let w = without(init, common);
            if w.contains(t) {
                let j = choose|j: int| 0 <= j < w.len() && w[j] == t;
                assert(w.push(set.last())[j] == t);
            }
            assert(w.push(set.last())[w.len() as int] == set.last());
            if w.push(set.last()).contains(t) && t != set.last() {
                let j = choose|j: int| 0 <= j < w.len() + 1 && w.push(set.last())[j] == t;
                assert(w[j] == t);
            }
        }
    }
}

/// The tags that the writer puts in front of a group of sub-lines with the same frames, as tags
/// of the whole line, are exactly those that every sub-line of a group of more than one carries;
/// and each sub-line's own tags, written after them, together with them are exactly the tags
/// that sub-line carries.
pub proof fn law_group_tags(g: Seq<MdvdLineModel>)
    requires
        g.len() > 0,
    ensures
        forall|t: Seq<char>| #[trigger] group_common(g).contains(t) <==> (g.len() > 1 && forall|k: int|
            0 <= k < g.len() ==> #[trigger] g[k].formatting.contains(t)),
        forall|k: int, t: Seq<char>|
            0 <= k < g.len() ==> (#[trigger] without(as_set(g[k].formatting), group_common(g)).contains(t)
                || group_common(g).contains(t) <==> g[k].formatting.contains(t)),
{
    law_tags_in_order(g[0].formatting);
    lemma_keep_common(as_set(g[0].formatting), g);
    assert forall|t: Seq<char>| #[trigger] group_common(g).contains(t) <==> (g.len() > 1 && forall|k: int|
        0 <= k < g.len() ==> #[trigger] g[k].formatting.contains(t)) by {
        if g.len() > 1 && forall|k: int| 0 <= k < g.len() ==> #[trigger] g[k].formatting.contains(t) {
            assert(g[0].formatting.contains(t));
        }
    }
    assert forall|k: int, t: Seq<char>|
        0 <= k < g.len() implies (#[trigger] without(as_set(g[k].formatting), group_common(g)).contains(t)
            || group_common(g).contains(t) <==> g[k].formatting.contains(t)) by {
        law_tags_in_order(g[k].formatting);
        lemma_without(as_set(g[k].formatting), group_common(g));
        if group_common(g).contains(t) {
            assert(g[k].formatting.contains(t));
        }
    }
}

} // verus!
