//! The individual subtitle formats and the dispatch between them.

pub mod common;
pub mod idx;
pub mod microdvd;
pub mod srt;
pub mod ssa;
pub mod vobsub;
pub mod vobsub_timings;

use crate::errors::{Error, ParseError};
use crate::formats::idx::{IdxFile, idx_failure, idx_parse_spec, idx_spans, idx_times};
use crate::formats::microdvd::{Fps, MdvdFile, mdvd_entries, mdvd_failure, mdvd_parse_spec};
use crate::formats::srt::{SrtFile, entry_models, srt_entries, srt_failure, srt_parse_spec};
use crate::formats::ssa::{SsaFile, ssa_entries, ssa_failure, ssa_parse_spec};
use crate::formats::vobsub::VobFile;
use crate::timetypes::TimeSpan;
use encoding_rs::Encoding;
use chardetng::EncodingDetector;
use vstd::prelude::*;

verus! {

/// All formats which are supported by this library.
#[derive(Clone, Copy, Debug, PartialEq, Eq, Structural)]
pub enum SubtitleFormat {
    /// .srt file
    SubRip,
    /// .ssa/.ass file
    SubStationAlpha,
    /// .idx file
    VobSubIdx,
    /// .sub file (`VobSub`/binary)
    VobSubSub,
    /// .sub file (`MicroDVD`/text)
    MicroDVD,
}

impl SubtitleFormat {
    pub open spec fn name(self) -> Seq<char> {
        match self {
            SubtitleFormat::SubRip => ".srt (SubRip)"@,
            SubtitleFormat::SubStationAlpha => ".ssa (SubStation Alpha)"@,
            SubtitleFormat::VobSubIdx => ".idx (VobSub)"@,
            SubtitleFormat::VobSubSub => ".sub (VobSub)"@,
            SubtitleFormat::MicroDVD => ".sub (MicroDVD)"@,
        }
    }

    /// Get a descriptive string for the format like `".srt (SubRip)"`.
    pub fn get_name(self) -> (r: &'static str)
        ensures
            r@ == self.name(),
    {
        match self {
            SubtitleFormat::SubRip => ".srt (SubRip)",
            SubtitleFormat::SubStationAlpha => ".ssa (SubStation Alpha)",
            SubtitleFormat::VobSubIdx => ".idx (VobSub)",
            SubtitleFormat::VobSubSub => ".sub (VobSub)",
            SubtitleFormat::MicroDVD => ".sub (MicroDVD)",
        }
    }
}

/// The data of one subtitle: when it shows and, for text formats, what it says.
#[derive(Debug, Clone)]
pub struct SubtitleEntry {
    /// When the subtitle shows.
    pub timespan: TimeSpan,
    /// The text of the subtitle; `None` for formats that hold pictures.
    pub line: Option<String>,
}

impl SubtitleEntry {
    /// The text as characters, if there is one.
    pub open spec fn text(self) -> Option<Seq<char>> {
        match self.line {
            Some(l) => Some(l@),
            None => None,
        }
    }

    /// An entry with a text.
    pub fn new(timespan: TimeSpan, line: String) -> (r: SubtitleEntry)
        ensures
            r.timespan == timespan,
            r.text() == Some(line@),
    {
        SubtitleEntry { timespan, line: Some(line) }
    }
}

impl From<TimeSpan> for SubtitleEntry {
    fn from(timespan: TimeSpan) -> (r: SubtitleEntry) {
        SubtitleEntry { timespan, line: None }
    }
}

impl vstd::std_specs::convert::FromSpecImpl<TimeSpan> for SubtitleEntry {
    open spec fn obeys_from_spec() -> bool {
        true
    }

    open spec fn from_spec(timespan: TimeSpan) -> SubtitleEntry {
        SubtitleEntry { timespan, line: None }
    }
}

/// The timespans of the entries.
pub open spec fn entry_spans(v: Seq<SubtitleEntry>) -> Seq<TimeSpan> {
    v.map_values(|e: SubtitleEntry| e.timespan)
}

/// A parsed subtitle file of any of the supported formats.
#[derive(Debug, Clone)]
pub enum SubtitleFile {
    /// .srt file
    SubRipFile(SrtFile),
    /// .ssa/.ass file
    SubStationAlpha(SsaFile),
    /// .idx file
    VobSubIdxFile(IdxFile),
    /// .sub file (`VobSub`/binary)
    VobSubSubFile(VobFile),
    /// .sub file (`MicroDVD`/text)
    MicroDVDFile(MdvdFile),
}

/// The format that a parsed file has.
pub open spec fn format_of(f: SubtitleFile) -> SubtitleFormat {
    match f {
        SubtitleFile::SubRipFile(_) => SubtitleFormat::SubRip,
        SubtitleFile::SubStationAlpha(_) => SubtitleFormat::SubStationAlpha,
        SubtitleFile::VobSubIdxFile(_) => SubtitleFormat::VobSubIdx,
        SubtitleFile::VobSubSubFile(_) => SubtitleFormat::VobSubSub,
        SubtitleFile::MicroDVDFile(_) => SubtitleFormat::MicroDVD,
    }
}

/// The timespans without texts.
pub open spec fn untexted(v: Seq<TimeSpan>) -> Seq<(TimeSpan, Option<Seq<char>>)> {
    v.map_values(|t: TimeSpan| (t, None::<Seq<char>>))
}

/// The entries that a file hands out.
pub open spec fn file_entries(f: SubtitleFile) -> Seq<(TimeSpan, Option<Seq<char>>)> {
    match f {
        SubtitleFile::SubRipFile(x) => srt_entries(x@),
        SubtitleFile::SubStationAlpha(x) => ssa_entries(x@),
        SubtitleFile::VobSubIdxFile(x) => untexted(idx_spans(idx_times(x@))),
        SubtitleFile::VobSubSubFile(x) => untexted(x.spans()),
        SubtitleFile::MicroDVDFile(x) => mdvd_entries(x@, x.fps()),
    }
}

/// How a file changes when entries are written into it, and what the write returns.
pub open spec fn file_updated(a: SubtitleFile, b: SubtitleFile, i: Seq<SubtitleEntry>, r: Result<(), Error>) -> bool {
    &&& format_of(b) == format_of(a)
    &&& match (a, b) {
        (SubtitleFile::SubRipFile(a), SubtitleFile::SubRipFile(b)) => match r {
            Ok(()) => a@.len() == i.len() && b@ == crate::formats::srt::srt_updated(a@, i),
            Err(e) => a@.len() != i.len() && b@ == a@,
        },
        (SubtitleFile::SubStationAlpha(a), SubtitleFile::SubStationAlpha(b)) => match r {
            Ok(()) => crate::formats::ssa::ssa_dialogues(a@).len() == i.len() && b@
                == crate::formats::ssa::ssa_updated(a@, i),
            Err(e) => crate::formats::ssa::ssa_dialogues(a@).len() != i.len() && b@ == a@,
        },
        (SubtitleFile::VobSubIdxFile(a), SubtitleFile::VobSubIdxFile(b)) => match r {
            Ok(()) => idx_times(a@).len() == i.len() && b@ == crate::formats::idx::idx_updated(
                a@,
                i.map_values(|e: SubtitleEntry| e.timespan.start),
            ),
            Err(e) => idx_times(a@).len() != i.len() && b@ == a@,
        },
        (SubtitleFile::VobSubSubFile(a), SubtitleFile::VobSubSubFile(b)) => r == Err::<(), Error>(
            Error::UpdatingEntriesNotSupported { format: SubtitleFormat::VobSubSub },
        ) && b.data() == a.data() && b.spans() == a.spans(),
        (SubtitleFile::MicroDVDFile(a), SubtitleFile::MicroDVDFile(b)) => b.fps() == a.fps() && match r {
            Ok(()) => a@.len() == i.len() && b@ == crate::formats::microdvd::mdvd_updated(
                a@,
                i,
                a.fps(),
            ),
            Err(e) => a@.len() != i.len() && b@ == a@,
        },
        _ => false,
    }
    &&& r is Ok <==> (format_of(a) != SubtitleFormat::VobSubSub && file_entries(a).len() == i.len())
    &&& r matches Err(e) ==> (if format_of(a) == SubtitleFormat::VobSubSub {
        e == Error::UpdatingEntriesNotSupported { format: SubtitleFormat::VobSubSub }
    } else {
        e == (Error::EntryCountMismatch {
            expected: file_entries(a).len() as usize,
            provided: i.len() as usize,
        })
    })
}

/// The time that an entry reads back with after it was written into a file of its format: the
/// time itself, or for a `MicroDVD` file the start of its frame.
pub open spec fn written_time(f: SubtitleFile, t: crate::timetypes::TimePoint) -> crate::timetypes::TimePoint {
    match f {
        SubtitleFile::MicroDVDFile(x) => crate::timetypes::TimePoint::from_ms_spec(
            crate::formats::microdvd::read_back(t@, x.fps()),
        ),
        _ => t,
    }
}

/// Writing as many entries as a text file has into it succeeds, and reading the entries back
/// gives their start times, and their end times too except in an `.idx` file, which keeps no
/// end (a `MicroDVD` file rounds each time to the start of its frame); the text of every entry
/// that carries one, in every format that keeps texts (a `SubRip` text when it survives being
/// split into lines); and for every entry without text, the text that the file had.
pub proof fn law_file_update_then_read(a: SubtitleFile, b: SubtitleFile, i: Seq<SubtitleEntry>, r: Result<(), Error>)
    requires
        file_updated(a, b, i, r),
        format_of(a) != SubtitleFormat::VobSubSub,
        file_entries(a).len() == i.len(),
    ensures
        r is Ok,
        format_of(b) == format_of(a),
        file_entries(b).len() == i.len(),
        forall|k: int|
            0 <= k < i.len() ==> (#[trigger] file_entries(b)[k]).0.start == written_time(
                a,
                i[k].timespan.start,
            ),
        format_of(a) != SubtitleFormat::VobSubIdx ==> forall|k: int|
            0 <= k < i.len() ==> (#[trigger] file_entries(b)[k]).0.end == written_time(a, i[k].timespan.end),
        forall|k: int|
            0 <= k < i.len() && i[k].text() is None ==> (#[trigger] file_entries(b)[k]).1
                == file_entries(a)[k].1,
        format_of(a) != SubtitleFormat::VobSubIdx ==> forall|k: int|
            0 <= k < i.len() && i[k].text() is Some && (format_of(a) == SubtitleFormat::SubRip
                ==> crate::formats::srt::survives_lines(i[k].text()->Some_0)) ==> (#[trigger] file_entries(
                b,
            )[k]).1 == i[k].text(),
{
    match (a, b) {
        (SubtitleFile::SubRipFile(x), SubtitleFile::SubRipFile(y)) => {
            crate::formats::srt::law_srt_update_then_read(x@, i);
        },
        (SubtitleFile::SubStationAlpha(x), SubtitleFile::SubStationAlpha(y)) => {
            crate::formats::ssa::law_ssa_update_then_read(x@, i);
        },
        (SubtitleFile::VobSubIdxFile(x), SubtitleFile::VobSubIdxFile(y)) => {
            crate::formats::idx::law_idx_update_then_read(
                x@,
                i.map_values(|e: SubtitleEntry| e.timespan.start),
            );
        },
        (SubtitleFile::MicroDVDFile(x), SubtitleFile::MicroDVDFile(y)) => {
            crate::formats::microdvd::law_mdvd_update_then_read(x@, i, x.fps());
        },
        _ => {},
    }
}

/// The bytes that a file is written as.
pub open spec fn file_data(f: SubtitleFile) -> Seq<u8> {
    match f {
        SubtitleFile::SubRipFile(f) => vstd::utf8::encode_utf8(crate::formats::srt::srt_text(f@)),
        SubtitleFile::SubStationAlpha(f) => vstd::utf8::encode_utf8(
            crate::formats::common::render(
                f@,
                |d: crate::formats::ssa::DialogueModel| crate::formats::ssa::dialogue_text(d),
            ),
        ),
        SubtitleFile::VobSubIdxFile(f) => vstd::utf8::encode_utf8(
            crate::formats::common::render(
                f@,
                |t: crate::timetypes::TimePoint| crate::formats::idx::idx_stamp(t),
            ),
        ),
        SubtitleFile::VobSubSubFile(f) => f.data(),
        SubtitleFile::MicroDVDFile(f) => vstd::utf8::encode_utf8(crate::formats::microdvd::mdvd_text(f@)),
    }
}

/// What parsing binary `VobSub` data gives.
pub open spec fn vobsub_parse_spec(content: Seq<u8>, r: Result<SubtitleFile, Error>) -> bool {
    match crate::formats::vobsub_timings::spec_timings(content) {
        Ok(ts) => r matches Ok(SubtitleFile::VobSubSubFile(f)) && f.data() == content && f.spans()
            == ts.map_values(
            |t: crate::formats::vobsub_timings::VobSubTiming| crate::formats::vobsub::timing_span(t),
        ),
        Err(cause) => r == Err::<SubtitleFile, Error>(
            Error::ParsingError(ParseError::VobSubSub(crate::errors::VobSubError(cause))),
        ),
    }
}

impl SubtitleFile {
    /// The entries of the file.
    pub fn get_subtitle_entries(&self) -> (r: Result<Vec<SubtitleEntry>, Error>)
        ensures
            r matches Ok(v) && entry_models(v@) == file_entries(*self),
    {
        match self {
            SubtitleFile::SubRipFile(f) => f.get_subtitle_entries(),
            SubtitleFile::SubStationAlpha(f) => f.get_subtitle_entries(),
            SubtitleFile::VobSubIdxFile(f) => {
                let r = f.get_subtitle_entries();
                proof {
                    let v = r->Ok_0;
                    assert(entry_models(v@) =~= untexted(idx_spans(idx_times(f@))));
                }
                r
            },
            SubtitleFile::VobSubSubFile(f) => {
                let r = f.get_subtitle_entries();
                proof {
                    let v = r->Ok_0;
                    assert(entry_models(v@) =~= untexted(f.spans()));
                }
                r
            },
            SubtitleFile::MicroDVDFile(f) => f.get_subtitle_entries(),
        }
    }

    /// Writes new entries into the file; the format of the file decides what is kept.
    pub fn update_subtitle_entries(&mut self, i: &[SubtitleEntry]) -> (r: Result<(), Error>)
        ensures
            file_updated(*old(self), *final(self), i@, r),
    {
        match self {
            SubtitleFile::SubRipFile(f) => f.update_subtitle_entries(i),
            SubtitleFile::SubStationAlpha(f) => f.update_subtitle_entries(i),
            SubtitleFile::VobSubIdxFile(f) => f.update_subtitle_entries(i),
            SubtitleFile::VobSubSubFile(f) => f.update_subtitle_entries(i),
            SubtitleFile::MicroDVDFile(f) => f.update_subtitle_entries(i),
        }
    }

    /// The file as bytes, ready to be written out.
    pub fn to_data(&self) -> (r: Result<Vec<u8>, Error>)
        ensures
            r matches Ok(b) && b@ == file_data(*self),
    {
        match self {
            SubtitleFile::SubRipFile(f) => f.to_data(),
            SubtitleFile::SubStationAlpha(f) => f.to_data(),
            SubtitleFile::VobSubIdxFile(f) => f.to_data(),
            SubtitleFile::VobSubSubFile(f) => f.to_data(),
            SubtitleFile::MicroDVDFile(f) => f.to_data(),
        }
    }
}

impl From<SrtFile> for SubtitleFile {
    fn from(f: SrtFile) -> (r: SubtitleFile) {
        SubtitleFile::SubRipFile(f)
    }
}

impl vstd::std_specs::convert::FromSpecImpl<SrtFile> for SubtitleFile {
    open spec fn obeys_from_spec() -> bool {
        true
    }

    open spec fn from_spec(f: SrtFile) -> SubtitleFile {
        SubtitleFile::SubRipFile(f)
    }
}

impl From<SsaFile> for SubtitleFile {
    fn from(f: SsaFile) -> (r: SubtitleFile) {
        SubtitleFile::SubStationAlpha(f)
    }
}

impl vstd::std_specs::convert::FromSpecImpl<SsaFile> for SubtitleFile {
    open spec fn obeys_from_spec() -> bool {
        true
    }

    open spec fn from_spec(f: SsaFile) -> SubtitleFile {
        SubtitleFile::SubStationAlpha(f)
    }
}

impl From<IdxFile> for SubtitleFile {
    fn from(f: IdxFile) -> (r: SubtitleFile) {
        SubtitleFile::VobSubIdxFile(f)
    }
}

impl vstd::std_specs::convert::FromSpecImpl<IdxFile> for SubtitleFile {
    open spec fn obeys_from_spec() -> bool {
        true
    }

    open spec fn from_spec(f: IdxFile) -> SubtitleFile {
        SubtitleFile::VobSubIdxFile(f)
    }
}

impl From<VobFile> for SubtitleFile {
    fn from(f: VobFile) -> (r: SubtitleFile) {
        SubtitleFile::VobSubSubFile(f)
    }
}

impl vstd::std_specs::convert::FromSpecImpl<VobFile> for SubtitleFile {
    open spec fn obeys_from_spec() -> bool {
        true
    }

    open spec fn from_spec(f: VobFile) -> SubtitleFile {
        SubtitleFile::VobSubSubFile(f)
    }
}

impl From<MdvdFile> for SubtitleFile {
    fn from(f: MdvdFile) -> (r: SubtitleFile) {
        SubtitleFile::MicroDVDFile(f)
    }
}

impl vstd::std_specs::convert::FromSpecImpl<MdvdFile> for SubtitleFile {
    open spec fn obeys_from_spec() -> bool {
        true
    }

    open spec fn from_spec(f: MdvdFile) -> SubtitleFile {
        SubtitleFile::MicroDVDFile(f)
    }
}

// ---------------------------------------------------------------------------------------------
// telling the formats apart

/// The format that a file extension names, if it names one unambiguously.
pub open spec fn format_by_extension(extension: Option<Seq<char>>) -> Option<SubtitleFormat> {
    match extension {
        None => None,
        Some(e) => if e == "srt"@ {
            Some(SubtitleFormat::SubRip)
        } else if e == "ssa"@ || e == "ass"@ {
            Some(SubtitleFormat::SubStationAlpha)
        } else if e == "idx"@ {
            Some(SubtitleFormat::VobSubIdx)
        } else {
            None
        },
    }
}

pub open spec fn ext_view(extension: Option<&str>) -> Option<Seq<char>> {
    match extension {
        Some(e) => Some(e@),
        None => None,
    }
}

fn ext_is(extension: Option<&str>, name: &str) -> (r: bool)
    ensures
        r == (ext_view(extension) == Some(name@)),
{
    match extension {
        None => false,
        Some(e) => {
            let a = crate::text::chars_of(e);
            let b = crate::text::chars_of(name);
            crate::text::chars_eq(a.as_slice(), b.as_slice())
        },
    }
}

/// The format that a file extension (without the dot) names; `.sub` names two formats and
/// therefore none here.
pub fn get_subtitle_format_by_extension(extension: Option<&str>) -> (r: Option<SubtitleFormat>)
    ensures
        r == format_by_extension(ext_view(extension)),
{
    proof {
        reveal_strlit("srt");
        reveal_strlit("ssa");
        reveal_strlit("ass");
        reveal_strlit("idx");
    }
    if ext_is(extension, "srt") {
        Some(SubtitleFormat::SubRip)
    } else if ext_is(extension, "ssa") || ext_is(extension, "ass") {
        Some(SubtitleFormat::SubStationAlpha)
    } else if ext_is(extension, "idx") {
        Some(SubtitleFormat::VobSubIdx)
    } else {
        None
    }
}

/// Every extension that a file of a format may have and that no other format shares names that
/// format, and an extension names only a format that a file with it may hold.
pub proof fn law_extension_names_format(extension: Option<Seq<char>>, format: SubtitleFormat)
    ensures
        valid_extension(extension, format) && format != SubtitleFormat::VobSubSub && format
            != SubtitleFormat::MicroDVD ==> format_by_extension(extension) == Some(format),
        format_by_extension(extension) == Some(format) ==> valid_extension(extension, format),
{
    reveal_strlit("srt");
    reveal_strlit("ssa");
    reveal_strlit("ass");
    reveal_strlit("idx");
    reveal_strlit("sub");
    assert("ssa"@[1] != "srt"@[1]);
    assert("ass"@[0] != "srt"@[0]);
    assert("idx"@[0] != "srt"@[0]);
    assert("idx"@[0] != "ssa"@[0]);
    assert("idx"@[0] != "ass"@[0]);
    assert("ssa"@[0] != "ass"@[0]);
    assert("sub"@[1] != "srt"@[1]);
    assert("sub"@[1] != "ssa"@[1]);
    assert("sub"@[0] != "ass"@[0]);
    assert("sub"@[0] != "idx"@[0]);
}

/// Whether a file with this extension may hold the format.
pub open spec fn valid_extension(extension: Option<Seq<char>>, format: SubtitleFormat) -> bool {
    match format {
        SubtitleFormat::SubRip => extension == Some("srt"@),
        SubtitleFormat::SubStationAlpha => extension == Some("ssa"@) || extension == Some("ass"@),
        SubtitleFormat::VobSubIdx => extension == Some("idx"@),
        SubtitleFormat::VobSubSub | SubtitleFormat::MicroDVD => extension == Some("sub"@),
    }
}

/// Whether a file with this extension may hold the format.
pub fn is_valid_extension_for_subtitle_format(extension: Option<&str>, format: SubtitleFormat) -> (r: bool)
    ensures
        r == valid_extension(ext_view(extension), format),
{
    match format {
        SubtitleFormat::SubRip => ext_is(extension, "srt"),
        SubtitleFormat::SubStationAlpha => ext_is(extension, "ssa") || ext_is(extension, "ass"),
        SubtitleFormat::VobSubIdx => ext_is(extension, "idx"),
        SubtitleFormat::VobSubSub | SubtitleFormat::MicroDVD => ext_is(extension, "sub"),
    }
}

/// Like `get_subtitle_format_by_extension`, but fails for an unknown format.
pub fn get_subtitle_format_by_extension_err(extension: Option<&str>) -> (r: Result<SubtitleFormat, Error>)
    ensures
        match format_by_extension(ext_view(extension)) {
            Some(f) => r == Ok::<SubtitleFormat, Error>(f),
            None => r == Err::<SubtitleFormat, Error>(Error::UnknownFileFormat),
        },
{
    match get_subtitle_format_by_extension(extension) {
        Some(f) => Ok(f),
        None => Err(Error::UnknownFileFormat),
    }
}

/// Whether the data starts with the MPEG program stream pack start code `00 00 01 ba`.
pub open spec fn starts_with_pack(content: Seq<u8>) -> bool {
    content.len() >= 4 && content[0] == 0 && content[1] == 0 && content[2] == 1 && content[3] == 0xba
}

/// The format of a file: by its extension, and for `.sub` files by whether the data starts with
/// an MPEG pack start code.
pub open spec fn format_of_file(extension: Option<Seq<char>>, content: Seq<u8>) -> Option<SubtitleFormat> {
    if extension == Some("sub"@) {
        if starts_with_pack(content) {
            Some(SubtitleFormat::VobSubSub)
        } else {
            Some(SubtitleFormat::MicroDVD)
        }
    } else {
        format_by_extension(extension)
    }
}

/// The format of a file, from its extension and, for `.sub`, its first bytes.
pub fn get_subtitle_format(extension: Option<&str>, content: &[u8]) -> (r: Option<SubtitleFormat>)
    ensures
        r == format_of_file(ext_view(extension), content@),
{
    proof {
        reveal_strlit("sub");
    }
    if ext_is(extension, "sub") {
        if content.len() >= 4 && content[0] == 0 && content[1] == 0 && content[2] == 1 && content[3]
            == 0xba {
            Some(SubtitleFormat::VobSubSub)
        } else {
            Some(SubtitleFormat::MicroDVD)
        }
    } else {
        get_subtitle_format_by_extension(extension)
    }
}

/// Like `get_subtitle_format`, but fails for an unknown format.
pub fn get_subtitle_format_err(extension: Option<&str>, content: &[u8]) -> (r: Result<SubtitleFormat, Error>)
    ensures
        match format_of_file(ext_view(extension), content@) {
            Some(f) => r == Ok::<SubtitleFormat, Error>(f),
            None => r == Err::<SubtitleFormat, Error>(Error::UnknownFileFormat),
        },
{
    match get_subtitle_format(extension, content) {
        Some(f) => Ok(f),
        None => Err(Error::UnknownFileFormat),
    }
}

// ---------------------------------------------------------------------------------------------
// parsing

/// What parsing `content` as a text format gives.
pub open spec fn parse_str_spec(format: SubtitleFormat, content: Seq<char>, f: Result<SubtitleFile, Error>) -> bool {
    match format {
        SubtitleFormat::SubRip => match srt_parse_spec(content) {
            Ok(m) => f matches Ok(SubtitleFile::SubRipFile(x)) && x@ == m,
            Err(e) => f matches Err(Error::ParsingError(ParseError::SubRip(se))) && srt_failure(se) == e,
        },
        SubtitleFormat::SubStationAlpha => match ssa_parse_spec(content) {
            Ok(m) => f matches Ok(SubtitleFile::SubStationAlpha(x)) && x@ == m,
            Err(e) => f matches Err(Error::ParsingError(ParseError::SubStationAlpha(se)))
                && ssa_failure(se) == e,
        },
        SubtitleFormat::VobSubIdx => match idx_parse_spec(content) {
            Ok(m) => f matches Ok(SubtitleFile::VobSubIdxFile(x)) && x@ == m,
            Err(e) => f matches Err(Error::ParsingError(ParseError::VobSubIdx(se))) && idx_failure(se)
                == e,
        },
        SubtitleFormat::VobSubSub => f == Err::<SubtitleFile, Error>(Error::TextFormatOnly),
        SubtitleFormat::MicroDVD => match mdvd_parse_spec(content) {
            Ok(m) => f matches Ok(SubtitleFile::MicroDVDFile(x)) && x@ == m,
            Err(e) => f matches Err(Error::ParsingError(ParseError::MicroDvd(se))) && mdvd_failure(se)
                == e,
        },
    }
}

/// Parses text in the given format; `fps` is the frame rate of `MicroDVD` files. The binary
/// `VobSub` format cannot be parsed from text.
pub fn parse_str(format: SubtitleFormat, content: &str, fps: Fps) -> (r: Result<SubtitleFile, Error>)
    ensures
        parse_str_spec(format, content@, r),
        r matches Ok(f) ==> format_of(f) == format,
        r matches Ok(SubtitleFile::MicroDVDFile(x)) ==> x.fps() == fps,
{
    match format {
        SubtitleFormat::SubRip => match SrtFile::parse(content) {
            Ok(f) => Ok(SubtitleFile::SubRipFile(f)),
            Err(e) => Err(e),
        },
        SubtitleFormat::SubStationAlpha => match SsaFile::parse(content) {
            Ok(f) => Ok(SubtitleFile::SubStationAlpha(f)),
            Err(e) => Err(e),
        },
        SubtitleFormat::VobSubIdx => match IdxFile::parse(content) {
            Ok(f) => Ok(SubtitleFile::VobSubIdxFile(f)),
            Err(e) => Err(e),
        },
        SubtitleFormat::VobSubSub => Err(Error::TextFormatOnly),
        SubtitleFormat::MicroDVD => match MdvdFile::parse(content, fps) {
            Ok(f) => Ok(SubtitleFile::MicroDVDFile(f)),
            Err(e) => Err(e),
        },
    }
}

// ---------------------------------------------------------------------------------------------
// character encodings

/// `encoding_rs::Encoding`, a character encoding, carried through without looking inside.
#[verifier::external_type_specification]
#[verifier::external_body]
pub struct ExEncoding(encoding_rs::Encoding);

/// `Encoding::name`: the name of an encoding, such as `UTF-8` or `windows-1252`.
#[verifier::external_body]
fn encoding_name(encoding: &'static Encoding) -> (r: &'static str) {
    encoding.name()
}

/// A character encoding, known by its name. No two encodings share a name, and the name is
/// the one that the encoding itself gives.
#[derive(Debug, Clone, Copy)]
pub struct TextEncoding {
    encoding: &'static Encoding,
    name: &'static str,
}

impl View for TextEncoding {
    type V = Seq<char>;

    /// The name of the encoding.
    closed spec fn view(&self) -> Seq<char> {
        self.name@
    }
}

impl TextEncoding {
    /// The encoding itself, in specifications.
    pub closed spec fn inner(self) -> &'static Encoding {
        self.encoding
    }

    /// The encoding, known by its name.
    pub fn from_encoding(encoding: &'static Encoding) -> (r: TextEncoding)
        ensures
            r.inner() == encoding,
    {
        TextEncoding { encoding, name: encoding_name(encoding) }
    }

    /// The name of the encoding.
    pub fn name(&self) -> (r: &'static str)
        ensures
            r@ == self@,
    {
        self.name
    }

    /// The encoding itself.
    pub fn encoding(&self) -> (r: &'static Encoding)
        ensures
            r == self.inner(),
    {
        self.encoding
    }
}

/// The names of the encodings, where there are any.
pub open spec fn encoding_view(encoding: Option<&TextEncoding>) -> Option<Seq<char>> {
    match encoding {
        Some(e) => Some(e@),
        None => None,
    }
}

/// The encoding that a leading byte order mark names: UTF-8, UTF-16LE or UTF-16BE.
pub open spec fn bom_encoding(content: Seq<u8>) -> Option<Seq<char>> {
    if content.len() >= 3 && content[0] == 0xef && content[1] == 0xbb && content[2] == 0xbf {
        Some("UTF-8"@)
    } else if content.len() >= 2 && content[0] == 0xff && content[1] == 0xfe {
        Some("UTF-16LE"@)
    } else if content.len() >= 2 && content[0] == 0xfe && content[1] == 0xff {
        Some("UTF-16BE"@)
    } else {
        None
    }
}

/// `Encoding::for_bom`: the encoding that a leading UTF-8, UTF-16LE or UTF-16BE byte order mark
/// names, and `None` when the data starts with none of them.
#[verifier::external_body]
fn encoding_for_bom(content: &[u8]) -> (r: Option<TextEncoding>)
    ensures
        match r {
            Some(e) => bom_encoding(content@) == Some(e@),
            None => bom_encoding(content@) is None,
        },
{
    Encoding::for_bom(content).map(|found| TextEncoding::from_encoding(found.0))
}

/// The name of the encoding that `chardetng` guesses for the data when it is handed all of it
/// at once, with no top-level domain and with UTF-8 allowed.
pub uninterp spec fn guessed_encoding(content: Seq<u8>) -> Seq<char>;

/// `EncodingDetector::new`, `feed` with all of the data as its last part, and `guess` with no
/// top-level domain and with UTF-8 allowed: the encoding that the data most likely has. The
/// guess depends on the data alone.
#[verifier::external_body]
fn guess_encoding(content: &[u8]) -> (r: TextEncoding)
    ensures
        r@ == guessed_encoding(content@),
{
    let mut detector = EncodingDetector::new();
    detector.feed(content, true);
    TextEncoding::from_encoding(detector.guess(None, true))
}

/// The text that `Encoding::decode_with_bom_removal` gives for the data in the named encoding,
/// and whether malformed sequences had to be replaced.
pub uninterp spec fn decoded(encoding: Seq<char>, content: Seq<u8>) -> (Seq<char>, bool);

/// `Encoding::decode_with_bom_removal`: the text that the data stands for in the encoding (a
/// leading byte order mark of that very encoding is dropped; any other is read as data), and
/// whether malformed sequences had to be replaced. It depends on the encoding, which its name
/// identifies, and the data alone.
#[verifier::external_body]
fn decode_with(encoding: &TextEncoding, content: &[u8]) -> (r: (String, bool))
    ensures
        (r.0@, r.1) == decoded(encoding@, content@),
{
    let (text, had_errors) = encoding.encoding.decode_with_bom_removal(content);
    (text.into_owned(), had_errors)
}

/// The encoding used when none is asked for: the one that a byte order mark names, or else the
/// guess.
pub open spec fn auto_encoding(content: Seq<u8>) -> Seq<char> {
    match bom_encoding(content) {
        Some(e) => e,
        None => guessed_encoding(content),
    }
}

/// The text, or the error for malformed data.
pub open spec fn decode_outcome(d: (Seq<char>, bool)) -> Result<Seq<char>, Error> {
    if d.1 {
        Err(Error::DecodingError)
    } else {
        Ok(d.0)
    }
}

/// What decoding the data gives: in the encoding asked for, or else in the one that a byte order
/// mark names, or else in the guessed one; empty data has no encoding to guess.
pub open spec fn decode_spec(content: Seq<u8>, encoding: Option<Seq<char>>) -> Result<Seq<char>, Error> {
    match encoding {
        Some(e) => decode_outcome(decoded(e, content)),
        None => if content.len() == 0 {
            Err(Error::EncodingDetectionError)
        } else {
            decode_outcome(decoded(auto_encoding(content), content))
        },
    }
}

/// Decodes the data in the given encoding; without one, a byte order mark names it, or else it
/// is guessed from the data.
pub fn decode_bytes_to_string(content: &[u8], encoding: Option<&TextEncoding>) -> (r: Result<
    String,
    Error,
>)
    ensures
        match r {
            Ok(s) => decode_spec(content@, encoding_view(encoding)) == Ok::<Seq<char>, Error>(s@),
            Err(e) => decode_spec(content@, encoding_view(encoding)) == Err::<Seq<char>, Error>(e),
        },
{
    let enc = match encoding {
        Some(e) => *e,
        None => {
            if content.len() == 0 {
                return Err(Error::EncodingDetectionError);
            }
            match encoding_for_bom(content) {
                Some(e) => e,
                None => guess_encoding(content),
            }
        },
    };
    let (decoded, had_errors) = decode_with(&enc, content);
    if had_errors {
        Err(Error::DecodingError)
    } else {
        Ok(decoded)
    }
}

/// What parsing the bytes of a file in the given format gives: binary `VobSub` data is read as
/// it is, text formats are decoded first.
pub open spec fn parse_bytes_spec(
    format: SubtitleFormat,
    content: Seq<u8>,
    encoding: Option<Seq<char>>,
    fps: Fps,
    r: Result<SubtitleFile, Error>,
) -> bool {
    &&& format == SubtitleFormat::VobSubSub ==> vobsub_parse_spec(content, r)
    &&& format != SubtitleFormat::VobSubSub ==> match decode_spec(content, encoding) {
        Ok(t) => parse_str_spec(format, t, r),
        Err(e) => r == Err::<SubtitleFile, Error>(e),
    }
    &&& r matches Ok(f) ==> format_of(f) == format
    &&& r matches Ok(SubtitleFile::MicroDVDFile(x)) ==> x.fps() == fps
}

/// Parses the bytes of a file in the given format. Text formats are decoded first (see
/// `decode_bytes_to_string`) and then parsed as `parse_str` does; binary `VobSub` data is read
/// as it is.
pub fn parse_bytes(format: SubtitleFormat, content: &[u8], encoding: Option<&TextEncoding>, fps: Fps) -> (r:
    Result<SubtitleFile, Error>)
    ensures
        parse_bytes_spec(format, content@, encoding_view(encoding), fps, r),
{
    match format {
        SubtitleFormat::VobSubSub => match VobFile::parse(content) {
            Ok(f) => Ok(SubtitleFile::VobSubSubFile(f)),
            Err(e) => Err(e),
        },
        _ => {
            let text = match decode_bytes_to_string(content, encoding) {
                Ok(t) => t,
                Err(e) => {
                    return Err(e);
                },
            };
            parse_str(format, text.as_str(), fps)
        },
    }
}

} // verus!
