//! The error types of this crate.
//!
//! Every error can be rendered as text, and every wrapping error lists the error it wraps
//! after its own message, so a caller can print the full chain.

use crate::formats::SubtitleFormat;
use crate::text::{decimal, extend_str, hex, push_hex, push_number, string_of};
use vstd::prelude::*;

verus! {

/// Anything that can go wrong while reading or writing a subtitle file.
#[derive(Debug, Clone)]
pub enum Error {
    /// The subtitle data could not be parsed; the wrapped error says why.
    ParsingError(ParseError),
    /// The file format is not supported by this library.
    UnknownFileFormat,
    /// The bytes are not valid text in the character encoding that was used.
    DecodingError,
    /// The character encoding of the subtitle data could not be determined.
    EncodingDetectionError,
    /// The attempted operation does not work on binary subtitle formats.
    TextFormatOnly,
    /// Updating the entries is not supported for this format.
    UpdatingEntriesNotSupported {
        /// The format for which updating the subtitle entries is not supported.
        format: SubtitleFormat,
    },
    /// `update_subtitle_entries()` was called with a slice whose length does not
    /// match the number of entries in the file.
    EntryCountMismatch {
        /// How many entries the file has.
        expected: usize,
        /// How many entries the caller passed in.
        provided: usize,
    },
}

/// Why a subtitle file could not be parsed, per format.
#[derive(Debug, Clone)]
pub enum ParseError {
    /// A `.srt` file could not be parsed.
    SubRip(SubRipError),
    /// A `.ssa`/`.ass` file could not be parsed.
    SubStationAlpha(SsaError),
    /// A `.idx` file could not be parsed.
    VobSubIdx(IdxError),
    /// A binary `VobSub` `.sub` file could not be parsed.
    VobSubSub(VobSubError),
    /// A `MicroDVD` `.sub` file could not be parsed.
    MicroDvd(MicroDvdError),
}

/// Why a string is not a decimal `i64`, in the words of the standard library.
#[derive(Debug, Clone, Copy, PartialEq, Eq, Structural)]
pub enum IntErrorKind {
    /// Nothing to parse.
    Empty,
    /// A character that is not a digit.
    InvalidDigit,
    /// The number is larger than `i64::MAX`.
    PosOverflow,
    /// The number is smaller than `i64::MIN`.
    NegOverflow,
}

/// A `.srt` parse failure together with the line it happened on.
#[derive(Debug, Clone)]
pub struct SubRipError {
    /// The zero-based index of the offending line.
    pub line_num: usize,
    /// What was wrong with that line.
    pub kind: SubRipErrorKind,
}

/// The concrete problem found in a `.srt` line.
#[derive(Debug, Clone, PartialEq, Eq)]
pub enum SubRipErrorKind {
    /// A line that should have held the subtitle number did not.
    ExpectedIndexLine {
        /// The offending line.
        line: String,
        /// Why the line is not a number.
        cause: IntErrorKind,
    },
    /// A line that should have held `start --> end` did not.
    ExpectedTimestampLine {
        /// The offending line.
        line: String,
    },
}

/// Everything that can go wrong while parsing a `.ssa`/`.ass` file.
#[derive(Debug, Clone, PartialEq, Eq)]
pub enum SsaError {
    /// No `Format:` line was found in the `[Events]` section.
    SsaFieldsInfoNotFound,
    /// The `Format:` line does not declare a field this library needs.
    SsaMissingField {
        /// The zero-based index of the `Format:` line.
        line_num: usize,
        /// The name of the missing field.
        f: &'static str,
    },
    /// The `Format:` line declares a field twice.
    SsaDuplicateField {
        /// The zero-based index of the `Format:` line.
        line_num: usize,
        /// The name of the duplicated field.
        f: &'static str,
    },
    /// The `Format:` line does not end with `Text`.
    SsaTextFieldNotLast {
        /// The zero-based index of the `Format:` line.
        line_num: usize,
    },
    /// A timepoint field is not of the form `0:19:41.99`.
    SsaWrongTimepointFormat {
        /// The zero-based index of the offending line.
        line_num: usize,
        /// The text that should have been a timepoint.
        string: String,
    },
    /// A `Dialogue:` line does not match the declared `Format:`.
    SsaDialogLineParseError {
        /// The zero-based index of the offending line.
        line_num: usize,
        /// A description of what was expected.
        msg: String,
    },
}

/// Everything that can go wrong while parsing a `.idx` file.
#[derive(Debug, Clone, PartialEq, Eq)]
pub enum IdxError {
    /// A `timestamp:` line could not be parsed.
    IdxLineParseError {
        /// The zero-based index of the offending line.
        line_num: usize,
        /// A description of what was expected.
        msg: String,
    },
}

/// A `MicroDVD` `.sub` parse failure together with the line it happened on.
#[derive(Debug, Clone)]
pub struct MicroDvdError {
    /// The zero-based index of the offending line.
    pub line_num: usize,
    /// What was wrong with that line.
    pub kind: MicroDvdErrorKind,
}

/// The concrete problem found in a `MicroDVD` `.sub` line.
#[derive(Debug, Clone, PartialEq, Eq)]
pub enum MicroDvdErrorKind {
    /// A line is not of the form `{start}{end}text`.
    ExpectedSubtitleLine {
        /// The offending line.
        line: String,
    },
}

/// A failure while reading timings out of a binary `VobSub` `.sub` stream.
#[derive(Debug, Clone, Copy, PartialEq, Eq, Structural)]
pub struct VobSubError(pub VobSubStreamError);

/// The concrete problem found in the MPEG-2 program stream of a binary `.sub` file.
#[derive(Debug, Clone, Copy, PartialEq, Eq, Structural)]
pub enum VobSubStreamError {
    /// The stream ends in the middle of a PES packet.
    IncompletePesPacket,
    /// A subpicture packet carries no presentation timestamp.
    SubtitleWithoutTiming,
    /// A subpicture packet is too short to even hold its own length.
    PacketTooShort,
    /// A subpicture packet ends before its size field.
    UnexpectedEndOfSubtitleData,
    /// The control block starts past the end of the subpicture packet.
    ControlOffsetOutOfBounds {
        /// The offset the packet asked for.
        offset: usize,
        /// The length of the packet.
        len: usize,
    },
    /// A control sequence points backwards, which would loop forever.
    ControlOffsetWentBackwards,
    /// A control sequence ends without its `0xff` terminator.
    IncompleteControlSequence,
    /// No control command set the subtitle's start time.
    MissingStartTime,
    /// No control command set the subtitle's position.
    MissingCoordinates,
    /// No control command set the subtitle's palette.
    MissingPalette,
    /// No control command set the subtitle's alpha channel.
    MissingAlpha,
    /// No control command set the offsets of the bitmap scan lines.
    MissingRleOffsets,
    /// The subtitle's bounding box has a non-positive width or height.
    InvalidBoundingBox,
    /// The bitmap scan lines start after they end, or past the end of the packet.
    InvalidScanLineOffsets,
}

// ---------------------------------------------------------------------------------------------
// messages

impl IntErrorKind {
    pub open spec fn text(self) -> Seq<char> {
        match self {
            IntErrorKind::Empty => "cannot parse integer from empty string"@,
            IntErrorKind::InvalidDigit => "invalid digit found in string"@,
            IntErrorKind::PosOverflow => "number too large to fit in target type"@,
            IntErrorKind::NegOverflow => "number too small to fit in target type"@,
        }
    }

    /// The message, as the standard library words it.
    pub fn to_string(&self) -> (s: String)
        ensures
            s@ == self.text(),
    {
        let mut out: Vec<char> = Vec::new();
        match self {
            IntErrorKind::Empty => extend_str(&mut out, "cannot parse integer from empty string"),
            IntErrorKind::InvalidDigit => extend_str(&mut out, "invalid digit found in string"),
            IntErrorKind::PosOverflow => extend_str(&mut out, "number too large to fit in target type"),
            IntErrorKind::NegOverflow => extend_str(&mut out, "number too small to fit in target type"),
        }
        string_of(out.as_slice())
    }
}

pub open spec fn line_error_text(line_num: usize) -> Seq<char> {
    "parse error at line `"@ + decimal(line_num as nat) + "`"@
}

fn line_error_string(line_num: usize) -> (s: String)
    ensures
        s@ == line_error_text(line_num),
{
    let mut out: Vec<char> = Vec::new();
    extend_str(&mut out, "parse error at line `");
    push_number(&mut out, line_num as u64);
    extend_str(&mut out, "`");
    string_of(out.as_slice())
}

impl SubRipErrorKind {
    pub open spec fn text(self) -> Seq<char> {
        match self {
            SubRipErrorKind::ExpectedIndexLine { line, .. } => "expected SubRip index line, found '"@
                + line@ + "'"@,
            SubRipErrorKind::ExpectedTimestampLine { line } =>
                "expected SubRip timespan line, found '"@ + line@ + "'"@,
        }
    }

    /// The message of this error.
    pub fn to_string(&self) -> (s: String)
        ensures
            s@ == self.text(),
    {
        let mut out: Vec<char> = Vec::new();
        match self {
            SubRipErrorKind::ExpectedIndexLine { line, .. } => {
                extend_str(&mut out, "expected SubRip index line, found '");
                extend_str(&mut out, line.as_str());
                extend_str(&mut out, "'");
            },
            SubRipErrorKind::ExpectedTimestampLine { line } => {
                extend_str(&mut out, "expected SubRip timespan line, found '");
                extend_str(&mut out, line.as_str());
                extend_str(&mut out, "'");
            },
        }
        string_of(out.as_slice())
    }

    /// The messages of this error and of what caused it.
    pub open spec fn chain(self) -> Seq<Seq<char>> {
        match self {
            SubRipErrorKind::ExpectedIndexLine { cause, .. } => seq![self.text(), cause.text()],
            SubRipErrorKind::ExpectedTimestampLine { .. } => seq![self.text()],
        }
    }
}

impl SubRipError {
    /// The message of this error.
    pub fn to_string(&self) -> (s: String)
        ensures
            s@ == line_error_text(self.line_num),
    {
        line_error_string(self.line_num)
    }
}

impl MicroDvdErrorKind {
    pub open spec fn text(self) -> Seq<char> {
        match self {
            MicroDvdErrorKind::ExpectedSubtitleLine { line } => "expected subtitle line, found `"@
                + line@ + "`"@,
        }
    }

    /// The message of this error.
    pub fn to_string(&self) -> (s: String)
        ensures
            s@ == self.text(),
    {
        let mut out: Vec<char> = Vec::new();
        match self {
            MicroDvdErrorKind::ExpectedSubtitleLine { line } => {
                extend_str(&mut out, "expected subtitle line, found `");
                extend_str(&mut out, line.as_str());
                extend_str(&mut out, "`");
            },
        }
        string_of(out.as_slice())
    }
}

impl MicroDvdError {
    /// The message of this error.
    pub fn to_string(&self) -> (s: String)
        ensures
            s@ == line_error_text(self.line_num),
    {
        line_error_string(self.line_num)
    }
}

impl SsaError {
    pub open spec fn text(self) -> Seq<char> {
        match self {
            SsaError::SsaFieldsInfoNotFound =>
                ".ssa/.ass file did not have a line beginning with `Format: ` in a `[Events]` section"@,
            SsaError::SsaMissingField { line_num, f } => "the '"@ + f@
                + "' field is missing in the field info in line "@ + decimal(line_num as nat),
            SsaError::SsaDuplicateField { line_num, f } => "the '"@ + f@
                + "' field is twice in the field info in line "@ + decimal(line_num as nat),
            SsaError::SsaTextFieldNotLast { line_num } => "the field info in line "@ + decimal(
                line_num as nat,
            ) + " has to have `Text` as its last field"@,
            SsaError::SsaWrongTimepointFormat { line_num, string } => "the timepoint `"@
                + string@ + "` in line "@ + decimal(line_num as nat) + " has wrong format"@,
            SsaError::SsaDialogLineParseError { line_num, msg } => "parsing the line `"@
                + decimal(line_num as nat) + "` failed because of `"@ + msg@ + "`"@,
        }
    }

    /// The message of this error.
    pub fn to_string(&self) -> (s: String)
        ensures
            s@ == self.text(),
    {
        let mut out: Vec<char> = Vec::new();
        match self {
            SsaError::SsaFieldsInfoNotFound => {
                extend_str(
                    &mut out,
                    ".ssa/.ass file did not have a line beginning with `Format: ` in a `[Events]` section",
                );
            },
            SsaError::SsaMissingField { line_num, f } => {
                extend_str(&mut out, "the '");
                extend_str(&mut out, f);
                extend_str(&mut out, "' field is missing in the field info in line ");
                push_number(&mut out, *line_num as u64);
            },
            SsaError::SsaDuplicateField { line_num, f } => {
                extend_str(&mut out, "the '");
                extend_str(&mut out, f);
                extend_str(&mut out, "' field is twice in the field info in line ");
                push_number(&mut out, *line_num as u64);
            },
            SsaError::SsaTextFieldNotLast { line_num } => {
                extend_str(&mut out, "the field info in line ");
                push_number(&mut out, *line_num as u64);
                extend_str(&mut out, " has to have `Text` as its last field");
            },
            SsaError::SsaWrongTimepointFormat { line_num, string } => {
                extend_str(&mut out, "the timepoint `");
                extend_str(&mut out, string.as_str());
                extend_str(&mut out, "` in line ");
                push_number(&mut out, *line_num as u64);
                extend_str(&mut out, " has wrong format");
            },
            SsaError::SsaDialogLineParseError { line_num, msg } => {
                extend_str(&mut out, "parsing the line `");
                push_number(&mut out, *line_num as u64);
                extend_str(&mut out, "` failed because of `");
                extend_str(&mut out, msg.as_str());
                extend_str(&mut out, "`");
            },
        }
        string_of(out.as_slice())
    }
}

impl IdxError {
    pub open spec fn text(self) -> Seq<char> {
        match self {
            IdxError::IdxLineParseError { line_num, msg } => "parsing the line `"@ + decimal(
                line_num as nat,
            ) + "` failed because of `"@ + msg@ + "`"@,
        }
    }

    /// The message of this error.
    pub fn to_string(&self) -> (s: String)
        ensures
            s@ == self.text(),
    {
        let mut out: Vec<char> = Vec::new();
        match self {
            IdxError::IdxLineParseError { line_num, msg } => {
                extend_str(&mut out, "parsing the line `");
                push_number(&mut out, *line_num as u64);
                extend_str(&mut out, "` failed because of `");
                extend_str(&mut out, msg.as_str());
                extend_str(&mut out, "`");
            },
        }
        string_of(out.as_slice())
    }
}

impl VobSubStreamError {
    pub open spec fn text(self) -> Seq<char> {
        match self {
            VobSubStreamError::IncompletePesPacket => "incomplete PES packet"@,
            VobSubStreamError::SubtitleWithoutTiming => "found subtitle without timing info"@,
            VobSubStreamError::PacketTooShort => "packet is too short"@,
            VobSubStreamError::UnexpectedEndOfSubtitleData => "unexpected end of subtitle data"@,
            VobSubStreamError::ControlOffsetOutOfBounds { offset, len } => "control offset is 0x"@
                + hex(offset as nat) + ", but packet is only 0x"@ + hex(len as nat) + " bytes"@,
            VobSubStreamError::ControlOffsetWentBackwards => "control offset went backwards"@,
            VobSubStreamError::IncompleteControlSequence => "incomplete control packet"@,
            VobSubStreamError::MissingStartTime => "no start time for subtitle"@,
            VobSubStreamError::MissingCoordinates => "no coordinates for subtitle"@,
            VobSubStreamError::MissingPalette => "no palette for subtitle"@,
            VobSubStreamError::MissingAlpha => "no alpha for subtitle"@,
            VobSubStreamError::MissingRleOffsets => "no RLE offsets for subtitle"@,
            VobSubStreamError::InvalidBoundingBox => "invalid bounding box"@,
            VobSubStreamError::InvalidScanLineOffsets => "invalid scan line offsets"@,
        }
    }

    fn push_text(&self, out: &mut Vec<char>)
        ensures
            final(out)@ == old(out)@ + self.text(),
    {
        match self {
            VobSubStreamError::IncompletePesPacket => extend_str(out, "incomplete PES packet"),
            VobSubStreamError::SubtitleWithoutTiming => extend_str(
                out,
                "found subtitle without timing info",
            ),
            VobSubStreamError::PacketTooShort => extend_str(out, "packet is too short"),
            VobSubStreamError::UnexpectedEndOfSubtitleData => extend_str(
                out,
                "unexpected end of subtitle data",
            ),
            VobSubStreamError::ControlOffsetOutOfBounds { offset, len } => {
                extend_str(out, "control offset is 0x");
                push_hex(out, *offset as u64);
                extend_str(out, ", but packet is only 0x");
                push_hex(out, *len as u64);
                extend_str(out, " bytes");
            },
            VobSubStreamError::ControlOffsetWentBackwards => extend_str(
                out,
                "control offset went backwards",
            ),
            VobSubStreamError::IncompleteControlSequence => extend_str(
                out,
                "incomplete control packet",
            ),
            VobSubStreamError::MissingStartTime => extend_str(out, "no start time for subtitle"),
            VobSubStreamError::MissingCoordinates => extend_str(out, "no coordinates for subtitle"),
            VobSubStreamError::MissingPalette => extend_str(out, "no palette for subtitle"),
            VobSubStreamError::MissingAlpha => extend_str(out, "no alpha for subtitle"),
            VobSubStreamError::MissingRleOffsets => extend_str(out, "no RLE offsets for subtitle"),
            VobSubStreamError::InvalidBoundingBox => extend_str(out, "invalid bounding box"),
            VobSubStreamError::InvalidScanLineOffsets => extend_str(
                out,
                "invalid scan line offsets",
            ),
        }
    }

    /// The message of this error.
    pub fn to_string(&self) -> (s: String)
        ensures
            s@ == self.text(),
    {
        let mut out: Vec<char> = Vec::new();
        self.push_text(&mut out);
        string_of(out.as_slice())
    }
}

impl VobSubError {
    pub open spec fn text(self) -> Seq<char> {
        "VobSub error: "@ + self.0.text()
    }

    /// The message of this error.
    pub fn to_string(&self) -> (s: String)
        ensures
            s@ == self.text(),
    {
        let mut out: Vec<char> = Vec::new();
        extend_str(&mut out, "VobSub error: ");
        self.0.push_text(&mut out);
        string_of(out.as_slice())
    }
}

impl From<VobSubStreamError> for VobSubError {
    fn from(cause: VobSubStreamError) -> (r: Self) {
        VobSubError(cause)
    }
}

impl vstd::std_specs::convert::FromSpecImpl<VobSubStreamError> for VobSubError {
    open spec fn obeys_from_spec() -> bool {
        true
    }

    open spec fn from_spec(cause: VobSubStreamError) -> VobSubError {
        VobSubError(cause)
    }
}

impl ParseError {
    /// The messages of this error and of everything that caused it.
    pub open spec fn chain(self) -> Seq<Seq<char>> {
        match self {
            ParseError::SubRip(e) => seq![line_error_text(e.line_num)] + e.kind.chain(),
            ParseError::SubStationAlpha(e) => seq![e.text()],
            ParseError::VobSubIdx(e) => seq![e.text()],
            ParseError::VobSubSub(e) => seq![e.text()],
            ParseError::MicroDvd(e) => seq![line_error_text(e.line_num), e.kind.text()],
        }
    }

    /// The messages of this error and of everything that caused it, outermost first.
    pub fn chain_strings(&self) -> (v: Vec<String>)
        ensures
            v@.map_values(|s: String| s@) == self.chain(),
    {
        let mut v: Vec<String> = Vec::new();
        match self {
            ParseError::SubRip(e) => {
                v.push(e.to_string());
                v.push(e.kind.to_string());
                match &e.kind {
                    SubRipErrorKind::ExpectedIndexLine { cause, .. } => {
                        v.push(cause.to_string());
                    },
                    SubRipErrorKind::ExpectedTimestampLine { .. } => {},
                }
            },
            ParseError::SubStationAlpha(e) => {
                v.push(e.to_string());
            },
            ParseError::VobSubIdx(e) => {
                v.push(e.to_string());
            },
            ParseError::VobSubSub(e) => {
                v.push(e.to_string());
            },
            ParseError::MicroDvd(e) => {
                v.push(e.to_string());
                v.push(e.kind.to_string());
            },
        }
        assert(v@.map_values(|s: String| s@) =~= self.chain());
        v
    }
}

impl Error {
    pub open spec fn text(self) -> Seq<char> {
        match self {
            Error::ParsingError(_) => "parsing the subtitle data failed"@,
            Error::UnknownFileFormat =>
                "unknown file format, only SubRip (.srt), SubStationAlpha (.ssa/.ass) and VobSub (.idx and .sub) are supported at the moment"@,
            Error::DecodingError =>
                "error while decoding subtitle from bytes to string (wrong charset encoding?)"@,
            Error::EncodingDetectionError =>
                "could not determine character encoding from byte array (manually supply character encoding?)"@,
            Error::TextFormatOnly =>
                "operation does not work on binary subtitle formats (only text formats)"@,
            Error::UpdatingEntriesNotSupported { format } =>
                "updating subtitles is not implemented or supported by the `subparse` library for this format: "@
                + format.name(),
            Error::EntryCountMismatch { expected, provided } => "the subtitle file has "@ + decimal(
                expected as nat,
            ) + " entries, but "@ + decimal(provided as nat) + " were provided"@,
        }
    }

    /// The message of this error (without what caused it).
    pub fn to_string(&self) -> (s: String)
        ensures
            s@ == self.text(),
    {
        let mut out: Vec<char> = Vec::new();
        match self {
            Error::ParsingError(_) => extend_str(&mut out, "parsing the subtitle data failed"),
            Error::UnknownFileFormat => extend_str(
                &mut out,
                "unknown file format, only SubRip (.srt), SubStationAlpha (.ssa/.ass) and VobSub (.idx and .sub) are supported at the moment",
            ),
            Error::DecodingError => extend_str(
                &mut out,
                "error while decoding subtitle from bytes to string (wrong charset encoding?)",
            ),
            Error::EncodingDetectionError => extend_str(
                &mut out,
                "could not determine character encoding from byte array (manually supply character encoding?)",
            ),
            Error::TextFormatOnly => extend_str(
                &mut out,
                "operation does not work on binary subtitle formats (only text formats)",
            ),
            Error::UpdatingEntriesNotSupported { format } => {
                extend_str(
                    &mut out,
                    "updating subtitles is not implemented or supported by the `subparse` library for this format: ",
                );
                extend_str(&mut out, format.get_name());
            },
            Error::EntryCountMismatch { expected, provided } => {
                extend_str(&mut out, "the subtitle file has ");
                push_number(&mut out, *expected as u64);
                extend_str(&mut out, " entries, but ");
                push_number(&mut out, *provided as u64);
                extend_str(&mut out, " were provided");
            },
        }
        string_of(out.as_slice())
    }

    /// The messages of this error and of everything that caused it.
    pub open spec fn chain(self) -> Seq<Seq<char>> {
        match self {
            Error::ParsingError(p) => seq![self.text()] + p.chain(),
            _ => seq![self.text()],
        }
    }

    /// The messages of this error and of everything that caused it, outermost first.
    pub fn chain_strings(&self) -> (v: Vec<String>)
        ensures
            v@.map_values(|s: String| s@) == self.chain(),
    {
        let mut v: Vec<String> = Vec::new();
        v.push(self.to_string());
        match self {
            Error::ParsingError(p) => {
                let mut rest = p.chain_strings();
                let ghost head = v@;
                v.append(&mut rest);
                assert(v@.map_values(|s: String| s@) =~= head.map_values(|s: String| s@)
                    + p.chain());
            },
            _ => {},
        }
        assert(v@.map_values(|s: String| s@) =~= self.chain());
        v
    }
}

impl From<ParseError> for Error {
    fn from(e: ParseError) -> (r: Self) {
        Error::ParsingError(e)
    }
}

impl vstd::std_specs::convert::FromSpecImpl<ParseError> for Error {
    open spec fn obeys_from_spec() -> bool {
        true
    }

    open spec fn from_spec(e: ParseError) -> Error {
        Error::ParsingError(e)
    }
}

} // verus!
