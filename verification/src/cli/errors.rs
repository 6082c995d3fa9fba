//! The errors of the command line tool, with paths as text.

use crate::errors::Error;
use crate::formats::SubtitleFormat;
use crate::text::{extend_str, string_of};
use vstd::prelude::*;

verus! {

/// Something went wrong while reading or writing a file.
#[derive(Debug, Clone)]
pub enum FileOperationError {
    /// The file could not be opened; `source` is what the system said.
    FileOpen { path: String, source: String },
    /// The file could not be read.
    FileRead { path: String, source: String },
    /// The file could not be written.
    FileWrite { path: String, source: String },
}

/// Something went wrong while extracting the voice segments from a video file.
#[derive(Debug, Clone)]
pub enum InputVideoError {
    /// The audio could not be decoded; `source` is what the decoder said.
    FailedToDecode { path: String, source: String },
    /// The voice activity detector rejected a segment.
    VadAnalysisFailed,
}

/// Something went wrong while reading the timings out of a subtitle file.
#[derive(Debug, Clone)]
pub enum InputSubtitleError {
    ReadingSubtitleFileFailed { path: String, source: FileOperationError },
    UnknownSubtitleFormat { path: String, source: Error },
    ParsingSubtitleFailed { path: String, source: Error },
    RetrievingSubtitleLinesFailed { path: String, source: Error },
}

/// Something went wrong while reading the file the timings are taken from.
#[derive(Debug, Clone)]
pub enum InputFileError {
    VideoFile { path: String, source: InputVideoError },
    SubtitleFile { path: String, source: InputSubtitleError },
}

/// The failures that end the run outright.
#[derive(Debug, Clone)]
pub enum TopLevelError {
    FileFormatMismatch {
        input_file_path: String,
        output_file_path: String,
        input_file_format: SubtitleFormat,
    },
    FailedToUpdateSubtitle(Error),
    FailedToGenerateSubtitleData(Error),
    FailedToInstantiateSubtitleFile(Error),
}

/// `before'path'after`.
pub open spec fn quoted(before: Seq<char>, path: Seq<char>, after: Seq<char>) -> Seq<char> {
    before + "'"@ + path + "'"@ + after
}

fn quoted_string(before: &str, path: &String, after: &str) -> (s: String)
    ensures
        s@ == quoted(before@, path@, after@),
{
    let mut out: Vec<char> = Vec::new();
    extend_str(&mut out, before);
    extend_str(&mut out, "'");
    extend_str(&mut out, path.as_str());
    extend_str(&mut out, "'");
    extend_str(&mut out, after);
    string_of(out.as_slice())
}

impl FileOperationError {
    pub open spec fn text(self) -> Seq<char> {
        match self {
            FileOperationError::FileOpen { path, .. } => quoted("failed to open file "@, path@, ""@),
            FileOperationError::FileRead { path, .. } => quoted("failed to read file "@, path@, ""@),
            FileOperationError::FileWrite { path, .. } => quoted("failed to write file "@, path@, ""@),
        }
    }

    /// The message of this error (without what caused it).
    pub fn to_string(&self) -> (s: String)
        ensures
            s@ == self.text(),
    {
        match self {
            FileOperationError::FileOpen { path, .. } => quoted_string("failed to open file ", path, ""),
            FileOperationError::FileRead { path, .. } => quoted_string("failed to read file ", path, ""),
            FileOperationError::FileWrite { path, .. } => quoted_string("failed to write file ", path, ""),
        }
    }
}

impl InputVideoError {
    pub open spec fn text(self) -> Seq<char> {
        match self {
            InputVideoError::FailedToDecode { path, .. } => quoted(
                "failed to extract voice segments from file "@,
                path@,
                ""@,
            ),
            InputVideoError::VadAnalysisFailed => "failed to analyse audio segment for voice activity"@,
        }
    }

    /// The message of this error (without what caused it).
    pub fn to_string(&self) -> (s: String)
        ensures
            s@ == self.text(),
    {
        match self {
            InputVideoError::FailedToDecode { path, .. } => quoted_string(
                "failed to extract voice segments from file ",
                path,
                "",
            ),
            InputVideoError::VadAnalysisFailed => {
                let mut out: Vec<char> = Vec::new();
                extend_str(&mut out, "failed to analyse audio segment for voice activity");
                string_of(out.as_slice())
            },
        }
    }
}

impl InputSubtitleError {
    pub open spec fn text(self) -> Seq<char> {
        match self {
            InputSubtitleError::ReadingSubtitleFileFailed { path, .. } => quoted(
                "reading subtitle file "@,
                path@,
                " failed"@,
            ),
            InputSubtitleError::UnknownSubtitleFormat { path, .. } => quoted(
                "unknown subtitle format for file "@,
                path@,
                ""@,
            ),
            InputSubtitleError::ParsingSubtitleFailed { path, .. } => quoted(
                "parsing subtitle file "@,
                path@,
                " failed"@,
            ),
            InputSubtitleError::RetrievingSubtitleLinesFailed { path, .. } => quoted(
                "retrieving subtitle lines of file "@,
                path@,
                " failed"@,
            ),
        }
    }

    /// The message of this error (without what caused it).
    pub fn to_string(&self) -> (s: String)
        ensures
            s@ == self.text(),
    {
        match self {
            InputSubtitleError::ReadingSubtitleFileFailed { path, .. } => quoted_string(
                "reading subtitle file ",
                path,
                " failed",
            ),
            InputSubtitleError::UnknownSubtitleFormat { path, .. } => quoted_string(
                "unknown subtitle format for file ",
                path,
                "",
            ),
            InputSubtitleError::ParsingSubtitleFailed { path, .. } => quoted_string(
                "parsing subtitle file ",
                path,
                " failed",
            ),
            InputSubtitleError::RetrievingSubtitleLinesFailed { path, .. } => quoted_string(
                "retrieving subtitle lines of file ",
                path,
                " failed",
            ),
        }
    }
}

impl InputFileError {
    pub open spec fn text(self) -> Seq<char> {
        match self {
            InputFileError::VideoFile { path, .. } => quoted("processing video file "@, path@, " failed"@),
            InputFileError::SubtitleFile { path, .. } => quoted(
                "processing subtitle file "@,
                path@,
                " failed"@,
            ),
        }
    }

    /// The message of this error (without what caused it).
    pub fn to_string(&self) -> (s: String)
        ensures
            s@ == self.text(),
    {
        match self {
            InputFileError::VideoFile { path, .. } => quoted_string(
                "processing video file ",
                path,
                " failed",
            ),
            InputFileError::SubtitleFile { path, .. } => quoted_string(
                "processing subtitle file ",
                path,
                " failed",
            ),
        }
    }
}

impl TopLevelError {
    pub open spec fn text(self) -> Seq<char> {
        match self {
            TopLevelError::FileFormatMismatch { input_file_path, output_file_path, input_file_format } =>
                quoted("output file "@, output_file_path@, ""@) + quoted(
                " seems to have a different format than input file "@,
                input_file_path@,
                ""@,
            ) + quoted(" with format "@, input_file_format.name(), ""@)
                + " (this program does not perform conversions)"@,
            TopLevelError::FailedToUpdateSubtitle(_) => "failed to change lines in the subtitle"@,
            TopLevelError::FailedToGenerateSubtitleData(_) => "failed to generate data for subtitle"@,
            TopLevelError::FailedToInstantiateSubtitleFile(_) => "failed to instantiate subtitle file"@,
        }
    }

    /// The message of this error (without what caused it).
    pub fn to_string(&self) -> (s: String)
        ensures
            s@ == self.text(),
    {
        let mut out: Vec<char> = Vec::new();
        match self {
            TopLevelError::FileFormatMismatch { input_file_path, output_file_path, input_file_format } => {
                let a = quoted_string("output file ", output_file_path, "");
                let b = quoted_string(
                    " seems to have a different format than input file ",
                    input_file_path,
                    "",
                );
                let name = input_file_format.get_name();
                let mut nm = String::new();
                crate::text::append_str(&mut nm, name);
                let c = quoted_string(" with format ", &nm, "");
                extend_str(&mut out, a.as_str());
                extend_str(&mut out, b.as_str());
                extend_str(&mut out, c.as_str());
                extend_str(&mut out, " (this program does not perform conversions)");
            },
            TopLevelError::FailedToUpdateSubtitle(_) => {
                extend_str(&mut out, "failed to change lines in the subtitle");
            },
            TopLevelError::FailedToGenerateSubtitleData(_) => {
                extend_str(&mut out, "failed to generate data for subtitle");
            },
            TopLevelError::FailedToInstantiateSubtitleFile(_) => {
                extend_str(&mut out, "failed to instantiate subtitle file");
            },
        }
        string_of(out.as_slice())
    }
}

} // verus!
