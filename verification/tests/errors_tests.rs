use alass::errors::{Error, IntErrorKind, ParseError, SubRipError, SubRipErrorKind};
use alass::formats::common::parse_i64;
use alass::formats::SubtitleFormat;

#[test]
fn error_chain_is_walkable() {
    let chars: Vec<char> = "x".chars().collect();
    let error = Error::from(ParseError::SubRip(SubRipError {
        line_num: 3,
        kind: SubRipErrorKind::ExpectedIndexLine {
            line: "x".to_string(),
            cause: parse_i64(&chars).unwrap_err(),
        },
    }));

    let chain = error.chain_strings();

    assert_eq!(
        chain,
        vec![
            "parsing the subtitle data failed".to_string(),
            "parse error at line `3`".to_string(),
            "expected SubRip index line, found 'x'".to_string(),
            "invalid digit found in string".to_string(),
        ]
    );
}

#[test]
fn error_is_send_and_sync() {
    fn assert_send_sync<T: Send + Sync + 'static>() {}
    assert_send_sync::<Error>();
}

#[test]
fn top_level_messages_are_unchanged() {
    assert_eq!(
        Error::UnknownFileFormat.to_string(),
        "unknown file format, only SubRip (.srt), SubStationAlpha (.ssa/.ass) and VobSub (.idx and .sub) are supported at the moment"
    );
    assert_eq!(
        Error::UpdatingEntriesNotSupported { format: SubtitleFormat::VobSubSub }.to_string(),
        "updating subtitles is not implemented or supported by the `subparse` library for this format: .sub (VobSub)"
    );
}

#[test]
fn integer_errors_are_worded_like_the_standard_library() {
    let parse = |s: &str| {
        let chars: Vec<char> = s.chars().collect();
        parse_i64(&chars)
    };
    assert_eq!(parse(""), Err(IntErrorKind::Empty));
    assert_eq!(parse("+"), Err(IntErrorKind::InvalidDigit));
    assert_eq!(parse("9223372036854775808"), Err(IntErrorKind::PosOverflow));
    assert_eq!(parse("-9223372036854775809"), Err(IntErrorKind::NegOverflow));
    assert_eq!(parse("-9223372036854775808"), Ok(i64::MIN));
    assert_eq!(parse("+42"), Ok(42));
    for s in ["", "x", "+", "99999999999999999999", "-99999999999999999999", "12", "-0"] {
        let expected = s.parse::<i64>();
        match (parse(s), expected) {
            (Ok(a), Ok(b)) => assert_eq!(a, b),
            (Err(a), Err(b)) => assert_eq!(a.to_string(), b.to_string()),
            (a, b) => panic!("{s:?}: {a:?} vs {b:?}"),
        }
    }
}

#[test]
fn entry_count_mismatch_names_both_counts() {
    assert_eq!(
        Error::EntryCountMismatch { expected: 3, provided: 1 }.to_string(),
        "the subtitle file has 3 entries, but 1 were provided"
    );
}
