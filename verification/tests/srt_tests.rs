use alass::formats::srt::SrtFile;
use alass::formats::SubtitleEntry;
use alass::timetypes::{TimeDelta, TimePoint, TimeSpan};

fn to_string(file: &SrtFile) -> String {
    String::from_utf8(file.to_data().unwrap()).unwrap()
}

#[test]
fn create_srt_test() {
    let lines = vec![
        (TimeSpan::new(TimePoint::from_msecs(1500), TimePoint::from_msecs(3700)), "line1".to_string()),
        (TimeSpan::new(TimePoint::from_msecs(4500), TimePoint::from_msecs(8700)), "line2".to_string()),
    ];
    let file = SrtFile::create(lines).unwrap();

    let expected = "1\n00:00:01,500 --> 00:00:03,700\nline1\n\n2\n00:00:04,500 --> 00:00:08,700\nline2\n\n";
    assert_eq!(to_string(&file), expected);
}

#[test]
fn parse_write_roundtrip() {
    let input = "1\n00:00:01,500 --> 00:00:03,700\nline1\n\n2\n00:00:04,500 --> 00:00:08,700\nline2a\nline2b\n\n";
    let file = SrtFile::parse(input).unwrap();
    assert_eq!(to_string(&file), input);

    let entries = file.get_subtitle_entries().unwrap();
    assert_eq!(entries.len(), 2);
    assert_eq!(entries[0].timespan.start.msecs(), 1500);
    assert_eq!(entries[1].line.as_deref(), Some("line2a\nline2b"));
}

#[test]
fn crlf_and_bom_are_accepted() {
    let input = "\u{feff}1\r\n00:00:01,500 --> 00:00:03,700\r\nline1\r\n\r\n";
    let file = SrtFile::parse(input).unwrap();
    let entries = file.get_subtitle_entries().unwrap();
    assert_eq!(entries.len(), 1);
    assert_eq!(entries[0].line.as_deref(), Some("line1"));
    assert_eq!(to_string(&file), "1\n00:00:01,500 --> 00:00:03,700\nline1\n\n");
}

#[test]
fn shift_and_write() {
    let input = "1\n00:00:01,500 --> 00:00:03,700\nline1\n\n";
    let mut file = SrtFile::parse(input).unwrap();
    let shifted: Vec<_> = file
        .get_subtitle_entries()
        .unwrap()
        .into_iter()
        .map(|e| SubtitleEntry::from(e.timespan + TimeDelta::from_msecs(1234)))
        .collect();
    file.update_subtitle_entries(&shifted).unwrap();
    assert_eq!(to_string(&file), "1\n00:00:02,734 --> 00:00:04,934\nline1\n\n");
}

#[test]
fn srt_wrong_entry_count_is_an_error() {
    let mut file = SrtFile::parse("1\n00:00:01,500 --> 00:00:03,700\nline1\n\n").unwrap();
    assert!(file.update_subtitle_entries(&[]).is_err());
}

#[test]
fn srt_broken_files_are_rejected() {
    assert_eq!(
        SrtFile::parse("x\n00:00:01,500 --> 00:00:03,700\nline1\n\n").unwrap_err().to_string(),
        "parsing the subtitle data failed"
    );
    assert!(SrtFile::parse("1\nnot a timespan\nline1\n\n").is_err());
    assert!(SrtFile::parse("1\n99999999999999999999:00:01,500 --> 00:00:03,700\nl\n\n").is_err());
}

#[test]
fn timestamp_components_may_have_any_number_of_digits() {
    for (input, start, end) in [
        ("0:0:1,5", 1005, 2007),
        ("00:00:01,50", 1050, 2070),
        ("0000:0000:0001,0500", 1500, 2700),
    ] {
        let second = match input {
            "0:0:1,5" => "0:0:2,7",
            "00:00:01,50" => "00:00:02,70",
            _ => "0000:0000:0002,0700",
        };
        let file = SrtFile::parse(&format!("1\n{input} --> {second}\nHello\n\n")).unwrap();
        let entries = file.get_subtitle_entries().unwrap();
        assert_eq!(
            (entries[0].timespan.start.msecs(), entries[0].timespan.end.msecs()),
            (start, end),
            "{input}"
        );
    }
}

#[test]
fn a_minus_on_the_hour_component_alone_does_not_make_the_time_negative() {
    let file = SrtFile::parse("1\n-00:00:10,000 --> 00:00:12,000\nHello\n\n").unwrap();
    assert_eq!(file.get_subtitle_entries().unwrap()[0].timespan.start.msecs(), 10_000);
}

#[test]
fn text_may_contain_an_arrow() {
    let file = SrtFile::parse("1\n00:00:10,000 --> 00:00:12,000\na --> b\n\n").unwrap();
    assert_eq!(file.get_subtitle_entries().unwrap()[0].line.as_deref(), Some("a --> b"));
}

#[test]
fn a_last_entry_without_a_trailing_blank_line_is_not_lost() {
    let file = SrtFile::parse("1\n00:00:10,000 --> 00:00:12,000\nHello").unwrap();
    assert_eq!(file.get_subtitle_entries().unwrap().len(), 1);
    assert_eq!(to_string(&file), "1\n00:00:10,000 --> 00:00:12,000\nHello\n\n");
}

#[test]
fn out_of_order_and_overlapping_entries_are_left_alone() {
    let input = "2\n00:00:15,000 --> 00:00:17,000\nB\n\n1\n00:00:10,000 --> 00:00:12,000\nA\n\n";
    let file = SrtFile::parse(input).unwrap();
    let entries = file.get_subtitle_entries().unwrap();
    assert_eq!(entries.iter().map(|e| e.timespan.start.msecs()).collect::<Vec<_>>(), [15_000, 10_000]);
    assert_eq!(to_string(&file), input);

    let overlapping = "1\n00:00:10,000 --> 00:00:20,000\nA\n\n2\n00:00:12,000 --> 00:00:14,000\nB\n\n";
    assert_eq!(to_string(&SrtFile::parse(overlapping).unwrap()), overlapping);
}

#[test]
fn empty_input_parses_to_no_entries() {
    let file = SrtFile::parse("").unwrap();
    assert_eq!(file.get_subtitle_entries().unwrap().len(), 0);
    assert_eq!(to_string(&file), "");
}

#[test]
fn blank_inputs_parse_to_no_entries() {
    for input in ["\n", "\n\n\n", "\u{feff}"] {
        assert!(SrtFile::parse(input).unwrap().get_subtitle_entries().unwrap().is_empty());
    }
}

#[test]
fn the_index_error_names_line_and_cause() {
    let error = SrtFile::parse("x\n00:00:01,500 --> 00:00:03,700\nline1\n\n").unwrap_err();
    assert_eq!(
        error.chain_strings(),
        [
            "parsing the subtitle data failed",
            "parse error at line `0`",
            "expected SubRip index line, found 'x'",
            "invalid digit found in string",
        ]
    );
}

#[test]
fn negative_times_are_written_with_their_sign() {
    let file = SrtFile::create(vec![(
        TimeSpan::new(TimePoint::from_msecs(-1500), TimePoint::from_msecs(500)),
        "a".to_string(),
    )])
    .unwrap();
    assert_eq!(to_string(&file), "1\n00:00:-1,-500 --> 00:00:00,500\na\n\n");
}

#[test]
fn written_texts_are_read_back() {
    let mut file = SrtFile::parse("1\n00:00:01,500 --> 00:00:03,700\nline1\n\n2\n00:00:05,000 --> 00:00:06,000\nx\n\n").unwrap();
    let span = TimeSpan::new(TimePoint::from_msecs(100), TimePoint::from_msecs(200));
    file.update_subtitle_entries(&[
        SubtitleEntry::new(span, "a\nb".to_string()),
        SubtitleEntry::new(span, "c\r\nd".to_string()),
    ])
    .unwrap();
    let back = file.get_subtitle_entries().unwrap();
    assert_eq!(back[0].line.as_deref(), Some("a\nb"));
    // a carriage return before a line feed does not survive the split into lines
    assert_eq!(back[1].line.as_deref(), Some("c\nd"));
    assert_eq!((back[1].timespan.start.msecs(), back[1].timespan.end.msecs()), (100, 200));
}
