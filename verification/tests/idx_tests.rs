use alass::formats::idx::IdxFile;
use alass::formats::SubtitleEntry;
use alass::timetypes::TimeDelta;

const IDX: &str = "# VobSub index file, v7 (do not modify this line!)\n\
                   id: en, index: 0\n\
                   timestamp: 00:00:10:000, filepos: 000000000\n\
                   timestamp: 00:00:15:500, filepos: 000001000\n";

fn to_string(file: &IdxFile) -> String {
    String::from_utf8(file.to_data().unwrap()).unwrap()
}

#[test]
fn idx_parse_is_non_destructive() {
    let file = IdxFile::parse(IDX).unwrap();
    assert_eq!(to_string(&file), IDX);
}

#[test]
fn entries_span_until_the_next_timestamp() {
    let entries = IdxFile::parse(IDX).unwrap().get_subtitle_entries().unwrap();
    assert_eq!(entries.len(), 2);
    assert_eq!((entries[0].timespan.start.msecs(), entries[0].timespan.end.msecs()), (10_000, 15_500));
    // the last entry is shown for one minute
    assert_eq!((entries[1].timespan.start.msecs(), entries[1].timespan.end.msecs()), (15_500, 75_500));
    assert!(entries.iter().all(|e| e.line.is_none()));
}

#[test]
fn update_subtitle_entries_shifts_every_timestamp() {
    let mut file = IdxFile::parse(IDX).unwrap();
    let shifted: Vec<SubtitleEntry> = file
        .get_subtitle_entries()
        .unwrap()
        .into_iter()
        .map(|e| SubtitleEntry::from(e.timespan + TimeDelta::from_msecs(1234)))
        .collect();
    file.update_subtitle_entries(&shifted).unwrap();

    assert_eq!(
        to_string(&file),
        IDX.replace("00:00:10:000", "00:00:11:234").replace("00:00:15:500", "00:00:16:734")
    );
}

#[test]
fn wrong_entry_count_is_an_error_not_a_panic() {
    let mut file = IdxFile::parse(IDX).unwrap();
    assert!(file.update_subtitle_entries(&[]).is_err());
}

#[test]
fn negative_timestamps_round_trip() {
    let mut file = IdxFile::parse(IDX).unwrap();
    let shifted: Vec<SubtitleEntry> = file
        .get_subtitle_entries()
        .unwrap()
        .into_iter()
        .map(|e| SubtitleEntry::from(e.timespan - TimeDelta::from_secs(11)))
        .collect();
    file.update_subtitle_entries(&shifted).unwrap();
    assert!(to_string(&file).contains("timestamp: -00:00:01:000"));
}

#[test]
fn idx_crlf_line_endings_are_preserved() {
    let crlf = IDX.replace('\n', "\r\n");
    let file = IdxFile::parse(&crlf).unwrap();
    assert_eq!(to_string(&file), crlf);
}

#[test]
fn broken_timestamps_are_rejected() {
    assert!(IdxFile::parse("timestamp: 00:00:10.000, filepos: 0\n").is_err());
    assert!(IdxFile::parse("timestamp: nope\n").is_err());
}

#[test]
fn a_timestamp_inside_a_comment_is_not_a_timestamp() {
    let input = "# timestamp: 00:00:10:000\ntimestamp: 00:00:20:000, filepos: 0\n";
    let file = IdxFile::parse(input).unwrap();
    let entries = file.get_subtitle_entries().unwrap();
    assert_eq!(entries.len(), 1);
    assert_eq!(entries[0].timespan.start.msecs(), 20_000);
    assert_eq!(to_string(&file), input);
}

#[test]
fn a_file_without_timestamps_has_no_entries() {
    let file = IdxFile::parse("# nothing here\n").unwrap();
    assert_eq!(file.get_subtitle_entries().unwrap().len(), 0);
}

#[test]
fn a_broken_timestamp_is_named_in_the_error() {
    let error = IdxFile::parse("x\ntimestamp: 00:00:10.000, filepos: 0\n").unwrap_err();
    assert_eq!(
        error.chain_strings()[1],
        "parsing the line `1` failed because of `expected a timestamp of the form `00:41:36:961`, found `00:00:10``"
    );
    // after whitespace other than spaces and tabs the keyword is just text
    let file = IdxFile::parse("\u{3000}timestamp: 00:00:10:000\n").unwrap();
    assert_eq!(file.get_subtitle_entries().unwrap().len(), 0);
}

#[test]
fn updating_then_reading_gives_the_new_start_times() {
    let mut file = IdxFile::parse(IDX).unwrap();
    let entries = vec![
        SubtitleEntry::from(alass::timetypes::TimeSpan::new(
            alass::timetypes::TimePoint::from_msecs(500),
            alass::timetypes::TimePoint::from_msecs(600),
        )),
        SubtitleEntry::from(alass::timetypes::TimeSpan::new(
            alass::timetypes::TimePoint::from_msecs(90_000),
            alass::timetypes::TimePoint::from_msecs(1),
        )),
    ];
    file.update_subtitle_entries(&entries).unwrap();
    let read: Vec<i64> = file.get_subtitle_entries().unwrap().iter().map(|e| e.timespan.start.msecs()).collect();
    assert_eq!(read, [500, 90_000]);
}

#[test]
fn a_timestamp_not_written_the_writers_way_is_rewritten() {
    let input = IDX.replace("00:00:10:000", "0:0:10:0");
    let file = IdxFile::parse(&input).unwrap();
    assert_eq!(to_string(&file), IDX);
}

#[test]
fn only_spaces_and_tabs_may_come_before_the_keyword() {
    let input = "\u{c}timestamp: 00:00:10:000, filepos: 0\n \ttimestamp: 00:00:20:000, filepos: 0\n";
    let file = IdxFile::parse(input).unwrap();
    let entries = file.get_subtitle_entries().unwrap();
    assert_eq!(entries.len(), 1);
    assert_eq!(entries[0].timespan.start.msecs(), 20_000);
    assert_eq!(to_string(&file), input);
}
