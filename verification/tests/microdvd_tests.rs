use alass::formats::microdvd::{Fps, MdvdFile};
use alass::formats::SubtitleEntry;
use alass::timetypes::TimeDelta;

fn fps(num: u32) -> Fps {
    Fps::new(num, 1).unwrap()
}

fn mdvd_reconstruct(s: &str) -> String {
    let file = MdvdFile::parse(s, fps(25)).unwrap();
    let data = file.to_data().unwrap();
    String::from_utf8(data).unwrap()
}

fn test_mdvd(input: &str, expected: &str) {
    assert_eq!(mdvd_reconstruct(input), expected);
    assert_eq!(mdvd_reconstruct(expected), expected);
}

#[test]
fn mdvd_test_reconstruction() {
    test_mdvd("{0}{25}Hello!", "{0}{25}Hello!");
    test_mdvd("{0}{25}{y:i}Hello!", "{0}{25}{y:i}Hello!");
    test_mdvd("{0}{25}{Y:i}Hello!", "{0}{25}{y:i}Hello!");
    test_mdvd("{0}{25}{Y:i}\n", "{0}{25}{y:i}");

    test_mdvd("{0}{25}{y:i}Text1|{y:i}Text2", "{0}{25}{Y:i}Text1|Text2");
    test_mdvd("{0}{25}{y:i}Text1\n{0}{25}{y:i}Text2", "{0}{25}{Y:i}Text1|Text2");
    test_mdvd(
        "{0}{25}{y:i}{y:b}Text1\n{0}{25}{y:i}Text2",
        "{0}{25}{Y:i}{y:b}Text1|Text2",
    );

    test_mdvd(
        "{0}{25}{y:i}Text1\n{0}{26}{y:i}Text2",
        "{0}{25}{y:i}Text1\n{0}{26}{y:i}Text2",
    );
}

#[test]
fn formatting_order_is_deterministic() {
    let input = "{0}{25}{y:i}{y:b}{y:u}Text1|{y:i}{y:b}{y:u}Text2";
    let first = mdvd_reconstruct(input);
    for _ in 0..16 {
        assert_eq!(mdvd_reconstruct(input), first);
    }
    assert_eq!(first, "{0}{25}{Y:b}{Y:i}{Y:u}Text1|Text2");
}

#[test]
fn entries_and_shifting() {
    let mut file = MdvdFile::parse("{100}{200}Hello|World\n{250}{400}Second line\n", fps(30)).unwrap();
    let entries = file.get_subtitle_entries().unwrap();
    assert_eq!(entries.len(), 3);
    assert_eq!(
        (entries[0].timespan.start.msecs(), entries[0].timespan.end.msecs()),
        (3333, 6666)
    );
    assert_eq!(entries[2].line.as_deref(), Some("Second line"));

    let shifted: Vec<SubtitleEntry> = entries
        .iter()
        .map(|e| SubtitleEntry::from(e.timespan + TimeDelta::from_msecs(1000)))
        .collect();
    file.update_subtitle_entries(&shifted).unwrap();
    assert_eq!(
        String::from_utf8(file.to_data().unwrap()).unwrap(),
        "{129}{229}Hello|World\n{279}{429}Second line"
    );
}

#[test]
fn bom_is_ignored() {
    assert_eq!(mdvd_reconstruct("\u{feff}{0}{25}Hello!"), "{0}{25}Hello!");
}

#[test]
fn crlf_lines_are_accepted() {
    assert_eq!(mdvd_reconstruct("{0}{25}A\r\n{30}{40}B\r\n"), "{0}{25}A\n{30}{40}B");
}

#[test]
fn broken_lines_are_rejected() {
    assert!(MdvdFile::parse("no braces here", fps(25)).is_err());
    assert!(MdvdFile::parse("{0}{25}{unclosed", fps(25)).is_err());
    assert!(MdvdFile::parse("{99999999999999999999}{25}x", fps(25)).is_err());
}

#[test]
fn empty_formatting_braces_are_tags_not_text() {
    for input in ["{0}{25}{}Hello", "{0}{25}{}{}Hello"] {
        let file = MdvdFile::parse(input, fps(25)).unwrap();
        let entries = file.get_subtitle_entries().unwrap();
        assert_eq!(entries.len(), 1);
        assert_eq!(entries[0].line.as_deref(), Some("Hello"), "{input}");
        assert_eq!(mdvd_reconstruct(input), "{0}{25}{}Hello", "{input}");
    }
}

#[test]
fn empty_pipe_separated_parts_become_empty_sub_lines() {
    let texts = |s: &str| {
        MdvdFile::parse(s, fps(25))
            .unwrap()
            .get_subtitle_entries()
            .unwrap()
            .iter()
            .map(|e| e.line.clone().unwrap())
            .collect::<Vec<_>>()
    };
    assert_eq!(texts("{0}{25}A||B"), ["A", "", "B"]);
    assert_eq!(texts("{0}{25}A|"), ["A", ""]);
    assert_eq!(texts("{0}{25}"), [""]);
}

#[test]
fn microdvd_wrong_entry_count_is_an_error() {
    let mut file = MdvdFile::parse("{0}{25}Hello", fps(25)).unwrap();
    assert!(file.update_subtitle_entries(&[]).is_err());
}

#[test]
fn a_frame_rate_needs_a_positive_numerator_and_denominator() {
    assert!(Fps::new(0, 1).is_none());
    assert!(Fps::new(25, 0).is_none());
    assert!(Fps::new(30000, 1001).is_some());
}

#[test]
fn fractional_frame_rates_convert_exactly() {
    // 30000/1001 frames per second: frame 30 starts at 1001 ms
    let file = MdvdFile::parse("{30}{60}A", Fps::new(30000, 1001).unwrap()).unwrap();
    let entries = file.get_subtitle_entries().unwrap();
    assert_eq!(entries[0].timespan.start.msecs(), 1001);
    assert_eq!(entries[0].timespan.end.msecs(), 2002);
}

#[test]
fn a_written_time_reads_back_as_the_start_of_its_frame() {
    let mut file = MdvdFile::parse("{0}{1}A", fps(30)).unwrap();
    let span = alass::timetypes::TimeSpan::new(
        alass::timetypes::TimePoint::from_msecs(1000),
        alass::timetypes::TimePoint::from_msecs(3333),
    );
    file.update_subtitle_entries(&[SubtitleEntry::from(span)]).unwrap();
    assert_eq!(String::from_utf8(file.to_data().unwrap()).unwrap(), "{30}{99}A");
    let back = file.get_subtitle_entries().unwrap();
    // 3333 ms falls into frame 99, which starts at 3300 ms
    assert_eq!((back[0].timespan.start.msecs(), back[0].timespan.end.msecs()), (1000, 3300));
    assert_eq!(back[0].line.as_deref(), Some("A"));
}
