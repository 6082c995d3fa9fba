use alass::formats::idx::IdxFile;
use alass::formats::microdvd::{Fps, MdvdFile};
use alass::formats::srt::SrtFile;
use alass::formats::ssa::SsaFile;
use alass::formats::vobsub::VobFile;
use alass::formats::{
    get_subtitle_format, get_subtitle_format_by_extension, get_subtitle_format_by_extension_err,
    get_subtitle_format_err, is_valid_extension_for_subtitle_format, parse_bytes, parse_str, SubtitleEntry,
    SubtitleFile, SubtitleFormat, TextEncoding,
};
use alass::timetypes::{TimeDelta, TimePoint, TimeSpan};

const SRT: &str = "1\n00:00:10,000 --> 00:00:12,000\nline one\n\n2\n00:00:15,500 --> 00:00:17,500\nline two\n\n";

const SSA: &str = "[Events]\n\
                   Format: Layer, Start, End, Style, Name, MarginL, MarginR, MarginV, Effect, Text\n\
                   Dialogue: 0,0:00:10.00,0:00:12.00,Default,,0,0,0,,line one\n";

const IDX: &str = "# VobSub index file, v7 (do not modify this line!)\n\
                   id: en, index: 0\n\
                   timestamp: 00:00:10:000, filepos: 000000000\n\
                   timestamp: 00:00:15:500, filepos: 000001000\n";

const MDVD: &str = "{300}{360}line one\n{465}{525}line two";

fn fps30() -> Fps {
    Fps::new(30, 1).unwrap()
}

fn pts_bytes(pts: u64) -> [u8; 5] {
    [
        0x20 | (((pts >> 30) & 0x7) as u8) << 1 | 1,
        ((pts >> 22) & 0xff) as u8,
        (((pts >> 15) & 0x7f) as u8) << 1 | 1,
        ((pts >> 7) & 0xff) as u8,
        ((pts & 0x7f) as u8) << 1 | 1,
    ]
}

fn pack(pts: Option<u64>, payload: &[u8]) -> Vec<u8> {
    let mut body = vec![0x81];
    match pts {
        Some(pts) => {
            body.extend_from_slice(&[0x80, 5]);
            body.extend_from_slice(&pts_bytes(pts));
        }
        None => body.extend_from_slice(&[0x00, 0]),
    }
    body.push(0x20);
    body.extend_from_slice(payload);
    let mut out = vec![0x00, 0x00, 0x01, 0xba, 0x44, 0x00, 0x04, 0x00, 0x04, 0x01, 0x00, 0x00, 0x03, 0xf8];
    out.extend_from_slice(&[0x00, 0x00, 0x01, 0xbd, (body.len() >> 8) as u8, (body.len() & 0xff) as u8]);
    out.extend_from_slice(&body);
    out
}

fn subpicture(stop_date: u8) -> Vec<u8> {
    let mut sp = vec![0x00, 38, 0x00, 8, 0x11, 0x22, 0x33, 0x44];
    sp.extend_from_slice(&[0x00, 0x00, 0x00, 32, 0x01]);
    sp.extend_from_slice(&[0x03, 0x01, 0x23, 0x04, 0xff, 0xf0]);
    sp.extend_from_slice(&[0x05, 0x00, 0x00, 0x0f, 0x00, 0x00, 0x0f]);
    sp.extend_from_slice(&[0x06, 0x00, 0x04, 0x00, 0x06, 0xff]);
    sp.extend_from_slice(&[0x00, stop_date, 0x00, 32, 0x02, 0xff]);
    sp
}

fn tiny_sub() -> Vec<u8> {
    pack(Some(90_000), &subpicture(174))
}

/// Two subpictures: 49.4661 s to 50.9661 s and 52.6359 s to 55.5659 s.
fn example_sub() -> Vec<u8> {
    let mut second = subpicture(0);
    second[32..34].copy_from_slice(&[0x01, 0x25]); // 293 hundredths
    let mut out = pack(Some(4_451_949), &subpicture(150));
    out.extend(pack(Some(4_737_231), &second));
    out
}

fn round_trip(format: SubtitleFormat, data: &[u8], delta: TimeDelta) -> Vec<TimeSpan> {
    let mut file: SubtitleFile = parse_bytes(format, data, None, fps30()).unwrap();
    let entries = file.get_subtitle_entries().unwrap();

    let shifted: Vec<SubtitleEntry> = entries
        .iter()
        .map(|e| SubtitleEntry::from(e.timespan + delta))
        .collect();
    file.update_subtitle_entries(&shifted).unwrap();

    let written = file.to_data().unwrap();
    parse_bytes(format, &written, None, fps30())
        .unwrap()
        .get_subtitle_entries()
        .unwrap()
        .into_iter()
        .map(|e| e.timespan)
        .collect()
}

fn span(start_ms: i64, end_ms: i64) -> TimeSpan {
    TimeSpan::new(TimePoint::from_msecs(start_ms), TimePoint::from_msecs(end_ms))
}

#[test]
fn srt_round_trip() {
    let delta = TimeDelta::from_msecs(1234);
    assert_eq!(
        round_trip(SubtitleFormat::SubRip, SRT.as_bytes(), delta),
        [span(11_234, 13_234), span(16_734, 18_734)]
    );
}

#[test]
fn ssa_round_trip() {
    let delta = TimeDelta::from_msecs(1230);
    assert_eq!(
        round_trip(SubtitleFormat::SubStationAlpha, SSA.as_bytes(), delta),
        [span(11_230, 13_230)]
    );
}

#[test]
fn idx_round_trip() {
    let delta = TimeDelta::from_msecs(1234);
    assert_eq!(
        round_trip(SubtitleFormat::VobSubIdx, IDX.as_bytes(), delta),
        [span(11_234, 16_734), span(16_734, 76_734)]
    );
}

#[test]
fn microdvd_round_trip() {
    let delta = TimeDelta::from_msecs(1000);
    assert_eq!(
        round_trip(SubtitleFormat::MicroDVD, MDVD.as_bytes(), delta),
        [span(11_000, 13_000), span(16_500, 18_500)]
    );
}

#[test]
fn vobsub_sub_is_read_only() {
    let data = example_sub();
    let file = parse_bytes(SubtitleFormat::VobSubSub, &data, None, fps30()).unwrap();
    let entries = file.get_subtitle_entries().unwrap();
    assert_eq!(
        entries.iter().map(|e| e.timespan).collect::<Vec<_>>(),
        [span(49_466, 50_966), span(52_635, 55_565)]
    );
    assert_eq!(file.to_data().unwrap(), data);
}

#[test]
fn format_detection() {
    assert_eq!(get_subtitle_format_by_extension(Some("srt")), Some(SubtitleFormat::SubRip));
    assert_eq!(
        get_subtitle_format_by_extension_err(Some("ass")).unwrap(),
        SubtitleFormat::SubStationAlpha
    );
    assert_eq!(get_subtitle_format(Some("sub"), MDVD.as_bytes()), Some(SubtitleFormat::MicroDVD));
    assert_eq!(get_subtitle_format_err(Some("sub"), &tiny_sub()).unwrap(), SubtitleFormat::VobSubSub);
    assert!(is_valid_extension_for_subtitle_format(Some("idx"), SubtitleFormat::VobSubIdx));
    assert_eq!(SubtitleFormat::SubRip.get_name(), ".srt (SubRip)");
}

#[test]
fn parse_str_and_the_per_format_constructors() {
    assert_eq!(
        parse_str(SubtitleFormat::SubRip, SRT, fps30())
            .unwrap()
            .get_subtitle_entries()
            .unwrap()
            .len(),
        2
    );

    assert_eq!(SrtFile::parse(SRT).unwrap().get_subtitle_entries().unwrap().len(), 2);
    assert_eq!(SsaFile::parse(SSA).unwrap().get_subtitle_entries().unwrap().len(), 1);
    assert_eq!(IdxFile::parse(IDX).unwrap().get_subtitle_entries().unwrap().len(), 2);
    assert_eq!(MdvdFile::parse(MDVD, fps30()).unwrap().get_subtitle_entries().unwrap().len(), 2);
    assert_eq!(VobFile::parse(&tiny_sub()).unwrap().get_subtitle_entries().unwrap().len(), 1);
}

#[test]
fn srt_can_be_created_from_scratch() {
    let file = SrtFile::create(vec![(span(1500, 3700), "line1".to_string())]).unwrap();
    assert_eq!(
        String::from_utf8(file.to_data().unwrap()).unwrap(),
        "1\n00:00:01,500 --> 00:00:03,700\nline1\n\n"
    );
}

#[test]
fn charset_detection_and_bom_handling() {
    let gbk = b"1\n00:00:10,000 --> 00:00:12,000\n\xc4\xe3\xba\xc3\xca\xc0\xbd\xe7\n\n";
    let entries = parse_bytes(SubtitleFormat::SubRip, gbk, None, fps30())
        .unwrap()
        .get_subtitle_entries()
        .unwrap();
    assert_eq!(entries[0].line.as_deref(), Some("你好世界"));

    let bom = "\u{feff}1\r\n00:00:10,000 --> 00:00:12,000\r\nBOM line\r\n\r\n";
    let file = parse_bytes(SubtitleFormat::SubRip, bom.as_bytes(), None, fps30()).unwrap();
    assert_eq!(file.get_subtitle_entries().unwrap()[0].line.as_deref(), Some("BOM line"));
    assert_eq!(
        String::from_utf8(file.to_data().unwrap()).unwrap(),
        "1\n00:00:10,000 --> 00:00:12,000\nBOM line\n\n"
    );

    let latin1 = b"1\n00:00:10,000 --> 00:00:12,000\nCaf\xe9 na\xefve\n\n";
    let entries = parse_bytes(SubtitleFormat::SubRip, latin1, Some(&TextEncoding::from_encoding(encoding_rs::WINDOWS_1252)), fps30())
        .unwrap()
        .get_subtitle_entries()
        .unwrap();
    assert_eq!(entries[0].line.as_deref(), Some("Café naïve"));
}

#[test]
fn errors_implement_std_error_and_chain() {
    let error = parse_bytes(SubtitleFormat::SubRip, b"not a subtitle at all\n", None, fps30()).unwrap_err();
    assert_eq!(
        error.chain_strings(),
        [
            "parsing the subtitle data failed",
            "parse error at line `0`",
            "expected SubRip index line, found 'not a subtitle at all'",
            "invalid digit found in string",
        ]
    );
}
