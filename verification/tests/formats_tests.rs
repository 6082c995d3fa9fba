use alass::errors::Error;
use alass::formats::microdvd::Fps;
use alass::formats::{
    decode_bytes_to_string, get_subtitle_format, get_subtitle_format_by_extension,
    get_subtitle_format_by_extension_err, get_subtitle_format_err, is_valid_extension_for_subtitle_format,
    parse_bytes, parse_str, SubtitleFile, SubtitleFormat, TextEncoding,
};

fn enc(e: &'static encoding_rs::Encoding) -> TextEncoding {
    TextEncoding::from_encoding(e)
}

fn fps25() -> Fps {
    Fps::new(25, 1).unwrap()
}

/// A one-subtitle `VobSub` stream: one pack, one subpicture shown from 1 s to 2.74 s.
fn tiny_sub() -> Vec<u8> {
    let mut sp = vec![0x00, 38, 0x00, 8, 0x11, 0x22, 0x33, 0x44];
    sp.extend_from_slice(&[0x00, 0x00, 0x00, 32, 0x01]);
    sp.extend_from_slice(&[0x03, 0x01, 0x23, 0x04, 0xff, 0xf0]);
    sp.extend_from_slice(&[0x05, 0x00, 0x00, 0x0f, 0x00, 0x00, 0x0f]);
    sp.extend_from_slice(&[0x06, 0x00, 0x04, 0x00, 0x06, 0xff]);
    sp.extend_from_slice(&[0x00, 174, 0x00, 32, 0x02, 0xff]);
    // PTS 90000 with its marker bits
    let mut body = vec![0x81, 0x80, 5, 0x21, 0x00, 0x05, 0xbf, 0x21, 0x20];
    body.extend_from_slice(&sp);
    let mut out = vec![0x00, 0x00, 0x01, 0xba, 0x44, 0x00, 0x04, 0x00, 0x04, 0x01, 0x00, 0x00, 0x03, 0xf8];
    out.extend_from_slice(&[0x00, 0x00, 0x01, 0xbd, 0x00, body.len() as u8]);
    out.extend_from_slice(&body);
    out
}

#[test]
fn test_subtitle_format_by_extension() {
    assert_eq!(get_subtitle_format_by_extension(Some("srt")), Some(SubtitleFormat::SubRip));
    assert_eq!(get_subtitle_format_by_extension(Some("ass")), Some(SubtitleFormat::SubStationAlpha));
    assert_eq!(get_subtitle_format_by_extension(Some("idx")), Some(SubtitleFormat::VobSubIdx));
    assert_eq!(get_subtitle_format_by_extension(Some("sub")), None);
    assert_eq!(get_subtitle_format_by_extension(None), None);
}

#[test]
fn sub_files_are_told_apart_by_their_magic_number() {
    assert_eq!(
        get_subtitle_format(Some("sub"), &[0x00, 0x00, 0x01, 0xba, 0x44]),
        Some(SubtitleFormat::VobSubSub)
    );
    assert_eq!(get_subtitle_format(Some("sub"), b"{0}{25}Hi"), Some(SubtitleFormat::MicroDVD));
    assert_eq!(get_subtitle_format(Some("sub"), &[0x00, 0x00]), Some(SubtitleFormat::MicroDVD));
}

#[test]
fn extension_validation() {
    assert!(is_valid_extension_for_subtitle_format(Some("ssa"), SubtitleFormat::SubStationAlpha));
    assert!(is_valid_extension_for_subtitle_format(Some("sub"), SubtitleFormat::MicroDVD));
    assert!(!is_valid_extension_for_subtitle_format(Some("srt"), SubtitleFormat::VobSubIdx));
}

#[test]
fn unknown_formats_are_reported() {
    assert!(get_subtitle_format_by_extension_err(Some("txt")).is_err());
    assert!(get_subtitle_format_err(Some("txt"), b"").is_err());
}

#[test]
fn explicit_encoding_wins() {
    let bytes = b"Caf\xe9";
    assert_eq!(decode_bytes_to_string(bytes, Some(&enc(encoding_rs::WINDOWS_1252))).unwrap(), "Café");
    assert!(decode_bytes_to_string(bytes, Some(&enc(encoding_rs::UTF_8))).is_err());
}

#[test]
fn a_byte_order_mark_is_honoured_before_guessing() {
    let utf16le = b"\xff\xfeh\0e\0l\0l\0o\0";
    assert_eq!(decode_bytes_to_string(utf16le, None).unwrap(), "hello");

    let utf8_bom = b"\xef\xbb\xbfhello";
    assert_eq!(decode_bytes_to_string(utf8_bom, None).unwrap(), "hello");
}

#[test]
fn windows_1251_is_detected_as_cyrillic() {
    let bytes = b"\xcf\xf0\xe8\xe2\xe5\xf2, \xea\xe0\xea \xe4\xe5\xeb\xe0";
    assert_eq!(decode_bytes_to_string(bytes, None).unwrap(), "Привет, как дела");
}

#[test]
fn utf16_without_a_bom_is_not_silently_mojibaked() {
    let mut utf16 = Vec::new();
    for unit in "1\n00:00:10,000 --> 00:00:12,000\nHello\n\n".encode_utf16() {
        utf16.extend_from_slice(&unit.to_le_bytes());
    }
    assert!(parse_bytes(SubtitleFormat::SubRip, &utf16, None, fps25()).is_err());
}

#[test]
fn realistic_subtitle_text_survives_detection() {
    for (bytes, expected) in [
        (
            &b"Nie mog\xea uwierzy\xe6, \xbfe on ju\xbf wyjecha\xb3 st\xb9d."[..],
            "Nie mogę uwierzyć, że on już wyjechał stąd.",
        ),
        (
            &b"Die Stra\xdfe war v\xf6llig \xfcberf\xfcllt heute Abend."[..],
            "Die Straße war völlig überfüllt heute Abend.",
        ),
        (
            "Die Straße war völlig überfüllt heute Abend.".as_bytes(),
            "Die Straße war völlig überfüllt heute Abend.",
        ),
        (
            &b"\xce\xd2\xd5\xe6\xb2\xbb\xb8\xd2\xcf\xe0\xd0\xc5\xcb\xfb\xd2\xd1\xbe\xad\xc0\xeb\xbf\xaa\xd5\xe2\xc0\xef\xc1\xcb\xa1\xa3"[..],
            "我真不敢相信他已经离开这里了。",
        ),
    ] {
        assert_eq!(decode_bytes_to_string(bytes, None).unwrap(), expected);
    }
}

#[test]
fn an_empty_file_has_no_detectable_encoding() {
    assert!(matches!(decode_bytes_to_string(b"", None), Err(Error::EncodingDetectionError)));
    assert_eq!(decode_bytes_to_string(b"", Some(&enc(encoding_rs::UTF_8))).unwrap(), "");
}

#[test]
fn parse_str_rejects_binary_formats() {
    assert_eq!(
        parse_str(SubtitleFormat::VobSubSub, "", fps25()).unwrap_err().to_string(),
        "operation does not work on binary subtitle formats (only text formats)"
    );
}

#[test]
fn parse_bytes_dispatches_to_every_format() {
    let srt = parse_bytes(
        SubtitleFormat::SubRip,
        b"1\n00:00:01,000 --> 00:00:02,000\nhi\n\n",
        None,
        fps25(),
    )
    .unwrap();
    assert!(matches!(srt, SubtitleFile::SubRipFile(_)));
    assert_eq!(srt.get_subtitle_entries().unwrap().len(), 1);

    let mdvd = parse_bytes(SubtitleFormat::MicroDVD, b"{0}{25}hi", None, fps25()).unwrap();
    assert!(matches!(mdvd, SubtitleFile::MicroDVDFile(_)));

    let sub = parse_bytes(SubtitleFormat::VobSubSub, &tiny_sub(), None, fps25()).unwrap();
    assert!(matches!(sub, SubtitleFile::VobSubSubFile(_)));
    assert_eq!(sub.get_subtitle_entries().unwrap().len(), 1);
}

#[test]
fn an_empty_file_is_not_a_subtitle_with_no_lines() {
    assert!(matches!(
        parse_bytes(SubtitleFormat::SubRip, b"", None, fps25()),
        Err(Error::EncodingDetectionError)
    ));
    assert!(parse_bytes(SubtitleFormat::SubRip, b"", Some(&enc(encoding_rs::UTF_8)), fps25()).is_ok());
}

#[test]
fn format_names_describe_the_format() {
    assert_eq!(SubtitleFormat::SubRip.get_name(), ".srt (SubRip)");
    assert_eq!(SubtitleFormat::MicroDVD.get_name(), ".sub (MicroDVD)");
    assert_eq!(SubtitleFormat::VobSubSub.get_name(), ".sub (VobSub)");
}

#[test]
fn a_pack_start_code_decides_a_sub_file() {
    assert_eq!(get_subtitle_format_err(Some("sub"), &tiny_sub()).unwrap(), SubtitleFormat::VobSubSub);
    assert_eq!(get_subtitle_format(Some("txt"), &tiny_sub()), None);
    assert_eq!(get_subtitle_format(None, b""), None);
}

#[test]
fn a_binary_file_is_rejected_by_a_text_format_decoder() {
    assert!(matches!(
        decode_bytes_to_string(b"\xff\xff\xfe", Some(&enc(encoding_rs::UTF_8))),
        Err(Error::DecodingError)
    ));
}

#[test]
fn an_explicit_encoding_wins_over_a_byte_order_mark() {
    let bytes = b"\xef\xbb\xbfCaf\xe9";
    assert_eq!(
        decode_bytes_to_string(bytes, Some(&enc(encoding_rs::WINDOWS_1252))).unwrap(),
        "\u{ef}\u{bb}\u{bf}Caf\u{e9}"
    );
    // the byte order mark of the encoding asked for is dropped
    assert_eq!(decode_bytes_to_string(b"\xef\xbb\xbfok", Some(&enc(encoding_rs::UTF_8))).unwrap(), "ok");
}

#[test]
fn without_an_encoding_a_byte_order_mark_decides() {
    assert_eq!(decode_bytes_to_string(b"\xff\xfeo\x00k\x00", None).unwrap(), "ok");
    assert_eq!(decode_bytes_to_string(b"\xef\xbb\xbfCaf\xc3\xa9", None).unwrap(), "Caf\u{e9}");
    assert_eq!(decode_bytes_to_string(b"plain ascii", None).unwrap(), "plain ascii");
}

#[test]
fn updating_with_the_wrong_count_keeps_every_text_file() {
    let ssa = "[Events]\nFormat: Layer, Start, End, Text\nDialogue: 0,0:00:01.00,0:00:02.00,Hi\n";
    let mut file = parse_str(SubtitleFormat::SubStationAlpha, ssa, fps25()).unwrap();
    let before = file.to_data().unwrap();
    assert!(matches!(
        file.update_subtitle_entries(&[]),
        Err(Error::EntryCountMismatch { expected: 1, provided: 0 })
    ));
    assert_eq!(file.to_data().unwrap(), before);
    let entries = file.get_subtitle_entries().unwrap();
    assert!(file.update_subtitle_entries(&entries).is_ok());
}

#[test]
fn a_subrip_file_in_the_writers_form_is_written_back_unchanged() {
    let srt = "1\n00:00:01,000 --> 00:00:02,500\nHello\n\n7\n00:00:00,000 --> 00:00:04,000\nA\nB\n\n";
    let file = parse_str(SubtitleFormat::SubRip, srt, fps25()).unwrap();
    assert_eq!(file.to_data().unwrap(), srt.as_bytes().to_vec());
}

#[test]
fn a_wrong_entry_count_names_both_counts() {
    let srt = "1\n00:00:01,000 --> 00:00:02,500\nHello\n\n";
    let mut file = parse_str(SubtitleFormat::SubRip, srt, fps25()).unwrap();
    assert!(matches!(
        file.update_subtitle_entries(&[]),
        Err(Error::EntryCountMismatch { expected: 1, provided: 0 })
    ));
    assert_eq!(file.to_data().unwrap(), srt.as_bytes().to_vec());
}
