use alass::errors::VobSubStreamError;
use alass::formats::vobsub::VobFile;
use alass::formats::vobsub_timings::{timings, VobSubTiming};

const PS_PACK_START: [u8; 4] = [0x00, 0x00, 0x01, 0xba];

/// An MPEG-2 pack header with all marker bits set and no stuffing.
const PACK_HEADER: [u8; 10] = [0x44, 0x00, 0x04, 0x00, 0x04, 0x01, 0x00, 0x00, 0x03, 0xf8];

/// The five bytes of a PES presentation timestamp, tagged `0b0010`.
fn pts_bytes(pts: u64) -> [u8; 5] {
    [
        0x20 | (((pts >> 30) & 0x7) as u8) << 1 | 1,
        ((pts >> 22) & 0xff) as u8,
        (((pts >> 15) & 0x7f) as u8) << 1 | 1,
        ((pts >> 7) & 0xff) as u8,
        ((pts & 0x7f) as u8) << 1 | 1,
    ]
}

/// One program stream pack carrying a `private_stream_1` PES packet.
fn pack(pts: Option<u64>, substream: u8, payload: &[u8]) -> Vec<u8> {
    let mut body = vec![0x81];
    match pts {
        Some(pts) => {
            body.push(0x80);
            body.push(5);
            body.extend_from_slice(&pts_bytes(pts));
        }
        None => {
            body.push(0x00);
            body.push(0);
        }
    }
    body.push(substream);
    body.extend_from_slice(payload);

    let mut out = PS_PACK_START.to_vec();
    out.extend_from_slice(&PACK_HEADER);
    out.extend_from_slice(&[0x00, 0x00, 0x01, 0xbd]);
    out.push((body.len() >> 8) as u8);
    out.push((body.len() & 0xff) as u8);
    out.extend_from_slice(&body);
    out
}

/// A 38-byte subpicture that starts at its base time and stops `stop_date`
/// hundredths of a second later.
fn subpicture(stop_date: u16) -> Vec<u8> {
    let mut sp = vec![0x00, 38, 0x00, 8];
    sp.extend_from_slice(&[0x11, 0x22, 0x33, 0x44]); // run-length data
    // first control sequence, at 8: date 0, next at 32
    sp.extend_from_slice(&[0x00, 0x00, 0x00, 32]);
    sp.push(0x01); // start display
    sp.extend_from_slice(&[0x03, 0x01, 0x23]); // palette
    sp.extend_from_slice(&[0x04, 0xff, 0xf0]); // alpha
    sp.extend_from_slice(&[0x05, 0x00, 0x00, 0x0f, 0x00, 0x00, 0x0f]); // coordinates
    sp.extend_from_slice(&[0x06, 0x00, 0x04, 0x00, 0x06]); // line offsets
    sp.push(0xff);
    // second control sequence, at 32: the last one
    sp.extend_from_slice(&[(stop_date >> 8) as u8, (stop_date & 0xff) as u8, 0x00, 32]);
    sp.push(0x02); // stop display
    sp.push(0xff);
    assert_eq!(sp.len(), 38);
    sp
}

/// One subtitle shown from 1 s to 2.74 s.
fn tiny() -> Vec<u8> {
    pack(Some(90_000), 0x20, &subpicture(174))
}

/// The same subtitle, split over two PES packets.
fn tiny_split() -> Vec<u8> {
    let sp = subpicture(174);
    let mut out = pack(Some(90_000), 0x20, &sp[..20]);
    out.extend(pack(None, 0x20, &sp[20..]));
    out
}

/// Two subtitles; the second is split over two packets with padding between them
/// that holds the middle of the file.
fn example() -> Vec<u8> {
    let first = pack(Some(4_451_949), 0x20, &subpicture(150));
    let sp = subpicture(293);
    let second_a = pack(Some(4_737_231), 0x20, &sp[..20]);
    let second_b = pack(None, 0x20, &sp[20..]);
    let a = first.len() + second_a.len();
    let padding = a - second_b.len() + 10;
    let mut out = first;
    out.extend(second_a);
    out.extend(std::iter::repeat(0xffu8).take(padding));
    out.extend(second_b);
    out
}

fn round4(timings: &[VobSubTiming]) -> Vec<(f64, f64)> {
    let secs = |ticks: i64| ((ticks as f64 / 90_000.0) * 10000.0).round() / 10000.0;
    timings.iter().map(|t| (secs(t.start), secs(t.end))).collect()
}

fn spans(file: &VobFile) -> Vec<(i64, i64)> {
    file.get_subtitle_entries()
        .unwrap()
        .iter()
        .map(|e| (e.timespan.start.msecs(), e.timespan.end.msecs()))
        .collect()
}

#[test]
fn example_fixture_timings() {
    let file = VobFile::parse(&example()).unwrap();
    assert_eq!(spans(&file), [(49466, 50966), (52635, 55565)]);
    assert!(file.get_subtitle_entries().unwrap().iter().all(|e| e.line.is_none()));
}

#[test]
fn tiny_fixtures_agree() {
    let tiny = VobFile::parse(&tiny()).unwrap();
    let split = VobFile::parse(&tiny_split()).unwrap();
    assert_eq!(spans(&tiny), [(1000, 2740)]);
    assert_eq!(spans(&split), spans(&tiny));
}

#[test]
fn to_data_returns_the_original_bytes() {
    let data = tiny();
    let file = VobFile::parse(&data).unwrap();
    assert_eq!(file.to_data().unwrap(), data);
}

#[test]
fn updating_entries_is_not_supported() {
    let mut file = VobFile::parse(&tiny()).unwrap();
    let error = file.update_subtitle_entries(&[]).unwrap_err();
    assert_eq!(
        error.to_string(),
        "updating subtitles is not implemented or supported by the `subparse` library for this format: .sub (VobSub)"
    );
}

#[test]
fn example_sub_matches_vobsub() {
    let timings = timings(&example()).unwrap();
    assert_eq!(timings.len(), 2);
    assert_eq!(round4(&timings), [(49.4661, 50.9661), (52.6359, 55.5659)]);
}

#[test]
fn tiny_sub_matches_vobsub() {
    assert_eq!(round4(&timings(&tiny()).unwrap()), [(1.0, 2.74)]);
}

#[test]
fn tiny_split_sub_matches_vobsub() {
    let split = timings(&tiny_split()).unwrap();
    assert_eq!(round4(&split), [(1.0, 2.74)]);
    assert_eq!(split, timings(&tiny()).unwrap());
}

#[test]
fn truncated_stream_keeps_the_complete_subtitles() {
    let data = example();
    let timings = timings(&data[..data.len() / 2]).unwrap();
    assert_eq!(round4(&timings), [(49.4661, 50.9661)]);
}

#[test]
fn empty_and_garbage_input_yield_no_timings() {
    assert_eq!(timings(&[]).unwrap(), []);
    assert_eq!(timings(b"not an mpeg program stream at all").unwrap(), []);
}

#[test]
fn truncated_pack_header_is_an_error() {
    assert_eq!(timings(&PS_PACK_START), Err(VobSubStreamError::IncompletePesPacket));
}

#[test]
fn unparsable_pack_resynchronises() {
    let mut data = PS_PACK_START.to_vec();
    data.extend_from_slice(&[0x00; 10]);
    assert_eq!(timings(&data).unwrap(), []);
}

#[test]
fn a_short_trailing_non_subtitle_pack_does_not_discard_the_file() {
    let tiny = tiny();
    let pack_header = &tiny[..14];

    for tail in [
        &[0x00, 0x00, 0x01, 0xe0, 0x12][..],
        &[0x00, 0x00, 0x01, 0xe0][..],
        &[0xaa, 0xbb, 0xcc][..],
    ] {
        let mut data = tiny.to_vec();
        data.extend_from_slice(pack_header);
        data.extend_from_slice(tail);
        assert_eq!(round4(&timings(&data).unwrap()), [(1.0, 2.74)], "tail {tail:02x?}");
    }

    let mut truncated = pack_header.to_vec();
    truncated.extend_from_slice(&[0x00, 0x00, 0x01, 0xbd, 0x00]);
    assert_eq!(timings(&truncated), Err(VobSubStreamError::IncompletePesPacket));
}

#[test]
fn trailing_garbage_after_a_start_code_does_not_discard_the_file() {
    let tiny = tiny();
    for tail in [&[0xcf][..], &[0xff, 0x00, 0x00][..]] {
        let mut data = tiny.to_vec();
        data.extend_from_slice(&PS_PACK_START);
        data.extend_from_slice(tail);
        assert_eq!(round4(&timings(&data).unwrap()), [(1.0, 2.74)], "tail {tail:02x?}");
    }

    for tail in [&[][..], &[0x44, 0x02, 0xc4, 0x82][..]] {
        let mut data = tiny.to_vec();
        data.extend_from_slice(&PS_PACK_START);
        data.extend_from_slice(tail);
        assert_eq!(timings(&data), Err(VobSubStreamError::IncompletePesPacket), "tail {tail:02x?}");
    }
}

#[test]
fn a_pack_header_with_bad_marker_bits_is_skipped() {
    let tiny = tiny();
    for (offset, mask) in [(4usize, 0x04u8), (6, 0x04), (8, 0x04), (9, 0x01), (12, 0x03)] {
        let mut data = tiny.to_vec();
        data[offset] &= !mask;
        assert_eq!(timings(&data).unwrap(), [], "byte {offset} without {mask:#04x}");
    }
    assert_eq!(round4(&timings(&tiny).unwrap()), [(1.0, 2.74)]);
}

#[test]
fn a_pack_with_unparsable_pes_header_data_is_skipped() {
    let tiny = tiny();
    for (offset, value) in [(21usize, 0x40u8), (21, 0xc0), (23, 0x57)] {
        let mut data = tiny.to_vec();
        data[offset] = value;
        assert_eq!(timings(&data).unwrap(), [], "byte {offset} = {value:02x}");
    }

    let mut data = tiny.to_vec();
    data[21] = 0x00;
    assert_eq!(timings(&data), Err(VobSubStreamError::SubtitleWithoutTiming));
}

#[test]
fn a_subpicture_without_a_stop_date_ends_before_the_next_one() {
    // no stop command: the first ends one millisecond before the second starts,
    // the last one is shown for five seconds
    let mut sp = subpicture(0);
    sp[32..36].copy_from_slice(&[0x00, 0x00, 0x00, 32]);
    sp[36] = 0x00; // force display instead of stop
    let mut data = pack(Some(90_000), 0x20, &sp);
    data.extend(pack(Some(180_000), 0x20, &sp));
    let t = timings(&data).unwrap();
    assert_eq!(t, [
        VobSubTiming { start: 90_000, end: 179_910 },
        VobSubTiming { start: 180_000, end: 630_000 },
    ]);
}

#[test]
fn a_control_sequence_pointing_backwards_is_rejected() {
    let mut sp = subpicture(174);
    sp[34..36].copy_from_slice(&[0x00, 8]);
    let data = pack(Some(90_000), 0x20, &sp);
    assert_eq!(timings(&data), Err(VobSubStreamError::ControlOffsetWentBackwards));
}

#[test]
fn trailing_garbage_keeps_every_stream_as_it_was() {
    for data in [tiny(), tiny_split(), example()] {
        let before = timings(&data).unwrap();
        for tail in [&[0xaa, 0xbb, 0xcc][..], &[0x00, 0x00, 0x01, 0xba, 0xcf][..]] {
            let mut longer = data.clone();
            longer.extend_from_slice(tail);
            assert_eq!(timings(&longer).unwrap(), before, "tail {tail:02x?}");
        }
    }
}
