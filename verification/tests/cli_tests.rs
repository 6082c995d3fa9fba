use alass::cli::audio::{AudioReceiver, ChunkedAudioReceiver, ProgressCounter, VoiceActivityReceiver};
use alass::cli::errors::InputVideoError;
use alass::cli::errors::InputSubtitleError;
use alass::cli::report::{clamp_negative_starts, delta_range, group_extent, parse_encoding_arg, reference_timing_lines};
use alass::cli::video::{CodecType, Stream, VideoDecoderFFmpegBinary};
use alass::cli::{timings_to_alg_timespans,
    alg_delta_to_delta, alg_deltas_to_timing_deltas, get_subtitle_delta_groups, is_known_subtitle_extension,
    timing_to_alg_timepoint, InputFileHandler, SubtitleFileHandler, VideoFileHandler,
};
use alass::formats::microdvd::Fps;
use alass::formats::SubtitleFormat;
use alass::timetypes::{TimePoint, TimeSpan};

fn span(start_ms: i64, end_ms: i64) -> TimeSpan {
    TimeSpan::new(TimePoint::from_msecs(start_ms), TimePoint::from_msecs(end_ms))
}

fn spans_ms(spans: &[TimeSpan]) -> Vec<(i64, i64)> {
    spans.iter().map(|t| (t.start.msecs(), t.end.msecs())).collect()
}

struct Collect {
    chunks: Vec<Vec<i16>>,
}

impl AudioReceiver for Collect {
    type Output = Vec<Vec<i16>>;
    type Error = ();

    fn push_samples(&mut self, samples: &[i16]) -> Result<(), ()> {
        self.chunks.push(samples.to_vec());
        Ok(())
    }

    fn finish(self) -> Result<Vec<Vec<i16>>, ()> {
        Ok(self.chunks)
    }
}

#[test]
fn chunks_are_handed_on_in_full_sizes() {
    let mut r = ChunkedAudioReceiver::new(3, Collect { chunks: Vec::new() });
    r.push_samples(&[1, 2]).unwrap();
    r.push_samples(&[3, 4, 5, 6, 7]).unwrap();
    r.push_samples(&[]).unwrap();
    let chunks = r.finish().unwrap();
    // the partial chunk `[7]` is never handed on
    assert_eq!(chunks, vec![vec![1, 2, 3], vec![4, 5, 6]]);
}

struct Refuse;

impl AudioReceiver for Refuse {
    type Output = ();
    type Error = u8;

    fn push_samples(&mut self, _samples: &[i16]) -> Result<(), u8> {
        Err(7)
    }

    fn finish(self) -> Result<(), u8> {
        Err(9)
    }
}

#[test]
fn only_a_full_chunk_can_fail() {
    let mut r = ChunkedAudioReceiver::new(3, Refuse);
    assert_eq!(r.push_samples(&[1, 2]), Ok(()));
    assert_eq!(r.push_samples(&[3, 4]), Err(7));
    // the refused chunk is dropped, and a partial chunk is held again without failing
    assert_eq!(r.push_samples(&[5]), Ok(()));
    assert_eq!(r.finish(), Err(9));
}

#[test]
fn progress_ticks_every_prescaler_steps() {
    let mut p = ProgressCounter::new(3);
    let ticks: Vec<bool> = (0..7).map(|_| p.inc()).collect();
    assert_eq!(ticks, [false, false, true, false, false, true, false]);
    assert_eq!(p.bar_length(10), 3);
    assert_eq!(p.bar_length(-4), 0);
}

#[test]
fn voice_activity_becomes_timespans() {
    let vad = [false, true, true, false, false, true, false, true, true, true];
    let h = VideoFileHandler::from_voice_activity(&vad);
    // every frame is 10 ms; a segment runs from its first to its last voiced frame
    assert_eq!(spans_ms(h.timespans()), [(10, 20), (50, 50), (70, 90)]);
    assert!(VideoFileHandler::from_voice_activity(&[]).timespans().is_empty());
}

#[test]
fn short_voice_segments_are_filtered_out() {
    let mut h = InputFileHandler::Video(VideoFileHandler::from_cache(vec![span(0, 100), span(200, 250), span(300, 500)]));
    h.filter_video_with_min_span_length_ms(100);
    assert_eq!(spans_ms(h.timespans()), [(0, 100), (300, 500)]);
    assert!(h.into_subtitle_file().is_none());
}

#[test]
fn subtitle_files_are_opened_by_their_extension() {
    let data = b"1\n00:00:02,000 --> 00:00:01,000\nbackwards\n\n";
    let h = SubtitleFileHandler::open_sub_data("a.srt", Some("srt"), data, None, Fps::new(25, 1).unwrap()).unwrap();
    assert_eq!(h.file_format(), SubtitleFormat::SubRip);
    // the ends of a timespan are put in order
    assert_eq!(spans_ms(h.timespans()), [(1000, 2000)]);

    let mut input = InputFileHandler::Subtitle(h);
    input.filter_video_with_min_span_length_ms(5000);
    assert_eq!(spans_ms(input.timespans()), [(1000, 2000)]);
    assert!(input.into_subtitle_file().is_some());
}

#[test]
fn unknown_and_broken_subtitles_are_reported_with_their_path() {
    let fps = Fps::new(25, 1).unwrap();
    match SubtitleFileHandler::open_sub_data("a.txt", Some("txt"), b"hello", None, fps) {
        Err(InputSubtitleError::UnknownSubtitleFormat { path, .. }) => assert_eq!(path, "a.txt"),
        other => panic!("{other:?}"),
    }
    match SubtitleFileHandler::open_sub_data("b.srt", Some("srt"), b"nonsense\n", None, fps) {
        Err(InputSubtitleError::ParsingSubtitleFailed { path, .. }) => assert_eq!(path, "b.srt"),
        other => panic!("{other:?}"),
    }
}

#[test]
fn known_subtitle_extensions() {
    for ext in ["srt", "vob", "idx", "ass", "ssa", "sub"] {
        assert!(is_known_subtitle_extension(Some(ext)), "{ext}");
    }
    assert!(!is_known_subtitle_extension(Some("mkv")));
    assert!(!is_known_subtitle_extension(None));
}

#[test]
fn algorithm_time_conversions() {
    assert_eq!(timing_to_alg_timepoint(TimePoint::from_msecs(1234), 10), 123);
    assert_eq!(timing_to_alg_timepoint(TimePoint::from_msecs(-1234), 10), -123);
    assert_eq!(alg_delta_to_delta(-7, 10).msecs(), -70);
    let deltas = alg_deltas_to_timing_deltas(&[1, 0, -3], 10);
    assert_eq!(deltas.iter().map(|d| d.msecs()).collect::<Vec<_>>(), [10, 0, -30]);
}

#[test]
fn delta_groups_follow_the_sorted_spans() {
    let groups = get_subtitle_delta_groups(vec![
        (5, span(3000, 4000)),
        (5, span(1000, 2000)),
        (7, span(2500, 2600)),
        (5, span(5000, 6000)),
        (5, span(7000, 6500)),
    ]);
    let view: Vec<(i64, Vec<(i64, i64)>)> = groups.iter().map(|(d, s)| (*d, spans_ms(s))).collect();
    assert_eq!(
        view,
        [
            (5, vec![(1000, 2000)]),
            (7, vec![(2500, 2600)]),
            (5, vec![(3000, 4000), (5000, 6000), (7000, 6500)]),
        ]
    );
    assert!(get_subtitle_delta_groups(Vec::new()).is_empty());
}

fn stream(index: usize, channels: Option<usize>, codec: &str) -> Stream {
    Stream { index, channels, duration: None, codec_type: CodecType::from_name(codec) }
}

#[test]
fn codec_types_are_read_by_name() {
    assert!(matches!(CodecType::from_name("audio"), CodecType::Audio));
    assert!(matches!(CodecType::from_name("video"), CodecType::Video));
    assert!(matches!(CodecType::from_name("subtitle"), CodecType::Subtitle));
    match CodecType::from_name("data") {
        CodecType::Other(name) => assert_eq!(name, "data"),
        other => panic!("{other:?}"),
    }
}

#[test]
fn the_audio_stream_with_the_fewest_channels_is_read() {
    let streams = [
        stream(0, None, "video"),
        stream(1, Some(6), "audio"),
        stream(2, Some(2), "audio"),
        stream(3, None, "audio"),
        stream(4, Some(2), "audio"),
    ];
    assert_eq!(VideoDecoderFFmpegBinary::select_stream(&streams, None), Some(2));
    assert_eq!(VideoDecoderFFmpegBinary::select_stream(&streams, Some(1)), Some(1));
    // stream 3 has no channel count and stream 0 is video
    assert_eq!(VideoDecoderFFmpegBinary::select_stream(&streams, Some(3)), None);
    assert_eq!(VideoDecoderFFmpegBinary::select_stream(&streams, Some(0)), None);
    assert_eq!(VideoDecoderFFmpegBinary::select_stream(&streams[..1], None), None);
}

#[test]
fn the_stream_duration_falls_back_to_the_file_duration() {
    let mut s = stream(1, Some(2), "audio");
    assert_eq!(VideoDecoderFFmpegBinary::stream_duration(&s, Some("12.5")), Some("12.5".to_string()));
    assert_eq!(VideoDecoderFFmpegBinary::stream_duration(&s, None), None);
    s.duration = Some("3.0".to_string());
    assert_eq!(VideoDecoderFFmpegBinary::stream_duration(&s, Some("12.5")), Some("3.0".to_string()));
    assert_eq!(VideoDecoderFFmpegBinary::map_arg(12), "0:12");
}

#[test]
fn bytes_become_little_endian_samples_across_reads() {
    let (samples, half) = VideoDecoderFFmpegBinary::decode_samples(None, &[0x01, 0x00, 0xff, 0xff, 0x34]);
    assert_eq!(samples, [1, -1]);
    assert_eq!(half, Some(0x34));
    let (samples, half) = VideoDecoderFFmpegBinary::decode_samples(half, &[0x12, 0x00, 0x80]);
    assert_eq!(samples, [0x1234, -32768]);
    assert_eq!(half, None);
    assert_eq!(VideoDecoderFFmpegBinary::decode_samples(Some(7), &[]), (vec![], Some(7)));
}

#[test]
fn progress_advances_every_two_hundred_samples() {
    assert_eq!(VideoDecoderFFmpegBinary::advance_progress(0, 199), (0, 199));
    assert_eq!(VideoDecoderFFmpegBinary::advance_progress(199, 1), (1, 0));
    assert_eq!(VideoDecoderFFmpegBinary::advance_progress(150, 1000), (5, 150));
}

#[test]
fn timespans_in_alignment_units() {
    assert_eq!(timings_to_alg_timespans(&[span(1234, -1234)], 10), [(123, -123)]);
}

#[test]
fn negative_starts_are_moved_to_zero() {
    let spans = clamp_negative_starts(vec![span(-500, 1500), span(100, 200), span(-10, -5)]);
    assert_eq!(spans_ms(&spans), [(0, 2000), (100, 200), (0, 5)]);
}

#[test]
fn the_debug_file_numbers_its_lines() {
    let lines = reference_timing_lines(&[span(0, 10), span(20, 30)]);
    assert_eq!(lines[0].1, "line 0");
    assert_eq!(lines[1].1, "line 1");
    assert_eq!((lines[1].0.start.msecs(), lines[1].0.end.msecs()), (20, 30));
}

#[test]
fn report_figures() {
    let (first, last) = group_extent(&[span(300, 400), span(100, 900), span(200, 250)]);
    assert_eq!((first.msecs(), last.msecs()), (100, 300));
    assert_eq!(delta_range(&[3, -2, 7, 0]), Some((-2, 7)));
    assert_eq!(delta_range(&[]), None);
}

#[test]
fn encoding_labels() {
    assert!(matches!(parse_encoding_arg("auto"), Ok(None)));
    assert!(matches!(parse_encoding_arg("AuTo"), Ok(None)));
    let latin1 = parse_encoding_arg("latin1").unwrap().unwrap();
    assert_eq!(latin1.name(), "windows-1252");
    assert_eq!(latin1.encoding(), encoding_rs::WINDOWS_1252);
    assert_eq!(parse_encoding_arg(" UTF8 ").unwrap().unwrap().name(), "UTF-8");
    assert_eq!(parse_encoding_arg("nope").unwrap_err(), "'nope' is not a known encoding label".to_string());
}

#[test]
fn spans_with_the_same_start_keep_their_order() {
    let groups = get_subtitle_delta_groups(vec![(1, span(500, 600)), (2, span(500, 700)), (1, span(100, 200))]);
    let view: Vec<(i64, Vec<(i64, i64)>)> = groups.iter().map(|(d, s)| (*d, spans_ms(s))).collect();
    assert_eq!(view, [(1, vec![(100, 200), (500, 600)]), (2, vec![(500, 700)])]);
}

#[test]
fn the_voice_detector_takes_chunks_of_ten_milliseconds() {
    let mut vad = VoiceActivityReceiver::new();
    assert!(matches!(vad.push_samples(&[0; 79]), Err(InputVideoError::VadAnalysisFailed)));
    assert!(vad.push_samples(&[0; 80]).is_ok());
    assert!(vad.push_samples(&[0; 80]).is_ok());
    let flags = vad.finish().unwrap();
    assert_eq!(flags, vec![false, false]);
}

#[test]
fn chunks_reach_the_voice_detector() {
    let mut r = ChunkedAudioReceiver::new(80, VoiceActivityReceiver::new());
    assert!(r.push_samples(&[0; 200]).is_ok());
    assert_eq!(r.finish().unwrap().len(), 2);
}

#[test]
fn progress_below_zero_advances_nothing() {
    assert_eq!(VideoDecoderFFmpegBinary::advance_progress(-300, 50), (0, -250));
    assert_eq!(VideoDecoderFFmpegBinary::advance_progress(450, 10), (2, 60));
    assert_eq!(VideoDecoderFFmpegBinary::advance_progress(0, 0), (0, 0));
}

#[test]
fn samples_do_not_depend_on_how_the_reads_are_cut() {
    let bytes: [u8; 7] = [1, 0, 0xff, 0xff, 0x34, 0x12, 9];
    let (whole, rest) = VideoDecoderFFmpegBinary::decode_samples(None, &bytes);
    let (a, half) = VideoDecoderFFmpegBinary::decode_samples(None, &bytes[..3]);
    let (b, rest2) = VideoDecoderFFmpegBinary::decode_samples(half, &bytes[3..]);
    assert_eq!(whole, vec![1, -1, 0x1234]);
    assert_eq!([a, b].concat(), whole);
    assert_eq!(rest, Some(9));
    assert_eq!(rest2, rest);
}
