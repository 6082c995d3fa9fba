//! The decisions of the command line tool: which files are subtitles, how their timings are
//! read, how voice activity becomes timespans, and how the shifts are grouped.

pub mod audio;
pub mod errors;
pub mod report;
pub mod video;

use crate::cli::errors::InputSubtitleError;
use crate::formats::microdvd::Fps;
use crate::formats::srt::entry_models;
use crate::formats::{
    SubtitleFile, SubtitleFormat, TextEncoding, encoding_view, ext_view, file_entries, format_of,
    format_of_file, get_subtitle_format_err, parse_bytes, parse_bytes_spec,
};
use crate::timetypes::{TimeDelta, TimePoint, TimeSpan};
use vstd::prelude::*;

verus! {

broadcast use crate::timetypes::group_time_lemmas;

// ---------------------------------------------------------------------------------------------
// subtitle files

/// The timespan with its ends in order.
pub open spec fn ordered(t: TimeSpan) -> TimeSpan {
    if t.start@ <= t.end@ {
        t
    } else {
        TimeSpan { start: t.end, end: t.start }
    }
}

/// The timespans of the entries, each with its ends in order.
pub open spec fn ordered_spans(v: Seq<(TimeSpan, Option<Seq<char>>)>) -> Seq<TimeSpan> {
    v.map_values(|e: (TimeSpan, Option<Seq<char>>)| ordered(e.0))
}

/// A subtitle file that the timings are read from.
#[derive(Debug)]
pub struct SubtitleFileHandler {
    file_format: SubtitleFormat,
    subtitle_file: SubtitleFile,
    subparse_timespans: Vec<TimeSpan>,
}

impl SubtitleFileHandler {
    pub closed spec fn format(&self) -> SubtitleFormat {
        self.file_format
    }

    pub closed spec fn file(&self) -> SubtitleFile {
        self.subtitle_file
    }

    pub closed spec fn spans(&self) -> Seq<TimeSpan> {
        self.subparse_timespans@
    }

    /// Reads a subtitle file from its data; `path` names it in errors and `extension` is the
    /// extension of its name.
    pub fn open_sub_data(
        path: &str,
        extension: Option<&str>,
        data: &[u8],
        sub_encoding: Option<&TextEncoding>,
        sub_fps: Fps,
    ) -> (r: Result<SubtitleFileHandler, InputSubtitleError>)
        ensures
            format_of_file(ext_view(extension), data@) is None ==> (r matches Err(
                InputSubtitleError::UnknownSubtitleFormat { path: p, source },
            ) && p@ == path@ && source == crate::errors::Error::UnknownFileFormat),
            format_of_file(ext_view(extension), data@) matches Some(f) ==> match r {
                Ok(h) => h.format() == f && parse_bytes_spec(
                    f,
                    data@,
                    encoding_view(sub_encoding),
                    sub_fps,
                    Ok::<SubtitleFile, crate::errors::Error>(h.file()),
                ),
                Err(InputSubtitleError::ParsingSubtitleFailed { path: p, source }) => p@ == path@
                    && parse_bytes_spec(
                    f,
                    data@,
                    encoding_view(sub_encoding),
                    sub_fps,
                    Err::<SubtitleFile, crate::errors::Error>(source),
                ),
                Err(_) => false,
            },
            r matches Ok(h) ==> (format_of(h.file()) == h.format() && h.spans() == ordered_spans(
                file_entries(h.file()),
            )),
    {
        let mut p = String::new();
        crate::text::append_str(&mut p, path);
        let file_format = match get_subtitle_format_err(extension, data) {
            Ok(f) => f,
            Err(source) => {
                return Err(InputSubtitleError::UnknownSubtitleFormat { path: p, source });
            },
        };
        let parsed = match parse_bytes(file_format, data, sub_encoding, sub_fps) {
            Ok(f) => f,
            Err(source) => {
                return Err(InputSubtitleError::ParsingSubtitleFailed { path: p, source });
            },
        };
        let entries = match parsed.get_subtitle_entries() {
            Ok(v) => v,
            Err(source) => {
                return Err(InputSubtitleError::RetrievingSubtitleLinesFailed { path: p, source });
            },
        };
        let mut spans: Vec<TimeSpan> = Vec::new();
        let mut i: usize = 0;
        while i < entries.len()
            invariant
                i <= entries@.len(),
                spans@ == ordered_spans(entry_models(entries@)).take(i as int),
            decreases entries@.len() - i,
        {
            let t = entries[i].timespan;
            let o = if t.start.msecs() <= t.end.msecs() {
                t
            } else {
                TimeSpan::new(t.end, t.start)
            };
            spans.push(o);
            assert(spans@ =~= ordered_spans(entry_models(entries@)).take(i + 1));
            i = i + 1;
        }
        assert(ordered_spans(entry_models(entries@)).take(entries@.len() as int) =~= ordered_spans(
            entry_models(entries@),
        ));
        Ok(SubtitleFileHandler { file_format, subtitle_file: parsed, subparse_timespans: spans })
    }

    /// The format of the file.
    pub fn file_format(&self) -> (r: SubtitleFormat)
        ensures
            r == self.format(),
    {
        self.file_format
    }

    /// The timespans, in the order of the file.
    pub fn timespans(&self) -> (r: &[TimeSpan])
        ensures
            r@ == self.spans(),
    {
        self.subparse_timespans.as_slice()
    }

    /// The parsed file, to be changed and written.
    pub fn into_subtitle_file(self) -> (r: SubtitleFile)
        ensures
            r == self.file(),
    {
        self.subtitle_file
    }
}

// ---------------------------------------------------------------------------------------------
// voice activity

/// Where the scan of the voice activity flags stands after `k` of them: the start of the
/// current run, its last flag so far, whether it was already saved, and the saved runs.
pub open spec fn vad_scan(v: Seq<bool>, k: int) -> (int, int, bool, Seq<(int, int)>)
    decreases k,
{
    if k <= 0 {
        (0, 0, true, Seq::empty())
    } else {
        let (start, last, saved, segs) = vad_scan(v, k - 1);
        let i = k - 1;
        if v[i] {
            (if saved {
                i
            } else {
                start
            }, i, false, segs)
        } else if !saved {
            (start, last, true, segs.push((start, last)))
        } else {
            (start, last, saved, segs)
        }
    }
}

/// The runs of voice activity in `v`, each as its first and last flag, as a scan from the first
/// flag to the last finds them: the maximal runs of `true`, from first to last (see
/// `law_voice_segments`).
pub open spec fn voice_segments(v: Seq<bool>) -> Seq<(int, int)> {
    vad_scan(v.push(false), v.len() as int + 1).3
}

/// The runs as timespans: every flag stands for ten milliseconds.
pub open spec fn voice_spans(v: Seq<bool>) -> Seq<TimeSpan> {
    voice_segments(v).map_values(
        |s: (int, int)|
            TimeSpan { start: TimePoint::from_ms_spec(s.0 * 10), end: TimePoint::from_ms_spec(s.1 * 10) },
    )
}

/// `a..=b` is a maximal run of `true` in `v`: every flag in it is `true`, and the flags just
/// before and just after it, where there are any, are `false`.
pub open spec fn maximal_run(v: Seq<bool>, a: int, b: int) -> bool {
    &&& 0 <= a <= b < v.len()
    &&& forall|i: int| a <= i <= b ==> #[trigger] v[i]
    &&& a == 0 || !v[a - 1]
    &&& b + 1 == v.len() || !v[b + 1]
}

/// `segs` lists the maximal runs of `true` in `v`, each once, from first to last.
pub open spec fn lists_runs(v: Seq<bool>, segs: Seq<(int, int)>) -> bool {
    &&& forall|k: int| 0 <= k < segs.len() ==> maximal_run(v, (#[trigger] segs[k]).0, segs[k].1)
    &&& forall|k: int| 0 <= k < segs.len() - 1 ==> (#[trigger] segs[k]).1 < segs[k + 1].0
    &&& forall|a: int, b: int| #[trigger] maximal_run(v, a, b) ==> segs.contains((a, b))
}

/// What the scan knows after `k` flags of `w`.
proof fn lemma_vad_scan(w: Seq<bool>, k: int)
    requires
        0 <= k <= w.len(),
    ensures
        ({
            let (start, last, saved, segs) = vad_scan(w, k);
            &&& forall|j: int|
                0 <= j < segs.len() ==> maximal_run(w, (#[trigger] segs[j]).0, segs[j].1) && segs[j].1 + 2
                    <= k
            &&& forall|j: int| 0 <= j < segs.len() - 1 ==> (#[trigger] segs[j]).1 < segs[j + 1].0
            &&& forall|a: int, b: int| maximal_run(w, a, b) && b + 2 <= k ==> #[trigger] segs.contains((a, b))
            &&& !saved ==> {
                &&& 0 <= start <= last
                &&& last == k - 1
                &&& forall|i: int| start <= i <= last ==> #[trigger] w[i]
                &&& start == 0 || !w[start - 1]
                &&& forall|j: int| 0 <= j < segs.len() ==> (#[trigger] segs[j]).1 + 1 < start
            }
            &&& saved ==> k == 0 || !w[k - 1]
        }),
    decreases k,
{
    if k > 0 {
        lemma_vad_scan(w, k - 1);
        let (start, last, saved, segs) = vad_scan(w, k - 1);
        let i = k - 1;
        if w[i] {
            assert forall|a: int, b: int| maximal_run(w, a, b) && b + 2 <= k implies #[trigger] segs.contains(
                (a, b),
            ) by {
                if b + 2 == k {
                    assert(w[b + 1]);
                }
            }
        } else if !saved {
            let segs2 = segs.push((start, last));
            assert(maximal_run(w, start, last));
            assert forall|a: int, b: int| maximal_run(w, a, b) && b + 2 <= k implies #[trigger] segs2.contains(
                (a, b),
            ) by {
                if b + 2 == k {
                    if a < start {
                        assert(w[start - 1]);
                    } else if a > start {
                        assert(w[a - 1]);
                    }
                    assert(segs2[segs.len() as int] == (a, b));
                } else {
                    assert(segs.contains((a, b)));
                    let j = choose|j: int| 0 <= j < segs.len() && segs[j] == (a, b);
                    assert(segs2[j] == (a, b));
                }
            }
            assert forall|j: int| 0 <= j < segs2.len() - 1 implies (#[trigger] segs2[j]).1 < segs2[j + 1].0 by {
                if j + 1 < segs.len() {
                    assert(segs2[j] == segs[j]);
                    assert(segs2[j + 1] == segs[j + 1]);
                } else {
                    assert(segs2[j] == segs[j]);
                }
            }
            assert forall|j: int| 0 <= j < segs2.len() implies maximal_run(w, (#[trigger] segs2[j]).0, segs2[j].1)
                && segs2[j].1 + 2 <= k by {
                if j < segs.len() {
                    assert(segs2[j] == segs[j]);
                }
            }
        } else {
            assert forall|a: int, b: int| maximal_run(w, a, b) && b + 2 <= k implies #[trigger] segs.contains(
                (a, b),
            ) by {
                if b + 2 == k {
                    assert(w[b]);
                }
            }
        }
    }
}

/// The runs of voice activity are exactly the maximal runs of `true` flags, from first to last.
pub proof fn law_voice_segments(v: Seq<bool>)
    ensures
        lists_runs(v, voice_segments(v)),
{
    let w = v.push(false);
    let n = v.len() as int;
    lemma_vad_scan(w, n + 1);
    let (start, last, saved, segs) = vad_scan(w, n + 1);
    assert(saved) by {
        if !saved {
            assert(w[n]);
        }
    }
    assert forall|a: int, b: int| maximal_run(v, a, b) <==> maximal_run(w, a, b) && b < n by {
        if maximal_run(v, a, b) {
            assert forall|i: int| a <= i <= b implies #[trigger] w[i] by {
                assert(v[i]);
            }
            if a > 0 {
                assert(w[a - 1] == v[a - 1]);
            }
            if b + 1 < n {
                assert(w[b + 1] == v[b + 1]);
            }
        }
        if maximal_run(w, a, b) && b < n {
            assert forall|i: int| a <= i <= b implies #[trigger] v[i] by {
                assert(w[i]);
            }
            if a > 0 {
                assert(w[a - 1] == v[a - 1]);
            }
            if b + 1 < n {
                assert(w[b + 1] == v[b + 1]);
            }
        }
    }
    assert forall|j: int| 0 <= j < segs.len() implies maximal_run(v, (#[trigger] segs[j]).0, segs[j].1) by {
        assert(maximal_run(w, segs[j].0, segs[j].1));
        if segs[j].1 >= n {
            assert(!w[n]);
        }
    }
    assert forall|a: int, b: int| #[trigger] maximal_run(v, a, b) implies segs.contains((a, b)) by {
        assert(maximal_run(w, a, b));
    }
}

/// The voice activity of a video file as timespans.
#[derive(Debug)]
pub struct VideoFileHandler {
    subparse_timespans: Vec<TimeSpan>,
}

impl VideoFileHandler {
    pub closed spec fn spans(&self) -> Seq<TimeSpan> {
        self.subparse_timespans@
    }

    /// A handler with timespans that were found earlier.
    pub fn from_cache(timespans: Vec<TimeSpan>) -> (r: VideoFileHandler)
        ensures
            r.spans() == timespans@,
    {
        VideoFileHandler { subparse_timespans: timespans }
    }

    /// The timespans of the runs of voice activity; there is one flag for every ten
    /// milliseconds of audio.
    pub fn from_voice_activity(vad_buffer: &[bool]) -> (r: VideoFileHandler)
        requires
            vad_buffer@.len() < 0x0100_0000_0000_0000,
        ensures
            r.spans() == voice_spans(vad_buffer@),
            lists_runs(vad_buffer@, voice_segments(vad_buffer@)),
    {
        proof {
            law_voice_segments(vad_buffer@);
        }
        let ghost v = vad_buffer@.push(false);
        let n = vad_buffer.len();
        let mut segments: Vec<(i64, i64)> = Vec::new();
        let mut start: i64 = 0;
        let mut last: i64 = 0;
        let mut saved = true;
        let mut i: usize = 0;
        while i < n
            invariant
                i <= n,
                n == vad_buffer@.len(),
                n < 0x0100_0000_0000_0000,
                v == vad_buffer@.push(false),
                vad_scan(v, i as int) == (start as int, last as int, saved, segments@.map_values(
                    |s: (i64, i64)| (s.0 as int, s.1 as int),
                )),
                0 <= start <= i,
                0 <= last <= i,
                forall|k: int| 0 <= k < segments@.len() ==> 0 <= (#[trigger] segments@[k]).0 <= i && 0 <= segments@[k].1 <= i,
            decreases n + 1 - i,
        {
            let is_voice = vad_buffer[i];
            assert(is_voice == v[i as int]);
            let ghost before = segments@.map_values(|s: (i64, i64)| (s.0 as int, s.1 as int));
            if is_voice {
                last = i as i64;
                if saved {
                    start = i as i64;
                    saved = false;
                }
            } else if !saved {
                segments.push((start, last));
                assert(segments@.map_values(|s: (i64, i64)| (s.0 as int, s.1 as int)) =~= before.push(
                    (start as int, last as int),
                ));
                saved = true;
            }
            i = i + 1;
        }
        // the flag that ends the last run
        assert(!v[n as int]);
        if !saved {
            let ghost before = segments@.map_values(|s: (i64, i64)| (s.0 as int, s.1 as int));
            segments.push((start, last));
            assert(segments@.map_values(|s: (i64, i64)| (s.0 as int, s.1 as int)) =~= before.push(
                (start as int, last as int),
            ));
        }
        let mut spans: Vec<TimeSpan> = Vec::new();
        let mut k: usize = 0;
        let ghost segs = segments@.map_values(|s: (i64, i64)| (s.0 as int, s.1 as int));
        while k < segments.len()
            invariant
                k <= segments@.len(),
                segs == segments@.map_values(|s: (i64, i64)| (s.0 as int, s.1 as int)),
                segs == voice_segments(vad_buffer@),
                forall|j: int| 0 <= j < segments@.len() ==> 0 <= (#[trigger] segments@[j]).0 <= n + 1 && 0 <= segments@[j].1 <= n + 1,
                n < 0x0100_0000_0000_0000,
                spans@ == voice_spans(vad_buffer@).take(k as int),
            decreases segments@.len() - k,
        {
            let (a, b) = segments[k];
            spans.push(TimeSpan::new(TimePoint::from_msecs(a * 10), TimePoint::from_msecs(b * 10)));
            assert(spans@ =~= voice_spans(vad_buffer@).take(k + 1));
            k = k + 1;
        }
        assert(voice_spans(vad_buffer@).take(segments@.len() as int) =~= voice_spans(vad_buffer@));
        VideoFileHandler { subparse_timespans: spans }
    }

    /// Drops the timespans shorter than `min_vad_span_length_ms`.
    pub fn filter_with_min_span_length_ms(&mut self, min_vad_span_length_ms: i64)
        ensures
            final(self).spans() == old(self).spans().filter(
                |t: TimeSpan| t.end@ - t.start@ >= min_vad_span_length_ms,
            ),
    {
        let ghost old_spans = self.subparse_timespans@;
        let mut kept: Vec<TimeSpan> = Vec::new();
        let mut i: usize = 0;
        while i < self.subparse_timespans.len()
            invariant
                i <= old_spans.len(),
                self.subparse_timespans@ == old_spans,
                kept@ == old_spans.take(i as int).filter(
                    |t: TimeSpan| t.end@ - t.start@ >= min_vad_span_length_ms,
                ),
            decreases old_spans.len() - i,
        {
            let t = self.subparse_timespans[i];
            proof {
                reveal(Seq::filter);
            }
            assert(old_spans.take(i + 1).drop_last() =~= old_spans.take(i as int));
            if (t.end.msecs() as i128) - (t.start.msecs() as i128) >= min_vad_span_length_ms as i128 {
                kept.push(t);
            }
            assert(kept@ =~= old_spans.take(i + 1).filter(
                |t: TimeSpan| t.end@ - t.start@ >= min_vad_span_length_ms,
            ));
            i = i + 1;
        }
        assert(old_spans.take(old_spans.len() as int) =~= old_spans);
        self.subparse_timespans = kept;
    }

    /// The timespans, in the order of the file.
    pub fn timespans(&self) -> (r: &[TimeSpan])
        ensures
            r@ == self.spans(),
    {
        self.subparse_timespans.as_slice()
    }
}

// ---------------------------------------------------------------------------------------------
// the input file

/// Whether a file with this extension is read as a subtitle file (and not as a video).
pub open spec fn known_subtitle_extension(extension: Option<Seq<char>>) -> bool {
    match extension {
        None => false,
        Some(e) => e == "srt"@ || e == "vob"@ || e == "idx"@ || e == "ass"@ || e == "ssa"@ || e
            == "sub"@,
    }
}

fn ext_is(extension: Option<&str>, name: &str) -> (r: bool)
    ensures
        r == (ext_view(extension) == Some(name@)),
{
    match extension {
        None => false,
        Some(e) => {
            let a = crate::text::chars_of(e);
            let b = crate::text::chars_of(name);
            crate::text::chars_eq(a.as_slice(), b.as_slice())
        },
    }
}

/// Whether a file with this extension is read as a subtitle file (and not as a video).
pub fn is_known_subtitle_extension(extension: Option<&str>) -> (r: bool)
    ensures
        r == known_subtitle_extension(ext_view(extension)),
{
    proof {
        reveal_strlit("srt");
        reveal_strlit("vob");
        reveal_strlit("idx");
        reveal_strlit("ass");
        reveal_strlit("ssa");
        reveal_strlit("sub");
    }
    ext_is(extension, "srt") || ext_is(extension, "vob") || ext_is(extension, "idx") || ext_is(
        extension,
        "ass",
    ) || ext_is(extension, "ssa") || ext_is(extension, "sub")
}

/// The file the timings are taken from: a subtitle file, or the voice activity of a video.
#[derive(Debug)]
pub enum InputFileHandler {
    Subtitle(SubtitleFileHandler),
    Video(VideoFileHandler),
}

impl InputFileHandler {
    pub open spec fn spans(&self) -> Seq<TimeSpan> {
        match self {
            InputFileHandler::Subtitle(h) => h.spans(),
            InputFileHandler::Video(h) => h.spans(),
        }
    }

    /// The subtitle file, if the input is one.
    pub fn into_subtitle_file(self) -> (r: Option<SubtitleFile>)
        ensures
            match self {
                InputFileHandler::Video(_) => r is None,
                InputFileHandler::Subtitle(h) => r == Some(h.file()),
            },
    {
        match self {
            InputFileHandler::Video(_) => None,
            InputFileHandler::Subtitle(sub_handler) => Some(sub_handler.into_subtitle_file()),
        }
    }

    /// The timespans, in the order of the file.
    pub fn timespans(&self) -> (r: &[TimeSpan])
        ensures
            r@ == self.spans(),
    {
        match self {
            InputFileHandler::Video(video_handler) => video_handler.timespans(),
            InputFileHandler::Subtitle(sub_handler) => sub_handler.timespans(),
        }
    }

    /// Drops the short voice segments of a video; a subtitle file stays as it is.
    pub fn filter_video_with_min_span_length_ms(&mut self, min_vad_span_length_ms: i64)
        ensures
            match *old(self) {
                InputFileHandler::Video(h) => final(self).spans() == h.spans().filter(
                    |t: TimeSpan| t.end@ - t.start@ >= min_vad_span_length_ms,
                ) && *final(self) is Video,
                InputFileHandler::Subtitle(h) => *final(self) == *old(self),
            },
    {
        match self {
            InputFileHandler::Video(video_handler) => {
                video_handler.filter_with_min_span_length_ms(min_vad_span_length_ms);
            },
            InputFileHandler::Subtitle(_) => {},
        }
    }
}

// ---------------------------------------------------------------------------------------------
// time units of the alignment

/// A time in units of `interval` milliseconds, rounded towards zero.
pub fn timing_to_alg_timepoint(t: TimePoint, interval: i64) -> (r: i64)
    requires
        interval > 0,
    ensures
        r == crate::timetypes::tdiv(t@, interval as int),
{
    t.msecs() / interval
}

/// The timespans in the units of the alignment: each end divided by `interval`, rounded
/// towards zero. The alignment orders the two ends itself.
pub fn timings_to_alg_timespans(v: &[TimeSpan], interval: i64) -> (r: Vec<(i64, i64)>)
    requires
        interval > 0,
    ensures
        r@.len() == v@.len(),
        forall|k: int|
            0 <= k < v@.len() ==> #[trigger] r@[k] == (
                crate::timetypes::tdiv(v@[k].start@, interval as int) as i64,
                crate::timetypes::tdiv(v@[k].end@, interval as int) as i64,
            ),
{
    let mut r: Vec<(i64, i64)> = Vec::new();
    let mut i: usize = 0;
    while i < v.len()
        invariant
            i <= v@.len(),
            interval > 0,
            r@.len() == i,
            forall|k: int|
                0 <= k < i ==> #[trigger] r@[k] == (
                    crate::timetypes::tdiv(v@[k].start@, interval as int) as i64,
                    crate::timetypes::tdiv(v@[k].end@, interval as int) as i64,
                ),
        decreases v@.len() - i,
    {
        let a = timing_to_alg_timepoint(v[i].start, interval);
        let b = timing_to_alg_timepoint(v[i].end, interval);
        r.push((a, b));
        i = i + 1;
    }
    r
}

/// A shift of `t` units of `interval` milliseconds.
pub fn alg_delta_to_delta(t: i64, interval: i64) -> (r: TimeDelta)
    requires
        interval > 0,
        i64::MIN <= t * interval <= i64::MAX,
    ensures
        r@ == t * interval,
{
    TimeDelta::from_msecs(t * interval)
}

/// The shifts of `v`, each in milliseconds.
pub fn alg_deltas_to_timing_deltas(v: &[i64], interval: i64) -> (r: Vec<TimeDelta>)
    requires
        interval > 0,
        forall|k: int| 0 <= k < v@.len() ==> i64::MIN <= #[trigger] v@[k] * interval <= i64::MAX,
    ensures
        r@.len() == v@.len(),
        forall|k: int| 0 <= k < v@.len() ==> (#[trigger] r@[k])@ == v@[k] * interval,
{
    let mut r: Vec<TimeDelta> = Vec::new();
    let mut i: usize = 0;
    while i < v.len()
        invariant
            i <= v@.len(),
            interval > 0,
            forall|k: int| 0 <= k < v@.len() ==> i64::MIN <= #[trigger] v@[k] * interval <= i64::MAX,
            r@.len() == i,
            forall|k: int| 0 <= k < i ==> (#[trigger] r@[k])@ == v@[k] * interval,
        decreases v@.len() - i,
    {
        assert(i64::MIN <= v@[i as int] * interval <= i64::MAX);
        r.push(alg_delta_to_delta(v[i], interval));
        i = i + 1;
    }
    r
}

// ---------------------------------------------------------------------------------------------
// grouping the shifts

/// The earlier end of a timespan.
pub open spec fn span_key(t: TimeSpan) -> int {
    if t.start@ <= t.end@ {
        t.start@
    } else {
        t.end@
    }
}

/// `x` inserted into `s` after the last element whose key is not greater.
pub open spec fn insert_by_key(s: Seq<(i64, TimeSpan)>, x: (i64, TimeSpan)) -> Seq<(i64, TimeSpan)>
    decreases s.len(),
{
    if s.len() == 0 || span_key(s.last().1) <= span_key(x.1) {
        s.push(x)
    } else {
        insert_by_key(s.drop_last(), x).push(s.last())
    }
}

/// The pairs sorted by the earlier end of their timespans, equal ones keeping their order.
pub open spec fn sort_by_key(s: Seq<(i64, TimeSpan)>) -> Seq<(i64, TimeSpan)>
    decreases s.len(),
{
    if s.len() == 0 {
        Seq::empty()
    } else {
        insert_by_key(sort_by_key(s.drop_last()), s.last())
    }
}

/// Runs of consecutive pairs with the same shift, each as the shift and its timespans.
pub open spec fn delta_groups(s: Seq<(i64, TimeSpan)>) -> Seq<(i64, Seq<TimeSpan>)>
    decreases s.len(),
{
    if s.len() == 0 {
        Seq::empty()
    } else {
        let g = delta_groups(s.drop_last());
        let x = s.last();
        if g.len() > 0 && g.last().0 == x.0 {
            g.update(g.len() - 1, (x.0, g.last().1.push(x.1)))
        } else {
            g.push((x.0, seq![x.1]))
        }
    }
}

proof fn lemma_insert_by_key_at(s: Seq<(i64, TimeSpan)>, x: (i64, TimeSpan), j: int)
    requires
        0 <= j <= s.len(),
        forall|k: int| j <= k < s.len() ==> span_key((#[trigger] s[k]).1) > span_key(x.1),
        j > 0 ==> span_key(s[j - 1].1) <= span_key(x.1),
    ensures
        insert_by_key(s, x) == s.take(j).push(x) + s.skip(j),
    decreases s.len() - j,
{
    if j < s.len() {
        lemma_insert_by_key_at(s.drop_last(), x, j);
        assert(s.drop_last().take(j) =~= s.take(j));
        assert(s.drop_last().skip(j).push(s.last()) =~= s.skip(j));
        assert(s.take(j).push(x) + s.drop_last().skip(j) + seq![s.last()] =~= s.take(j).push(x)
            + s.skip(j));
    } else {
        assert(s.take(j) =~= s);
        assert(s.skip(j) =~= Seq::<(i64, TimeSpan)>::empty());
        if j > 0 {
            assert(s.last() == s[j - 1]);
        }
        assert(s.push(x) + Seq::<(i64, TimeSpan)>::empty() =~= s.push(x));
    }
}

pub open spec fn groups_view(v: Seq<(i64, Vec<TimeSpan>)>) -> Seq<(i64, Seq<TimeSpan>)> {
    v.map_values(|g: (i64, Vec<TimeSpan>)| (g.0, g.1@))
}

/// Groups consecutive timespans with the same shift together, after sorting them by their
/// earlier ends.
pub fn get_subtitle_delta_groups(v: Vec<(i64, TimeSpan)>) -> (r: Vec<(i64, Vec<TimeSpan>)>)
    ensures
        groups_view(r@) == delta_groups(sort_by_key(v@)),
{
    let mut sorted: Vec<(i64, TimeSpan)> = Vec::new();
    let mut i: usize = 0;
    while i < v.len()
        invariant
            i <= v@.len(),
            sorted@ == sort_by_key(v@.take(i as int)),
        decreases v@.len() - i,
    {
        let x = v[i];
        let kx = if x.1.start.msecs() <= x.1.end.msecs() {
            x.1.start.msecs()
        } else {
            x.1.end.msecs()
        };
        let mut j = sorted.len();
        while j > 0
            invariant
                j <= sorted@.len(),
                kx == span_key(x.1),
                forall|k: int| j <= k < sorted@.len() ==> span_key((#[trigger] sorted@[k]).1) > span_key(x.1),
            ensures
                j <= sorted@.len(),
                forall|k: int| j <= k < sorted@.len() ==> span_key((#[trigger] sorted@[k]).1) > span_key(x.1),
                j > 0 ==> span_key(sorted@[j - 1].1) <= span_key(x.1),
            decreases j,
        {
            let y = sorted[j - 1];
            let ky = if y.1.start.msecs() <= y.1.end.msecs() {
                y.1.start.msecs()
            } else {
                y.1.end.msecs()
            };
            if ky <= kx {
                break;
            }
            j = j - 1;
        }
        proof {
            lemma_insert_by_key_at(sorted@, x, j as int);
            assert(v@.take(i + 1).drop_last() =~= v@.take(i as int));
        }
        let ghost before = sorted@;
        sorted.insert(j, x);
        assert(sorted@ =~= before.take(j as int).push(x) + before.skip(j as int));
        i = i + 1;
    }
    assert(v@.take(v@.len() as int) =~= v@);
    let mut result: Vec<(i64, Vec<TimeSpan>)> = Vec::new();
    let mut k: usize = 0;
    while k < sorted.len()
        invariant
            k <= sorted@.len(),
            sorted@ == sort_by_key(v@),
            groups_view(result@) == delta_groups(sorted@.take(k as int)),
        decreases sorted@.len() - k,
    {
        let (delta, span) = sorted[k];
        let ghost gv = groups_view(result@);
        assert(sorted@.take(k + 1).drop_last() =~= sorted@.take(k as int));
        let n = result.len();
        if n > 0 && result[n - 1].0 == delta {
            let (d, mut spans) = result.pop().unwrap();
            let ghost sv = spans@;
            spans.push(span);
            result.push((d, spans));
            assert(groups_view(result@) =~= gv.update(gv.len() - 1, (delta, sv.push(span))));
        } else {
            let g = vec![span];
            assert(g@ =~= seq![span]);
            result.push((delta, g));
            assert(groups_view(result@) =~= gv.push((delta, seq![span])));
        }
        k = k + 1;
    }
    assert(sorted@.take(sorted@.len() as int) =~= sorted@);
    result
}

// ---------------------------------------------------------------------------------------------
// what sorting and grouping keep

/// Whether the pairs are ordered by the earlier ends of their timespans.
pub open spec fn sorted_by_key(s: Seq<(i64, TimeSpan)>) -> bool {
    forall|i: int, j: int| 0 <= i < j < s.len() ==> span_key(s[i].1) <= span_key(s[j].1)
}

proof fn lemma_insert_by_key(s: Seq<(i64, TimeSpan)>, x: (i64, TimeSpan))
    requires
        sorted_by_key(s),
    ensures
        sorted_by_key(insert_by_key(s, x)),
        insert_by_key(s, x).to_multiset() == s.to_multiset().insert(x),
        insert_by_key(s, x).len() == s.len() + 1,
        forall|i: int|
            0 <= i < insert_by_key(s, x).len() ==> #[trigger] insert_by_key(s, x)[i] == x || exists|j: int|
                0 <= j < s.len() && insert_by_key(s, x)[i] == s[j],
    decreases s.len(),
{
    broadcast use vstd::seq_lib::group_to_multiset_ensures;

    let r = insert_by_key(s, x);
    if s.len() == 0 || span_key(s.last().1) <= span_key(x.1) {
        assert forall|i: int| 0 <= i < r.len() implies #[trigger] r[i] == x || exists|j: int|
            0 <= j < s.len() && r[i] == s[j] by {
            if i < s.len() {
                assert(r[i] == s[i]);
            }
        }
    } else {
        let t = s.drop_last();
        lemma_insert_by_key(t, x);
        let q = insert_by_key(t, x);
        assert(s.to_multiset() =~= t.to_multiset().insert(s.last())) by {
            assert(t.push(s.last()) =~= s);
        }
        assert forall|i: int| 0 <= i < r.len() implies #[trigger] r[i] == x || exists|j: int|
            0 <= j < s.len() && r[i] == s[j] by {
            if i < q.len() {
                assert(r[i] == q[i]);
                if q[i] != x {
                    let j = choose|j: int| 0 <= j < t.len() && q[i] == t[j];
                    assert(r[i] == s[j]);
                }
            } else {
                assert(r[i] == s[s.len() - 1]);
            }
        }
        assert forall|i: int, j: int| 0 <= i < j < r.len() implies span_key(r[i].1) <= span_key(
            r[j].1,
        ) by {
            if j == r.len() - 1 {
                assert(r[j] == s.last());
                assert(r[i] == q[i]);
                if q[i] != x {
                    let k = choose|k: int| 0 <= k < t.len() && q[i] == t[k];
                    assert(s[k] == t[k]);
                }
            } else {
                assert(r[i] == q[i] && r[j] == q[j]);
            }
        }
    }
}

/// Sorting keeps every pair, as often as it occurs, and orders the pairs by the earlier ends of
/// their timespans.
pub proof fn law_sort_by_key(s: Seq<(i64, TimeSpan)>)
    ensures
        sort_by_key(s).to_multiset() == s.to_multiset(),
        sorted_by_key(sort_by_key(s)),
    decreases s.len(),
{
    broadcast use vstd::seq_lib::group_to_multiset_ensures;

    if s.len() > 0 {
        law_sort_by_key(s.drop_last());
        lemma_insert_by_key(sort_by_key(s.drop_last()), s.last());
        assert(s.drop_last().push(s.last()) =~= s);
    }
}

/// Whether a pair's timespan has the earlier end `k`.
pub open spec fn has_key(k: int) -> spec_fn((i64, TimeSpan)) -> bool {
    |p: (i64, TimeSpan)| span_key(p.1) == k
}

proof fn lemma_insert_keeps_order(t: Seq<(i64, TimeSpan)>, x: (i64, TimeSpan), k: int)
    ensures
        insert_by_key(t, x).filter(has_key(k)) == (if span_key(x.1) == k {
            t.filter(has_key(k)).push(x)
        } else {
            t.filter(has_key(k))
        }),
    decreases t.len(),
{
    reveal(Seq::filter);
    let r = insert_by_key(t, x);
    if t.len() == 0 || span_key(t.last().1) <= span_key(x.1) {
        assert(r.drop_last() =~= t);
    } else {
        let t2 = t.drop_last();
        lemma_insert_keeps_order(t2, x, k);
        assert(r.drop_last() =~= insert_by_key(t2, x));
        assert(t.drop_last() =~= t2);
    }
}

/// Sorting is stable: the pairs whose timespans share the earlier end `k` keep their order.
pub proof fn law_sort_by_key_is_stable(s: Seq<(i64, TimeSpan)>, k: int)
    ensures
        sort_by_key(s).filter(has_key(k)) == s.filter(has_key(k)),
    decreases s.len(),
{
    reveal(Seq::filter);
    if s.len() > 0 {
        law_sort_by_key_is_stable(s.drop_last(), k);
        lemma_insert_keeps_order(sort_by_key(s.drop_last()), s.last(), k);
    }
}

/// The pairs that the groups stand for, in order: each timespan with the shift of its group.
pub open spec fn group_pairs(g: Seq<(i64, Seq<TimeSpan>)>) -> Seq<(i64, TimeSpan)>
    decreases g.len(),
{
    if g.len() == 0 {
        Seq::empty()
    } else {
        group_pairs(g.drop_last()) + g.last().1.map_values(|t: TimeSpan| (g.last().0, t))
    }
}

/// Grouping loses and reorders nothing: read in order, the groups give back the pairs; no group
/// is empty; and neighbouring groups have different shifts, so every group is a whole run.
pub proof fn law_delta_groups(s: Seq<(i64, TimeSpan)>)
    ensures
        group_pairs(delta_groups(s)) == s,
        forall|i: int| 0 <= i < delta_groups(s).len() ==> (#[trigger] delta_groups(s)[i]).1.len() > 0,
        forall|i: int|
            0 < i < delta_groups(s).len() ==> (#[trigger] delta_groups(s)[i]).0 != delta_groups(s)[i
                - 1].0,
    decreases s.len(),
{
    if s.len() > 0 {
        let t = s.drop_last();
        law_delta_groups(t);
        let g = delta_groups(t);
        let x = s.last();
        assert(t.push(x) =~= s);
        if g.len() > 0 && g.last().0 == x.0 {
            let n = g.len() - 1;
            let l = g.last().1;
            let g2 = g.update(n, (x.0, l.push(x.1)));
            assert(g2.drop_last() =~= g.drop_last());
            assert(l.push(x.1).map_values(|u: TimeSpan| (x.0, u)) =~= l.map_values(
                |u: TimeSpan| (x.0, u),
            ).push(x));
            assert(group_pairs(g2) =~= group_pairs(g).push(x));
        } else {
            let g2 = g.push((x.0, seq![x.1]));
            assert(g2.drop_last() =~= g);
            assert(seq![x.1].map_values(|u: TimeSpan| (x.0, u)) =~= seq![x]);
            assert(group_pairs(g2) =~= group_pairs(g).push(x));
        }
    }
}

} // verus!
