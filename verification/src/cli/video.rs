//! The decisions of the `ffmpeg` video decoder: which audio stream is read, which duration
//! sizes the progress bar, how the raw bytes on the pipe become samples, and when the bar
//! advances.

use crate::text::{chars_eq, chars_of, string_of};
use vstd::prelude::*;

verus! {

/// The kind of a stream, as `ffprobe` names it.
#[derive(Debug, Clone)]
pub enum CodecType {
    Audio,
    Video,
    Subtitle,
    Other(String),
}

impl CodecType {
    /// The kind that `ffprobe` calls `name`.
    pub fn from_name(name: &str) -> (r: CodecType)
        ensures
            name@ == "audio"@ ==> r is Audio,
            name@ == "video"@ ==> r is Video,
            name@ == "subtitle"@ ==> r is Subtitle,
            name@ != "audio"@ && name@ != "video"@ && name@ != "subtitle"@ ==> (r matches CodecType::Other(
                t,
            ) && t@ == name@),
    {
        proof {
            reveal_strlit("audio");
            reveal_strlit("video");
            reveal_strlit("subtitle");
            assert("video"@[0] != "audio"@[0]);
            assert("subtitle"@.len() != "audio"@.len());
            assert("subtitle"@.len() != "video"@.len());
        }
        let n = chars_of(name);
        let audio = chars_of("audio");
        let video = chars_of("video");
        let subtitle = chars_of("subtitle");
        if chars_eq(n.as_slice(), audio.as_slice()) {
            CodecType::Audio
        } else if chars_eq(n.as_slice(), video.as_slice()) {
            CodecType::Video
        } else if chars_eq(n.as_slice(), subtitle.as_slice()) {
            CodecType::Subtitle
        } else {
            CodecType::Other(string_of(n.as_slice()))
        }
    }
}

/// One stream of a video file, as `ffprobe` describes it.
#[derive(Debug, Clone)]
pub struct Stream {
    /// The index of the stream in the file.
    pub index: usize,
    /// The number of audio channels, for audio streams.
    pub channels: Option<usize>,
    /// The duration in seconds, as text; `.mkv` files store it only for the whole file.
    pub duration: Option<String>,
    /// What the stream holds.
    pub codec_type: CodecType,
}

/// Whether a stream can be read as audio: it is an audio stream with a channel count.
pub open spec fn is_audio(s: Stream) -> bool {
    s.codec_type is Audio && s.channels is Some
}

/// The channel count of an audio stream.
pub open spec fn channels(s: Stream) -> int {
    s.channels->Some_0 as int
}

/// Which stream is read: the one with the index the user asked for, or else the audio stream with
/// the fewest channels (the first of them, where several have as few).
pub open spec fn is_chosen(streams: Seq<Stream>, wanted: Option<usize>, k: int) -> bool {
    &&& 0 <= k < streams.len()
    &&& is_audio(streams[k])
    &&& match wanted {
        Some(i) => streams[k].index == i && forall|j: int|
            0 <= j < k ==> !(is_audio(#[trigger] streams[j]) && streams[j].index == i),
        None => (forall|j: int|
            0 <= j < streams.len() && is_audio(#[trigger] streams[j]) ==> channels(streams[k])
                <= channels(streams[j])) && (forall|j: int|
            0 <= j < k && is_audio(#[trigger] streams[j]) ==> channels(streams[k]) < channels(
                streams[j],
            )),
    }
}

/// Whether some stream can be chosen.
pub open spec fn has_choice(streams: Seq<Stream>, wanted: Option<usize>) -> bool {
    exists|j: int|
        0 <= j < streams.len() && is_audio(#[trigger] streams[j]) && match wanted {
            Some(i) => streams[j].index == i,
            None => true,
        }
}

fn is_audio_stream(s: &Stream) -> (b: bool)
    ensures
        b == is_audio(*s),
{
    match s.codec_type {
        CodecType::Audio => s.channels.is_some(),
        _ => false,
    }
}

/// The unit of the sample stream that `ffmpeg` writes: 8 kHz mono signed 16-bit little endian.
pub open spec fn le_sample(lo: u8, hi: u8) -> int {
    if hi < 128 {
        hi * 256 + lo
    } else {
        hi * 256 + lo - 65536
    }
}

/// The bytes that are waiting to be turned into samples: the odd byte of the last read, then
/// the new ones.
pub open spec fn pending_bytes(half: Option<u8>, bytes: Seq<u8>) -> Seq<u8> {
    match half {
        Some(b) => seq![b] + bytes,
        None => bytes,
    }
}

/// The samples as numbers.
pub open spec fn sample_values(v: Seq<i16>) -> Seq<int> {
    v.map_values(|x: i16| x as int)
}

/// The samples that the bytes stand for, two bytes each, low byte first; an odd last byte
/// makes none.
pub open spec fn samples_of(b: Seq<u8>) -> Seq<int> {
    Seq::new(b.len() / 2, |k: int| le_sample(b[2 * k], b[2 * k + 1]))
}

/// The odd last byte, which waits for the next read.
pub open spec fn leftover(b: Seq<u8>) -> Option<u8> {
    if b.len() % 2 == 1 {
        Some(b.last())
    } else {
        None
    }
}

/// The reads, one after the other.
pub open spec fn concat_reads(reads: Seq<Seq<u8>>) -> Seq<u8>
    decreases reads.len(),
{
    if reads.len() == 0 {
        Seq::empty()
    } else {
        concat_reads(reads.drop_last()) + reads.last()
    }
}

/// The samples handed on and the byte that waits, after each read was decoded in turn with the
/// byte left over by the one before.
pub open spec fn decode_reads(reads: Seq<Seq<u8>>) -> (Seq<int>, Option<u8>)
    decreases reads.len(),
{
    if reads.len() == 0 {
        (Seq::empty(), None)
    } else {
        let before = decode_reads(reads.drop_last());
        let p = pending_bytes(before.1, reads.last());
        (before.0 + samples_of(p), leftover(p))
    }
}

/// Decoding the reads one by one, each with the byte that the one before left over, gives the
/// samples of all the bytes at once, however the stream was cut into reads.
pub proof fn law_decode_reads(reads: Seq<Seq<u8>>)
    ensures
        decode_reads(reads) == (samples_of(concat_reads(reads)), leftover(concat_reads(reads))),
    decreases reads.len(),
{
    if reads.len() > 0 {
        let init = reads.drop_last();
        let b = reads.last();
        law_decode_reads(init);
        let a = concat_reads(init);
        let h: int = (a.len() / 2) as int;
        let p = pending_bytes(leftover(a), b);
        let ab = a + b;
        assert(p =~= a.skip(2 * h) + b);
        assert(ab =~= a.take(2 * h) + p);
        assert(ab.len() / 2 == h + p.len() / 2);
        assert forall|k: int| 0 <= k < h implies #[trigger] samples_of(ab)[k] == samples_of(a)[k] by {
            assert(ab[2 * k] == a[2 * k]);
            assert(ab[2 * k + 1] == a[2 * k + 1]);
        }
        assert forall|k: int| h <= k < h + p.len() / 2 implies #[trigger] samples_of(ab)[k]
            == samples_of(p)[k - h] by {
            assert(ab[2 * k] == p[2 * (k - h)]);
            assert(ab[2 * k + 1] == p[2 * (k - h) + 1]);
        }
        assert(samples_of(a) + samples_of(p) =~= samples_of(ab));
        if p.len() > 0 {
            assert(ab.last() == p.last());
        }
        assert(leftover(p) == leftover(ab));
    }
}

/// Reads `ffmpeg` audio out of a video file; `app` drives the subprocess, this type makes the
/// decisions.
#[derive(Debug)]
pub struct VideoDecoderFFmpegBinary {}

impl VideoDecoderFFmpegBinary {
    /// How many samples one step of the progress bar stands for.
    pub const PROGRESS_PRESCALER: i64 = 200;

    /// The position of the stream to read, or `None` when there is no suitable audio stream.
    pub fn select_stream(streams: &[Stream], wanted: Option<usize>) -> (r: Option<usize>)
        ensures
            r matches Some(k) ==> is_chosen(streams@, wanted, k as int),
            r is None <==> !has_choice(streams@, wanted),
    {
        let mut best: Option<usize> = None;
        let mut k: usize = 0;
        while k < streams.len()
            invariant
                k <= streams@.len(),
                match best {
                    Some(b) => b < k && is_audio(streams@[b as int]) && match wanted {
                        Some(i) => streams@[b as int].index == i && forall|j: int|
                            0 <= j < b ==> !(is_audio(#[trigger] streams@[j]) && streams@[j].index
                                == i),
                        None => (forall|j: int|
                            0 <= j < k && is_audio(#[trigger] streams@[j]) ==> channels(
                                streams@[b as int],
                            ) <= channels(streams@[j])) && (forall|j: int|
                            0 <= j < b && is_audio(#[trigger] streams@[j]) ==> channels(
                                streams@[b as int],
                            ) < channels(streams@[j])),
                    },
                    None => forall|j: int|
                        0 <= j < k ==> !(is_audio(#[trigger] streams@[j]) && match wanted {
                            Some(i) => streams@[j].index == i,
                            None => true,
                        }),
                },
            decreases streams@.len() - k,
        {
            let s = &streams[k];
            if is_audio_stream(s) {
                match wanted {
                    Some(i) => {
                        if best.is_none() && s.index == i {
                            best = Some(k);
                        }
                    },
                    None => {
                        let c = s.channels.unwrap();
                        match best {
                            None => {
                                best = Some(k);
                            },
                            Some(b) => {
                                if c < streams[b].channels.unwrap() {
                                    best = Some(k);
                                }
                            },
                        }
                    },
                }
            }
            k = k + 1;
        }
        proof {
            if best is None && has_choice(streams@, wanted) {
                let j = choose|j: int|
                    0 <= j < streams@.len() && is_audio(#[trigger] streams@[j]) && match wanted {
                        Some(i) => streams@[j].index == i,
                        None => true,
                    };
                assert(!(is_audio(streams@[j]) && match wanted {
                    Some(i) => streams@[j].index == i,
                    None => true,
                }));
            }
            if let Some(b) = best {
                assert(is_audio(streams@[b as int]));
            }
        }
        best
    }

    /// The duration that sizes the progress bar: the stream's own, or else the file's.
    pub fn stream_duration(stream: &Stream, format_duration: Option<&str>) -> (r: Option<String>)
        ensures
            match stream.duration {
                Some(d) => r matches Some(t) && t@ == d@,
                None => match format_duration {
                    Some(d) => r matches Some(t) && t@ == d@,
                    None => r is None,
                },
            },
    {
        match &stream.duration {
            Some(d) => {
                let cs = chars_of(d.as_str());
                Some(string_of(cs.as_slice()))
            },
            None => match format_duration {
                Some(d) => {
                    let cs = chars_of(d);
                    Some(string_of(cs.as_slice()))
                },
                None => None,
            },
        }
    }

    /// The `-map` argument that selects stream `index` of the first input.
    pub fn map_arg(index: usize) -> (r: String)
        ensures
            r@ == seq!['0', ':'] + crate::text::decimal(index as nat),
    {
        let mut out: Vec<char> = Vec::new();
        out.push('0');
        out.push(':');
        crate::text::push_decimal(&mut out, index as u64, 0);
        proof {
            crate::text::lemma_decimal_len(index as nat);
        }
        assert(out@ =~= seq!['0', ':'] + crate::text::decimal(index as nat));
        string_of(out.as_slice())
    }

    fn sample_of(lo: u8, hi: u8) -> (r: i16)
        ensures
            r == le_sample(lo, hi),
    {
        if hi < 128 {
            (hi as i16) * 256 + (lo as i16)
        } else {
            ((hi as i32) * 256 + (lo as i32) - 65536) as i16
        }
    }

    /// Turns the bytes of one read into samples; an odd byte at the end waits for the next read.
    pub fn decode_samples(half: Option<u8>, bytes: &[u8]) -> (r: (Vec<i16>, Option<u8>))
        ensures
            sample_values(r.0@) == samples_of(pending_bytes(half, bytes@)),
            r.1 == leftover(pending_bytes(half, bytes@)),
            r.0@.len() == pending_bytes(half, bytes@).len() / 2,
            forall|k: int|
                0 <= k < r.0@.len() ==> #[trigger] r.0@[k] == le_sample(
                    pending_bytes(half, bytes@)[2 * k],
                    pending_bytes(half, bytes@)[2 * k + 1],
                ),
            r.1 == (if pending_bytes(half, bytes@).len() % 2 == 1 {
                Some(pending_bytes(half, bytes@).last())
            } else {
                None::<u8>
            }),
    {
        let ghost all = pending_bytes(half, bytes@);
        let mut out: Vec<i16> = Vec::new();
        let mut i: usize = 0;
        match half {
            Some(first) => {
                if bytes.len() == 0 {
                    assert(sample_values(out@) =~= samples_of(all));
                    return (out, Some(first));
                }
                out.push(Self::sample_of(first, bytes[0]));
                i = 1;
            },
            None => {},
        }
        let ghost off: int = if half is Some {
            1
        } else {
            0
        };
        while bytes.len() - i > 1
            invariant
                all == pending_bytes(half, bytes@),
                off == (if half is Some {
                    1int
                } else {
                    0
                }),
                all.len() == bytes@.len() + off,
                forall|j: int| 0 <= j < bytes@.len() ==> all[j + off] == #[trigger] bytes@[j],
                off == 1 ==> all[0] == half->Some_0,
                i <= bytes@.len(),
                (i + off) % 2 == 0,
                out@.len() == (i + off) / 2,
                forall|k: int|
                    0 <= k < out@.len() ==> #[trigger] out@[k] == le_sample(all[2 * k], all[2 * k + 1]),
            decreases bytes@.len() - i,
        {
            out.push(Self::sample_of(bytes[i], bytes[i + 1]));
            assert(all[i + off] == bytes@[i as int]);
            assert(all[i + 1 + off] == bytes@[i + 1]);
            i = i + 2;
        }
        assert(sample_values(out@) =~= samples_of(all));
        if i < bytes.len() {
            assert(all[i + off] == bytes@[i as int]);
            (out, Some(bytes[i]))
        } else {
            (out, None)
        }
    }

    /// Counts `produced` more samples on top of `counter`: how many steps the progress bar
    /// advances, and the samples left over towards the next step. A count below zero advances
    /// nothing.
    pub fn advance_progress(counter: i64, produced: usize) -> (r: (u64, i64))
        requires
            produced <= i64::MAX,
            counter + produced <= i64::MAX,
        ensures
            counter + produced >= 0 ==> r.0 == (counter + produced) / Self::PROGRESS_PRESCALER as int
                && r.1 == (counter + produced) % Self::PROGRESS_PRESCALER as int,
            counter + produced < 0 ==> r.0 == 0 && r.1 == counter + produced,
    {
        let total: i128 = counter as i128 + produced as i128;
        if total < 0 {
            (0, total as i64)
        } else {
            ((total / 200) as u64, (total % 200) as i64)
        }
    }
}

} // verus!
