//! Minimal `VobSub` (`.sub`) timing extractor.
//!
//! A `.sub` file is an MPEG-2 Program Stream carrying one or more DVD subpicture
//! substreams. Only the presentation timestamps are needed, so this module parses the
//! PS/PES framing and the subpicture *control* sequences and stops before the
//! run-length-encoded bitmap payload.
//!
//! All times are counted in ticks of the 90 kHz MPEG system clock, so they are exact.

use crate::errors::VobSubStreamError as Error;
use vstd::prelude::*;

verus! {

/// Ticks of the 90 kHz clock per second.
pub const TICKS_PER_SECOND: i64 = 90000;

/// If a subpicture carries no stop date it ends this many ticks (one millisecond) before
/// the next one starts...
pub const DEFAULT_SUBTITLE_SPACING: i64 = 90;

/// ...but never lasts longer than this many ticks (five seconds).
pub const DEFAULT_SUBTITLE_LENGTH: i64 = 450000;

/// Start and end of one subpicture, in ticks of the 90 kHz clock.
#[derive(Debug, Clone, Copy, PartialEq, Eq, Structural)]
pub struct VobSubTiming {
    /// When the subpicture appears.
    pub start: i64,
    /// When the subpicture disappears.
    pub end: i64,
}

// ---------------------------------------------------------------------------------------------
// the grammar, as specifications

/// A big-endian `u16`.
pub open spec fn be16(a: u8, b: u8) -> int {
    a as int * 256 + b as int
}

/// The bits of `mask` are all set in `b`, for the three masks the stream uses.
pub open spec fn has_bits(b: u8, mask: u8) -> bool {
    if mask == 1 {
        b % 2 == 1
    } else if mask == 3 {
        b % 4 == 3
    } else {
        (b / 4) % 2 == 1
    }
}

/// Whether the four bytes at `p` are the Program Stream pack start code `00 00 01 ba`.
pub open spec fn is_pack_start(s: Seq<u8>, p: int) -> bool {
    &&& 0 <= p
    &&& p + 4 <= s.len()
    &&& s[p] == 0
    &&& s[p + 1] == 0
    &&& s[p + 2] == 1
    &&& s[p + 3] == 0xba
}

/// The first pack start code at or after `from`.
pub open spec fn find_pack(s: Seq<u8>, from: int) -> Option<int>
    decreases s.len() - from,
{
    if from < 0 || from + 4 > s.len() {
        None
    } else if is_pack_start(s, from) {
        Some(from)
    } else {
        find_pack(s, from + 1)
    }
}

/// The 33-bit presentation timestamp held by the five bytes at `p`.
pub open spec fn pts_value(s: Seq<u8>, p: int) -> int {
    ((s[p] / 2) % 8) as int * 0x40000000 + (s[p + 1] as int * 128 + (s[p + 2] / 2) as int) * 0x8000
        + (s[p + 3] as int * 128 + (s[p + 4] / 2) as int)
}

/// The timestamp field of `len` bytes at `p`: present when it has its five bytes and its three
/// marker bits.
pub open spec fn read_pts(s: Seq<u8>, p: int, len: int) -> Option<int> {
    if len < 5 || !has_bits(s[p], 1) || !has_bits(s[p + 2], 1) || !has_bits(s[p + 4], 1) {
        None
    } else {
        Some(pts_value(s, p))
    }
}

/// One `private_stream_1` PES payload: its timestamp, its substream and where its data lies.
pub struct Payload {
    pub pts: Option<int>,
    pub substream: u8,
    pub lo: int,
    pub hi: int,
}

/// What one attempt at parsing a pack produces.
pub enum Pack {
    /// A payload, and the position just after the packet it came from.
    Packet(Payload, int),
    /// This looked like a pack but did not parse; resynchronise past the start code.
    Resync,
    /// The stream ends inside the pack.
    Truncated,
}

/// The pack header that follows the start code at `p`: `None` if the stream ends inside it,
/// `Some(false)` if a tag or marker bit is wrong, `Some(true)` if it is sound. The checks come in
/// the order the bytes are read, so a missing byte and a wrong bit are told apart.
pub open spec fn header_state(s: Seq<u8>, p: int) -> Option<bool> {
    let h = p + 4;
    if h >= s.len() {
        None
    } else if s[h] / 64 != 1 {
        Some(false)
    } else if !has_bits(s[h], 4) {
        Some(false)
    } else if h + 2 >= s.len() {
        None
    } else if !has_bits(s[h + 2], 4) {
        Some(false)
    } else if h + 4 >= s.len() {
        None
    } else if !has_bits(s[h + 4], 4) {
        Some(false)
    } else if h + 5 >= s.len() {
        None
    } else if !has_bits(s[h + 5], 1) {
        Some(false)
    } else if h + 8 >= s.len() {
        None
    } else if !has_bits(s[h + 8], 3) {
        Some(false)
    } else if h + 9 >= s.len() {
        None
    } else {
        Some(true)
    }
}

/// `00 00 01 bd`, the start code of `private_stream_1`.
pub open spec fn pes1(i: int) -> u8 {
    if i == 3 {
        0xbd
    } else if i == 2 {
        1
    } else {
        0
    }
}

/// The bytes present at `r` (at most four) agree with the `private_stream_1` start code.
pub open spec fn pes_prefix_ok(s: Seq<u8>, r: int) -> bool {
    forall|i: int| 0 <= i < 4 && r + i < s.len() ==> s[r + i] == #[trigger] pes1(i)
}

/// The PES body at `[b, e)`, once its framing has been checked.
pub open spec fn parse_body(s: Seq<u8>, b: int, e: int) -> Pack {
    if e - b < 3 || s[b] / 64 != 2 {
        Pack::Resync
    } else {
        let flags = s[b + 1] / 64;
        let hdl = s[b + 2] as int;
        let hd = b + 3;
        if hd + hdl >= e {
            Pack::Resync
        } else {
            let substream = s[hd + hdl];
            let pts: Option<Option<int>> = if flags == 0 {
                Some(None)
            } else if flags == 2 && hdl > 0 && s[hd] / 16 == 2 {
                Some(read_pts(s, hd, hdl))
            } else if flags == 3 && hdl >= 10 && s[hd] / 16 == 3 && s[hd + 5] / 16 == 1
                && has_bits(s[hd + 5], 1) && has_bits(s[hd + 7], 1) && has_bits(s[hd + 9], 1) {
                Some(read_pts(s, hd, hdl))
            } else {
                None
            };
            match pts {
                None => Pack::Resync,
                Some(pts) => if (flags != 0 && pts is None) {
                    Pack::Resync
                } else {
                    Pack::Packet(Payload { pts, substream, lo: hd + hdl + 1, hi: e }, e)
                },
            }
        }
    }
}

/// Parses one PS pack header plus the PES packet inside it; `p` is a pack start code.
pub open spec fn parse_pack(s: Seq<u8>, p: int) -> Pack {
    match header_state(s, p) {
        None => Pack::Truncated,
        Some(false) => Pack::Resync,
        Some(true) => {
            let stuffing = (s[p + 13] % 8) as int;
            let r = p + 14 + stuffing;
            if r > s.len() {
                Pack::Truncated
            } else if !pes_prefix_ok(s, r) {
                Pack::Resync
            } else if r + 6 > s.len() {
                Pack::Truncated
            } else {
                let pes_len = be16(s[r + 4], s[r + 5]);
                if r + 6 + pes_len > s.len() {
                    Pack::Truncated
                } else {
                    parse_body(s, r + 6, r + 6 + pes_len)
                }
            }
        },
    }
}

/// What reading the next payload from position `pos` gives.
pub enum Next {
    /// No further pack start code.
    End,
    /// A payload, and where reading goes on.
    Item(Payload, int),
    /// The stream is truncated.
    Fail,
}

/// The next `private_stream_1` payload at or after `pos`, skipping packs that do not parse.
#[verifier::opaque]
pub open spec fn next_payload(s: Seq<u8>, pos: int) -> Next
    decreases s.len() - pos,
{
    match find_pack(s, pos) {
        None => Next::End,
        Some(p) => {
            if p < pos {
                Next::End
            } else {
                match parse_pack(s, p) {
                    Pack::Packet(payload, after) => Next::Item(payload, after),
                    Pack::Truncated => Next::Fail,
                    Pack::Resync => next_payload(s, p + 4),
                }
            }
        },
    }
}

// ---------------------------------------------------------------------------------------------
// control sequences

/// What the control sequences of one subpicture have set so far.
pub struct Control {
    pub start: Option<int>,
    pub end: Option<int>,
    pub coordinates: bool,
    pub palette: bool,
    pub alpha: bool,
    pub rle: Option<(int, int)>,
}

pub open spec fn first_ff(s: Seq<u8>, from: int) -> Option<int>
    decreases s.len() - from,
{
    if from < 0 || from >= s.len() {
        None
    } else if s[from] == 0xff {
        Some(from)
    } else {
        first_ff(s, from + 1)
    }
}

/// `first_ff` finds the first `0xff` byte from `from` on, or there is none.
pub proof fn lemma_first_ff(s: Seq<u8>, from: int)
    requires
        0 <= from,
    ensures
        first_ff(s, from) matches Some(t) ==> from <= t < s.len() && s[t] == 0xff && forall|j: int|
            from <= j < t ==> s[j] != 0xff,
        first_ff(s, from) is None ==> forall|j: int| from <= j < s.len() ==> s[j] != 0xff,
    decreases s.len() - from,
{
    if 0 <= from < s.len() && s[from] != 0xff {
        lemma_first_ff(s, from + 1);
    }
}

/// Runs the commands of one control sequence from `pos` up to its `0xff` terminator.
#[verifier::opaque]
pub open spec fn run_commands(s: Seq<u8>, pos: int, time: int, c: Control) -> Result<Control, Error>
    decreases s.len() - pos,
{
    if pos < 0 || pos >= s.len() {
        Err(Error::IncompleteControlSequence)
    } else {
        let cmd = s[pos];
        let q = pos + 1;
        if cmd == 0xff {
            Ok(c)
        } else if cmd == 0 {
            run_commands(s, q, time, c)
        } else if cmd == 1 {
            run_commands(s, q, time, Control { start: if (c.start is Some) { c.start } else { Some(time) }, ..c })
        } else if cmd == 2 {
            run_commands(s, q, time, Control { end: if (c.end is Some) { c.end } else { Some(time) }, ..c })
        } else if cmd == 3 {
            if q + 2 > s.len() {
                Err(Error::IncompleteControlSequence)
            } else {
                run_commands(s, q + 2, time, Control { palette: true, ..c })
            }
        } else if cmd == 4 {
            if q + 2 > s.len() {
                Err(Error::IncompleteControlSequence)
            } else {
                run_commands(s, q + 2, time, Control { alpha: true, ..c })
            }
        } else if cmd == 5 {
            if q + 6 > s.len() {
                Err(Error::IncompleteControlSequence)
            } else {
                let x1 = s[q] as int * 16 + (s[q + 1] / 16) as int;
                let x2 = (s[q + 1] % 16) as int * 256 + s[q + 2] as int;
                let y1 = s[q + 3] as int * 16 + (s[q + 4] / 16) as int;
                let y2 = (s[q + 4] % 16) as int * 256 + s[q + 5] as int;
                if x2 <= x1 || y2 <= y1 {
                    Err(Error::InvalidBoundingBox)
                } else {
                    run_commands(s, q + 6, time, Control { coordinates: true, ..c })
                }
            }
        } else if cmd == 6 {
            if q + 4 > s.len() {
                Err(Error::IncompleteControlSequence)
            } else {
                run_commands(
                    s,
                    q + 4,
                    time,
                    Control { rle: Some((be16(s[q], s[q + 1]), be16(s[q + 2], s[q + 3]))), ..c },
                )
            }
        } else {
            // an unknown command: everything up to the next terminator is skipped
            match first_ff(s, q) {
                None => Err(Error::IncompleteControlSequence),
                Some(t) => {
                    proof {
                        lemma_first_ff(s, q);
                    }
                    run_commands(s, t, time, c)
                },
            }
        }
    }
}

/// Runs the chain of control sequences that starts at offset `co` of the packet `s`.
pub open spec fn run_sequences(s: Seq<u8>, co: int, base: int, c: Control) -> Result<Control, Error>
    decreases s.len() - co,
{
    if co < 0 || co >= s.len() {
        Err(Error::ControlOffsetOutOfBounds { offset: co as usize, len: s.len() as usize })
    } else if co + 4 > s.len() {
        Err(Error::IncompleteControlSequence)
    } else {
        let time = base + be16(s[co], s[co + 1]) * 900;
        let next = be16(s[co + 2], s[co + 3]);
        match run_commands(s, co + 4, time, c) {
            Err(e) => Err(e),
            Ok(c2) => if next == co {
                Ok(c2)
            } else if next < co {
                Err(Error::ControlOffsetWentBackwards)
            } else if next >= s.len() {
                Err(Error::ControlOffsetOutOfBounds { offset: next as usize, len: s.len() as usize })
            } else {
                run_sequences(s, next, base, c2)
            },
        }
    }
}

/// Start and (optional) end of one subpicture packet `s` whose packet carried timestamp `base`.
#[verifier::opaque]
pub open spec fn control_timing(s: Seq<u8>, base: int) -> Result<(int, Option<int>), Error> {
    if s.len() < 4 {
        Err(Error::UnexpectedEndOfSubtitleData)
    } else {
        let ico = be16(s[2], s[3]);
        let none = Control {
            start: None,
            end: None,
            coordinates: false,
            palette: false,
            alpha: false,
            rle: None,
        };
        match run_sequences(s, ico, base, none) {
            Err(e) => Err(e),
            Ok(c) => control_result(c, ico, s.len() as int),
        }
    }
}

/// The timing that the control state `c` gives, or why it gives none.
pub open spec fn control_result(c: Control, ico: int, len: int) -> Result<(int, Option<int>), Error> {
    match c.start {
        None => Err(Error::MissingStartTime),
        Some(start) => if !c.coordinates {
            Err(Error::MissingCoordinates)
        } else if !c.palette {
            Err(Error::MissingPalette)
        } else if !c.alpha {
            Err(Error::MissingAlpha)
        } else {
            match c.rle {
                None => Err(Error::MissingRleOffsets),
                Some(rle) => if rle.0 > rle.1 || rle.1 > ico + 2 || ico + 2 > len {
                    Err(Error::InvalidScanLineOffsets)
                } else {
                    Ok((start, c.end))
                },
            }
        },
    }
}

// ---------------------------------------------------------------------------------------------
// assembling subpictures

/// What gathering the rest of a split subpicture gives.
pub enum Gather {
    /// The subpicture is complete; reading goes on at the position.
    Done(Seq<u8>, int),
    /// The stream ended first: the half-assembled subpicture is dropped.
    End,
    /// The stream is truncated.
    Fail,
}

/// Appends the payloads of substream `sid` after `pos` to `buf` until it holds `wanted` bytes.
#[verifier::opaque]
pub open spec fn gather(s: Seq<u8>, pos: int, sid: u8, buf: Seq<u8>, wanted: int) -> Gather
    decreases s.len() - pos,
{
    if buf.len() >= wanted {
        Gather::Done(buf.take(wanted), pos)
    } else {
        match next_payload(s, pos) {
            Next::End => Gather::End,
            Next::Fail => Gather::Fail,
            Next::Item(p, after) => if after <= pos || after > s.len() {
                Gather::End
            } else if p.substream != sid {
                gather(s, after, sid, buf, wanted)
            } else {
                gather(s, after, sid, buf + s.subrange(p.lo, p.hi), wanted)
            },
        }
    }
}

/// Every subpicture from `pos` on, as start and optional end.
pub open spec fn raw_timings(s: Seq<u8>, pos: int) -> Result<Seq<(int, Option<int>)>, Error>
    decreases s.len() - pos,
{
    match next_payload(s, pos) {
        Next::End => Ok(Seq::empty()),
        Next::Fail => Err(Error::IncompletePesPacket),
        Next::Item(first, after) => match first.pts {
            None => Err(Error::SubtitleWithoutTiming),
            Some(base) => if first.hi - first.lo < 2 {
                Err(Error::PacketTooShort)
            } else if after <= pos {
                Ok(Seq::empty())
            } else {
                let wanted = be16(s[first.lo], s[first.lo + 1]);
                match gather(s, after, first.substream, s.subrange(first.lo, first.hi), wanted) {
                    Gather::End => Ok(Seq::empty()),
                    Gather::Fail => Err(Error::IncompletePesPacket),
                    Gather::Done(buf, next) => match control_timing(buf, base) {
                        Err(e) => Err(e),
                        Ok(t) => if next <= pos || next > s.len() {
                            Ok(Seq::empty())
                        } else {
                            match raw_timings(s, next) {
                                Err(e) => Err(e),
                                Ok(rest) => Ok(seq![t] + rest),
                            }
                        },
                    },
                }
            },
        },
    }
}

/// The end-time rule: a subpicture without a stop date ends just before the next one starts,
/// but lasts at most the default length.
pub open spec fn fixed_end(raw: Seq<(int, Option<int>)>, i: int) -> int {
    let start = raw[i].0;
    match raw[i].1 {
        Some(end) => end,
        None => if i + 1 < raw.len() {
            let a = raw[i + 1].0 - DEFAULT_SUBTITLE_SPACING;
            let b = start + DEFAULT_SUBTITLE_LENGTH;
            if a <= b {
                a
            } else {
                b
            }
        } else {
            start + DEFAULT_SUBTITLE_LENGTH
        },
    }
}

/// The timings of every subpicture of a `.sub` stream.
pub open spec fn spec_timings(s: Seq<u8>) -> Result<Seq<VobSubTiming>, Error> {
    match raw_timings(s, 0) {
        Err(e) => Err(e),
        Ok(raw) => Ok(
            Seq::new(
                raw.len(),
                |i: int| VobSubTiming { start: raw[i].0 as i64, end: fixed_end(raw, i) as i64 },
            ),
        ),
    }
}


// ---------------------------------------------------------------------------------------------
// properties of the grammar

/// `find_pack` finds a pack start code at or after `from`.
pub proof fn lemma_find_pack(s: Seq<u8>, from: int)
    requires
        0 <= from,
    ensures
        find_pack(s, from) matches Some(p) ==> from <= p && is_pack_start(s, p),
    decreases s.len() - from,
{
    if from + 4 <= s.len() && !is_pack_start(s, from) {
        lemma_find_pack(s, from + 1);
    }
}

/// A parsed pack lies inside the stream and ends after its start code.
pub proof fn lemma_parse_pack(s: Seq<u8>, p: int)
    requires
        is_pack_start(s, p),
    ensures
        parse_pack(s, p) matches Pack::Packet(pl, after) ==> p + 4 < after <= s.len() && pl.hi
            == after && p < pl.lo <= pl.hi && (pl.pts matches Some(t) ==> 0 <= t < 0x200000000),
{
}

/// A payload lies inside the stream, after the position reading started from.
pub proof fn lemma_next_payload(s: Seq<u8>, pos: int)
    requires
        0 <= pos,
    ensures
        next_payload(s, pos) matches Next::Item(pl, after) ==> pos < after <= s.len() && pl.hi
            == after && pos < pl.lo <= pl.hi && (pl.pts matches Some(t) ==> 0 <= t < 0x200000000),
    decreases s.len() - pos,
{
    reveal(next_payload);
    lemma_find_pack(s, pos);
    match find_pack(s, pos) {
        None => {},
        Some(p) => {
            lemma_parse_pack(s, p);
            if let Pack::Resync = parse_pack(s, p) {
                lemma_next_payload(s, p + 4);
            }
        },
    }
}

// ---------------------------------------------------------------------------------------------
// the reader

/// One `private_stream_1` PES payload: `data[lo..hi]` of the stream.
struct PesPayload {
    pts: Option<u64>,
    substream_id: u8,
    lo: usize,
    hi: usize,
}

impl PesPayload {
    spec fn view(self) -> Payload {
        Payload {
            pts: match self.pts {
                Some(t) => Some(t as int),
                None => None,
            },
            substream: self.substream_id,
            lo: self.lo as int,
            hi: self.hi as int,
        }
    }
}

enum PackOutcome {
    Packet(PesPayload, usize),
    Resync,
    Truncated,
}

impl PackOutcome {
    spec fn view(self) -> Pack {
        match self {
            PackOutcome::Packet(p, a) => Pack::Packet(p.view(), a as int),
            PackOutcome::Resync => Pack::Resync,
            PackOutcome::Truncated => Pack::Truncated,
        }
    }
}

enum NextOutcome {
    End,
    Item(PesPayload, usize),
    Fail,
}

impl NextOutcome {
    spec fn view(self) -> Next {
        match self {
            NextOutcome::End => Next::End,
            NextOutcome::Item(p, a) => Next::Item(p.view(), a as int),
            NextOutcome::Fail => Next::Fail,
        }
    }
}

/// Reads a big-endian `u16` from the two bytes at `i`.
fn be_u16(b: &[u8], i: usize) -> (r: u16)
    requires
        i + 1 < b@.len(),
    ensures
        r == be16(b@[i as int], b@[i + 1]),
{
    (b[i] as u16) * 256 + (b[i + 1] as u16)
}

/// Tests the bits selected by `mask` in `b`, for a marker bit that has to be set.
fn marker(b: u8, mask: u8) -> (r: bool)
    ensures
        r == has_bits(b, mask),
{
    if mask == 1 {
        b % 2 == 1
    } else if mask == 3 {
        b % 4 == 3
    } else {
        (b / 4) % 2 == 1
    }
}

fn find_pack_start(s: &[u8], from: usize) -> (r: Option<usize>)
    ensures
        r matches Some(p) ==> find_pack(s@, from as int) == Some(p as int) && p + 4 <= s.len(),
        r is None ==> find_pack(s@, from as int) is None,
{
    let mut i = from;
    while i < s.len() && s.len() - i >= 4
        invariant
            from <= i,
            find_pack(s@, from as int) == find_pack(s@, i as int),
        decreases s@.len() - i,
    {
        if s[i] == 0 && s[i + 1] == 0 && s[i + 2] == 1 && s[i + 3] == 0xba {
            return Some(i);
        }
        i = i + 1;
    }
    None
}

/// Reads the presentation timestamp out of the `len` bytes of PES header data at `p`.
fn read_pts_ticks(s: &[u8], p: usize, len: usize) -> (r: Option<u64>)
    requires
        p + len <= s@.len(),
    ensures
        r matches Some(t) ==> read_pts(s@, p as int, len as int) == Some(t as int),
        r is None ==> read_pts(s@, p as int, len as int) is None,
{
    if len < 5 || !marker(s[p], 1) || !marker(s[p + 2], 1) || !marker(s[p + 4], 1) {
        return None;
    }
    let hi = ((s[p] / 2) % 8) as u64;
    let mid = (s[p + 1] as u64) * 128 + (s[p + 2] / 2) as u64;
    let lo = (s[p + 3] as u64) * 128 + (s[p + 4] / 2) as u64;
    Some(hi * 0x40000000 + mid * 0x8000 + lo)
}

fn header_state_at(s: &[u8], p: usize) -> (r: Option<bool>)
    requires
        is_pack_start(s@, p as int),
    ensures
        r == header_state(s@, p as int),
{
    let len = s.len();
    let h = p + 4;
    if h >= len {
        None
    } else if s[h] / 64 != 1 {
        Some(false)
    } else if !marker(s[h], 4) {
        Some(false)
    } else if s.len() - h <= 2 {
        None
    } else if !marker(s[h + 2], 4) {
        Some(false)
    } else if s.len() - h <= 4 {
        None
    } else if !marker(s[h + 4], 4) {
        Some(false)
    } else if s.len() - h <= 5 {
        None
    } else if !marker(s[h + 5], 1) {
        Some(false)
    } else if s.len() - h <= 8 {
        None
    } else if !marker(s[h + 8], 3) {
        Some(false)
    } else if s.len() - h <= 9 {
        None
    } else {
        Some(true)
    }
}

fn parse_body_at(s: &[u8], b: usize, e: usize) -> (r: PackOutcome)
    requires
        b <= e <= s@.len(),
    ensures
        r.view() == parse_body(s@, b as int, e as int),
{
    if e - b < 3 || s[b] / 64 != 2 {
        return PackOutcome::Resync;
    }
    let flags = s[b + 1] / 64;
    let hdl = s[b + 2] as usize;
    let hd = b + 3;
    if hdl >= e - hd {
        return PackOutcome::Resync;
    }
    let substream_id = s[hd + hdl];
    let pts: Option<u64>;
    if flags == 0 {
        pts = None;
    } else if flags == 2 && hdl > 0 && s[hd] / 16 == 2 {
        pts = read_pts_ticks(s, hd, hdl);
        if pts.is_none() {
            return PackOutcome::Resync;
        }
    } else if flags == 3 && hdl >= 10 && s[hd] / 16 == 3 && s[hd + 5] / 16 == 1 && marker(
        s[hd + 5],
        1,
    ) && marker(s[hd + 7], 1) && marker(s[hd + 9], 1) {
        pts = read_pts_ticks(s, hd, hdl);
        if pts.is_none() {
            return PackOutcome::Resync;
        }
    } else {
        return PackOutcome::Resync;
    }
    PackOutcome::Packet(PesPayload { pts, substream_id, lo: hd + hdl + 1, hi: e }, e)
}

/// Whether the bytes present at `r` agree with the `private_stream_1` start code.
fn pes_prefix_matches(s: &[u8], r: usize) -> (b: bool)
    requires
        r <= s@.len(),
    ensures
        b == pes_prefix_ok(s@, r as int),
{
    let avail = s.len() - r;
    let mut i: usize = 0;
    while i < 4 && i < avail
        invariant
            r + avail == s.len(),
            i <= 4,
            forall|j: int| 0 <= j < i ==> s@[r + j] == #[trigger] pes1(j),
        decreases 4 - i,
    {
        let want: u8 = if i == 3 {
            0xbd
        } else if i == 2 {
            1
        } else {
            0
        };
        if s[r + i] != want {
            assert(s@[r + i] != pes1(i as int));
            return false;
        }
        i = i + 1;
    }
    true
}

/// Parses one PS pack header plus the PES packet inside it.
fn parse_pack_at(s: &[u8], p: usize) -> (r: PackOutcome)
    requires
        is_pack_start(s@, p as int),
    ensures
        r.view() == parse_pack(s@, p as int),
{
    match header_state_at(s, p) {
        None => PackOutcome::Truncated,
        Some(false) => PackOutcome::Resync,
        Some(true) => {
            let len = s.len();
            let stuffing = (s[p + 13] % 8) as usize;
            if 14 + stuffing > s.len() - p {
                return PackOutcome::Truncated;
            }
            let r = p + 14 + stuffing;
            let avail = s.len() - r;
            if !pes_prefix_matches(s, r) {
                return PackOutcome::Resync;
            }
            if avail < 6 {
                return PackOutcome::Truncated;
            }
            let pes_len = be_u16(s, r + 4) as usize;
            if pes_len > avail - 6 {
                return PackOutcome::Truncated;
            }
            parse_body_at(s, r + 6, r + 6 + pes_len)
        },
    }
}

/// The next `private_stream_1` payload at or after `pos`.
fn next_payload_at(s: &[u8], pos: usize) -> (r: NextOutcome)
    ensures
        r.view() == next_payload(s@, pos as int),
{
    let mut cur = pos;
    loop
        invariant
            next_payload(s@, pos as int) == next_payload(s@, cur as int),
        decreases s@.len() - cur,
    {
        proof {
            reveal(next_payload);
            lemma_find_pack(s@, cur as int);
        }
        match find_pack_start(s, cur) {
            None => {
                return NextOutcome::End;
            },
            Some(p) => {
                match parse_pack_at(s, p) {
                    PackOutcome::Packet(payload, after) => {
                        return NextOutcome::Item(payload, after);
                    },
                    PackOutcome::Truncated => {
                        return NextOutcome::Fail;
                    },
                    PackOutcome::Resync => {
                        cur = p + 4;
                    },
                }
            },
        }
    }
}

/// What the control sequences have set so far.
struct ControlState {
    start: Option<i64>,
    end: Option<i64>,
    coordinates: bool,
    palette: bool,
    alpha: bool,
    rle: Option<(u16, u16)>,
}

impl ControlState {
    spec fn view(self) -> Control {
        Control {
            start: match self.start {
                Some(t) => Some(t as int),
                None => None,
            },
            end: match self.end {
                Some(t) => Some(t as int),
                None => None,
            },
            coordinates: self.coordinates,
            palette: self.palette,
            alpha: self.alpha,
            rle: match self.rle {
                Some(r) => Some((r.0 as int, r.1 as int)),
                None => None,
            },
        }
    }
}

/// Runs the commands of one control sequence from `pos` up to its terminator.
#[verifier::rlimit(50)]
fn run_commands_at(s: &[u8], pos: usize, time: i64, c: &mut ControlState) -> (r: Result<(), Error>)
    ensures
        match r {
            Ok(()) => run_commands(s@, pos as int, time as int, old(c).view()) == Ok::<
                Control,
                Error,
            >(final(c).view()),
            Err(e) => run_commands(s@, pos as int, time as int, old(c).view()) == Err::<
                Control,
                Error,
            >(e),
        },
        final(c).start matches Some(t) ==> old(c).start == Some(t) || t == time,
        final(c).end matches Some(t) ==> old(c).end == Some(t) || t == time,
{
    let mut p = pos;
    loop
        invariant
            run_commands(s@, pos as int, time as int, old(c).view()) == run_commands(
                s@,
                p as int,
                time as int,
                c.view(),
            ),
            c.start matches Some(t) ==> old(c).start == Some(t) || t == time,
            c.end matches Some(t) ==> old(c).end == Some(t) || t == time,
        decreases s@.len() - p,
    {
        proof {
            reveal(run_commands);
        }
        if p >= s.len() {
            return Err(Error::IncompleteControlSequence);
        }
        let cmd = s[p];
        let q = p + 1;
        if cmd == 0xff {
            return Ok(());
        } else if cmd == 0 {
            p = q;
        } else if cmd == 1 {
            if c.start.is_none() {
                c.start = Some(time);
            }
            p = q;
        } else if cmd == 2 {
            if c.end.is_none() {
                c.end = Some(time);
            }
            p = q;
        } else if cmd == 3 {
            if s.len() - q < 2 {
                return Err(Error::IncompleteControlSequence);
            }
            c.palette = true;
            p = q + 2;
        } else if cmd == 4 {
            if s.len() - q < 2 {
                return Err(Error::IncompleteControlSequence);
            }
            c.alpha = true;
            p = q + 2;
        } else if cmd == 5 {
            if s.len() - q < 6 {
                return Err(Error::IncompleteControlSequence);
            }
            let x1 = (s[q] as u16) * 16 + (s[q + 1] / 16) as u16;
            let x2 = ((s[q + 1] % 16) as u16) * 256 + s[q + 2] as u16;
            let y1 = (s[q + 3] as u16) * 16 + (s[q + 4] / 16) as u16;
            let y2 = ((s[q + 4] % 16) as u16) * 256 + s[q + 5] as u16;
            if x2 <= x1 || y2 <= y1 {
                return Err(Error::InvalidBoundingBox);
            }
            c.coordinates = true;
            p = q + 6;
        } else if cmd == 6 {
            if s.len() - q < 4 {
                return Err(Error::IncompleteControlSequence);
            }
            c.rle = Some((be_u16(s, q), be_u16(s, q + 2)));
            p = q + 4;
        } else {
            // an unknown command: everything up to the next terminator is skipped
            let mut t = q;
            while t < s.len() && s[t] != 0xff
                invariant
                    q <= t <= s@.len(),
                    first_ff(s@, q as int) == first_ff(s@, t as int),
                decreases s@.len() - t,
            {
                t = t + 1;
            }
            if t >= s.len() {
                return Err(Error::IncompleteControlSequence);
            }
            proof {
                lemma_first_ff(s@, q as int);
            }
            p = t;
        }
    }
}

/// The control state before any command has run.
pub open spec fn empty_control() -> Control {
    Control { start: None, end: None, coordinates: false, palette: false, alpha: false, rle: None }
}

/// Runs the chain of control sequences of `raw` that starts at `ico`.
fn run_sequences_at(raw: &[u8], ico: usize, base: i64) -> (r: Result<ControlState, Error>)
    requires
        0 <= base < 0x200000000,
    ensures
        match r {
            Ok(c) => run_sequences(raw@, ico as int, base as int, empty_control()) == Ok::<
                Control,
                Error,
            >(c.view()),
            Err(e) => run_sequences(raw@, ico as int, base as int, empty_control()) == Err::<
                Control,
                Error,
            >(e),
        },
        r matches Ok(c) ==> (c.start matches Some(t) ==> 0 <= t < 0x200000000 + 65536 * 900),
        r matches Ok(c) ==> (c.end matches Some(t) ==> 0 <= t < 0x200000000 + 65536 * 900),
{
    let mut c = ControlState {
        start: None,
        end: None,
        coordinates: false,
        palette: false,
        alpha: false,
        rle: None,
    };
    let mut co = ico;
    loop
        invariant
            run_sequences(raw@, ico as int, base as int, empty_control()) == run_sequences(
                raw@,
                co as int,
                base as int,
                c.view(),
            ),
            0 <= base < 0x200000000,
            c.start matches Some(t) ==> 0 <= t < 0x200000000 + 65536 * 900,
            c.end matches Some(t) ==> 0 <= t < 0x200000000 + 65536 * 900,
        decreases raw@.len() - co,
    {
        if co >= raw.len() {
            return Err(Error::ControlOffsetOutOfBounds { offset: co, len: raw.len() });
        }
        if raw.len() - co < 4 {
            return Err(Error::IncompleteControlSequence);
        }
        let date = be_u16(raw, co) as i64;
        let next = be_u16(raw, co + 2) as usize;
        let time = base + date * 900;
        match run_commands_at(raw, co + 4, time, &mut c) {
            Err(e) => {
                return Err(e);
            },
            Ok(()) => {},
        }
        if next == co {
            return Ok(c);
        } else if next < co {
            return Err(Error::ControlOffsetWentBackwards);
        } else if next >= raw.len() {
            return Err(Error::ControlOffsetOutOfBounds { offset: next, len: raw.len() });
        }
        co = next;
    }
}

/// The start and optional end of one assembled subpicture packet.
fn parse_control(raw: &[u8], base: i64) -> (r: Result<(i64, Option<i64>), Error>)
    requires
        0 <= base < 0x200000000,
    ensures
        match r {
            Ok(t) => control_timing(raw@, base as int) == Ok::<(int, Option<int>), Error>(
                opt_view(t),
            ),
            Err(e) => control_timing(raw@, base as int) == Err::<(int, Option<int>), Error>(e),
        },
        r matches Ok(t) ==> 0 <= t.0 < 0x300000000 && (t.1 matches Some(e) ==> 0 <= e
            < 0x300000000),
{
    reveal(control_timing);
    if raw.len() < 4 {
        return Err(Error::UnexpectedEndOfSubtitleData);
    }
    let ico = be_u16(raw, 2) as usize;
    let c = match run_sequences_at(raw, ico, base) {
        Err(e) => {
            return Err(e);
        },
        Ok(c) => c,
    };
    let start = match c.start {
        None => {
            return Err(Error::MissingStartTime);
        },
        Some(t) => t,
    };
    if !c.coordinates {
        return Err(Error::MissingCoordinates);
    }
    if !c.palette {
        return Err(Error::MissingPalette);
    }
    if !c.alpha {
        return Err(Error::MissingAlpha);
    }
    let rle = match c.rle {
        None => {
            return Err(Error::MissingRleOffsets);
        },
        Some(r) => r,
    };
    let start_0 = rle.0 as usize;
    let start_1 = rle.1 as usize;
    let end = ico + 2;
    if start_0 > start_1 || start_1 > end || end > raw.len() {
        return Err(Error::InvalidScanLineOffsets);
    }
    Ok((start, c.end))
}

/// Appends `s[lo..hi]` to `buf`.
fn extend_bytes(buf: &mut Vec<u8>, s: &[u8], lo: usize, hi: usize)
    requires
        lo <= hi <= s@.len(),
    ensures
        final(buf)@ == old(buf)@ + s@.subrange(lo as int, hi as int),
{
    let mut i = lo;
    while i < hi
        invariant
            lo <= i <= hi,
            hi <= s@.len(),
            buf@ == old(buf)@ + s@.subrange(lo as int, i as int),
        decreases hi - i,
    {
        buf.push(s[i]);
        assert(old(buf)@ + s@.subrange(lo as int, i as int).push(s@[i as int]) =~= old(buf)@
            + s@.subrange(lo as int, i + 1));
        i = i + 1;
    }
}

enum GatherOutcome {
    Done(usize),
    End,
    Fail,
}

/// Appends the payloads of substream `sid` from `pos` on to `buf` until it holds `wanted` bytes.
fn gather_at(s: &[u8], pos: usize, sid: u8, buf: &mut Vec<u8>, wanted: usize) -> (r: GatherOutcome)
    requires
        pos <= s@.len(),
    ensures
        match r {
            GatherOutcome::Done(p) => gather(s@, pos as int, sid, old(buf)@, wanted as int)
                == Gather::Done(final(buf)@, p as int) && pos <= p <= s@.len(),
            GatherOutcome::End => gather(s@, pos as int, sid, old(buf)@, wanted as int) is End,
            GatherOutcome::Fail => gather(s@, pos as int, sid, old(buf)@, wanted as int) is Fail,
        },
{
    let mut gpos = pos;
    while buf.len() < wanted
        invariant
            gather(s@, gpos as int, sid, buf@, wanted as int) == gather(
                s@,
                pos as int,
                sid,
                old(buf)@,
                wanted as int,
            ),
            pos <= gpos <= s@.len(),
        decreases s@.len() - gpos,
    {
        proof {
            reveal(gather);
            lemma_next_payload(s@, gpos as int);
        }
        match next_payload_at(s, gpos) {
            NextOutcome::End => {
                return GatherOutcome::End;
            },
            NextOutcome::Fail => {
                return GatherOutcome::Fail;
            },
            NextOutcome::Item(next, next_after) => {
                if next.substream_id == sid {
                    extend_bytes(buf, s, next.lo, next.hi);
                }
                gpos = next_after;
            },
        }
    }
    buf.truncate(wanted);
    proof {
        reveal(gather);
    }
    assert(buf@ =~= buf@.take(wanted as int));
    GatherOutcome::Done(gpos)
}

/// How a subpicture ends when its control sequences gave it no stop date.
fn fixed_end_at(raw: &Vec<(i64, Option<i64>)>, i: usize) -> (r: i64)
    requires
        i < raw@.len(),
        forall|j: int| 0 <= j < raw@.len() ==> 0 <= #[trigger] raw@[j].0 < 0x300000000,
        forall|j: int|
            0 <= j < raw@.len() ==> ((#[trigger] raw@[j]).1 matches Some(e) ==> 0 <= e < 0x300000000),
    ensures
        r == fixed_end(raw@.map_values(|t: (i64, Option<i64>)| opt_view(t)), i as int),
{
    let start = raw[i].0;
    match raw[i].1 {
        Some(end) => end,
        None => {
            if i < raw.len() - 1 {
                let a = raw[i + 1].0 - DEFAULT_SUBTITLE_SPACING;
                let b = start + DEFAULT_SUBTITLE_LENGTH;
                if a <= b {
                    a
                } else {
                    b
                }
            } else {
                start + DEFAULT_SUBTITLE_LENGTH
            }
        },
    }
}

/// A start and optional end in ticks, as integers.
pub open spec fn opt_view(t: (i64, Option<i64>)) -> (int, Option<int>) {
    (
        t.0 as int,
        match t.1 {
            Some(e) => Some(e as int),
            None => None,
        },
    )
}

/// Extracts every subpicture timing from a `.sub` byte stream.
pub fn timings(input: &[u8]) -> (r: Result<Vec<VobSubTiming>, Error>)
    ensures
        match r {
            Ok(v) => spec_timings(input@) == Ok::<Seq<VobSubTiming>, Error>(v@),
            Err(e) => spec_timings(input@) == Err::<Seq<VobSubTiming>, Error>(e),
        },
{
    match collect_raw(input) {
        Err(e) => Err(e),
        Ok(raw) => Ok(fixup(&raw)),
    }
}

/// Start and optional end of every subpicture, before the end-time rule.
#[verifier::rlimit(50)]
fn collect_raw(s: &[u8]) -> (r: Result<Vec<(i64, Option<i64>)>, Error>)
    ensures
        match r {
            Ok(v) => raw_timings(s@, 0) == Ok::<Seq<(int, Option<int>)>, Error>(
                v@.map_values(|t: (i64, Option<i64>)| opt_view(t)),
            ),
            Err(e) => raw_timings(s@, 0) == Err::<Seq<(int, Option<int>)>, Error>(e),
        },
        r matches Ok(v) ==> forall|j: int| 0 <= j < v@.len() ==> 0 <= #[trigger] v@[j].0 < 0x300000000,
        r matches Ok(v) ==> forall|j: int|
            0 <= j < v@.len() ==> ((#[trigger] v@[j]).1 matches Some(e) ==> 0 <= e < 0x300000000),
{
    let mut raw: Vec<(i64, Option<i64>)> = Vec::new();
    let mut pos: usize = 0;
    let ghost total = raw_timings(s@, 0);
    loop
        invariant_except_break
            pos <= s@.len(),
            total == match raw_timings(s@, pos as int) {
                Err(e) => Err(e),
                Ok(rest) => Ok(raw@.map_values(|t: (i64, Option<i64>)| opt_view(t)) + rest),
            },
        invariant
            total == raw_timings(s@, 0),
            forall|j: int| 0 <= j < raw@.len() ==> 0 <= #[trigger] raw@[j].0 < 0x300000000,
            forall|j: int|
                0 <= j < raw@.len() ==> ((#[trigger] raw@[j]).1 matches Some(e) ==> 0 <= e
                    < 0x300000000),
        ensures
            total == Ok::<Seq<(int, Option<int>)>, Error>(
                raw@.map_values(|t: (i64, Option<i64>)| opt_view(t)),
            ),
        decreases s@.len() - pos,
    {
        let ghost acc = raw@.map_values(|t: (i64, Option<i64>)| opt_view(t));
        proof {
            lemma_next_payload(s@, pos as int);
        }
        let (first, after) = match next_payload_at(s, pos) {
            NextOutcome::End => {
                assert(acc + Seq::empty() =~= acc);
                break;
            },
            NextOutcome::Fail => {
                return Err(Error::IncompletePesPacket);
            },
            NextOutcome::Item(first, after) => (first, after),
        };
        let base = match first.pts {
            None => {
                return Err(Error::SubtitleWithoutTiming);
            },
            Some(t) => t,
        };
        if first.hi - first.lo < 2 {
            return Err(Error::PacketTooShort);
        }
        let wanted = be_u16(s, first.lo) as usize;
        let mut buf: Vec<u8> = Vec::new();
        extend_bytes(&mut buf, s, first.lo, first.hi);
        assert(buf@ =~= s@.subrange(first.lo as int, first.hi as int));
        // A subpicture may be split over several PES packets.
        let next = match gather_at(s, after, first.substream_id, &mut buf, wanted) {
            GatherOutcome::End => {
                // the stream ends inside this subpicture: it is dropped
                assert(acc + Seq::empty() =~= acc);
                break;
            },
            GatherOutcome::Fail => {
                return Err(Error::IncompletePesPacket);
            },
            GatherOutcome::Done(next) => next,
        };
        match parse_control(buf.as_slice(), base as i64) {
            Err(e) => {
                return Err(e);
            },
            Ok(t) => {
                raw.push(t);
                proof {
                    let v2 = raw@.map_values(|t: (i64, Option<i64>)| opt_view(t));
                    assert(v2 =~= acc.push(opt_view(t)));
                    match raw_timings(s@, next as int) {
                        Err(e) => {},
                        Ok(rest) => {
                            assert(acc + (seq![opt_view(t)] + rest) =~= v2 + rest);
                        },
                    }
                }
                pos = next;
            },
        }
    }
    Ok(raw)
}

/// The timings, once every subpicture has been read: the end-time rule is applied.
fn fixup(raw: &Vec<(i64, Option<i64>)>) -> (out: Vec<VobSubTiming>)
    requires
        forall|j: int| 0 <= j < raw@.len() ==> 0 <= #[trigger] raw@[j].0 < 0x300000000,
        forall|j: int|
            0 <= j < raw@.len() ==> ((#[trigger] raw@[j]).1 matches Some(e) ==> 0 <= e < 0x300000000),
    ensures
        ({
            let v = raw@.map_values(|t: (i64, Option<i64>)| opt_view(t));
            out@ == Seq::new(
                v.len(),
                |i: int| VobSubTiming { start: v[i].0 as i64, end: fixed_end(v, i) as i64 },
            )
        }),
{
    let ghost v = raw@.map_values(|t: (i64, Option<i64>)| opt_view(t));
    let mut out: Vec<VobSubTiming> = Vec::new();
    let mut i: usize = 0;
    while i < raw.len()
        invariant
            i <= raw@.len(),
            v == raw@.map_values(|t: (i64, Option<i64>)| opt_view(t)),
            forall|j: int| 0 <= j < raw@.len() ==> 0 <= #[trigger] raw@[j].0 < 0x300000000,
            forall|j: int|
                0 <= j < raw@.len() ==> ((#[trigger] raw@[j]).1 matches Some(e) ==> 0 <= e
                    < 0x300000000),
            out@ == Seq::new(
                i as nat,
                |k: int| VobSubTiming { start: v[k].0 as i64, end: fixed_end(v, k) as i64 },
            ),
        decreases raw@.len() - i,
    {
        let end = fixed_end_at(raw, i);
        out.push(VobSubTiming { start: raw[i].0, end });
        proof {
            assert(out@ =~= Seq::new(
                (i + 1) as nat,
                |k: int| VobSubTiming { start: v[k].0 as i64, end: fixed_end(v, k) as i64 },
            ));
        }
        i = i + 1;
    }
    out
}

// ---------------------------------------------------------------------------------------------
// bytes after the end of a stream

/// Every pack start code that reaches past the first `n` bytes of `s` starts a pack that does not
/// parse, so reading resynchronises past it.
pub open spec fn inert_tail(s: Seq<u8>, n: int) -> bool {
    forall|p: int| #[trigger] is_pack_start(s, p) && p + 4 > n ==> parse_pack(s, p) is Resync
}

/// The first pack start code in `d` is the first one in `d` with more bytes after it.
proof fn lemma_find_pack_ext(d: Seq<u8>, g: Seq<u8>, from: int)
    requires
        0 <= from,
    ensures
        find_pack(d, from) matches Some(p) ==> find_pack(d + g, from) == Some(p),
        find_pack(d, from) is None ==> (find_pack(d + g, from) matches Some(q) ==> q + 4 > d.len()),
    decreases d.len() + g.len() - from,
{
    let s = d + g;
    lemma_find_pack(d, from);
    lemma_find_pack(s, from);
    if from + 4 <= d.len() {
        assert(is_pack_start(s, from) == is_pack_start(d, from)) by {
            assert(s[from] == d[from] && s[from + 1] == d[from + 1] && s[from + 2] == d[from + 2]
                && s[from + 3] == d[from + 3]);
        }
        if !is_pack_start(d, from) {
            lemma_find_pack_ext(d, g, from + 1);
        }
    } else if from + 4 <= s.len() && !is_pack_start(s, from) {
        lemma_find_pack_ext(d, g, from + 1);
    }
}

/// A pack that parses in `d`, or is skipped there, parses the same with more bytes after it.
proof fn lemma_parse_pack_ext(d: Seq<u8>, g: Seq<u8>, p: int)
    requires
        is_pack_start(d, p),
        !(parse_pack(d, p) is Truncated),
    ensures
        parse_pack(d + g, p) == parse_pack(d, p),
{
    let s = d + g;
    assert forall|i: int| 0 <= i < d.len() implies #[trigger] s[i] == d[i] by {}
    assert(header_state(s, p) == header_state(d, p));
    if header_state(d, p) == Some(true) {
        let stuffing = (d[p + 13] % 8) as int;
        let r = p + 14 + stuffing;
        if r <= d.len() {
            if !pes_prefix_ok(d, r) {
                let i = choose|i: int| 0 <= i < 4 && r + i < d.len() && d[r + i] != #[trigger] pes1(i);
                assert(s[r + i] != pes1(i));
                assert(!pes_prefix_ok(s, r));
            } else {
                assert(r + 6 <= d.len());
                assert(pes_prefix_ok(s, r)) by {
                    assert forall|i: int| 0 <= i < 4 && r + i < s.len() implies s[r + i] == #[trigger] pes1(i) by {
                        assert(r + i < d.len());
                    }
                }
                let pes_len = be16(d[r + 4], d[r + 5]);
                assert(r + 6 + pes_len <= d.len());
                assert(parse_body(s, r + 6, r + 6 + pes_len) == parse_body(d, r + 6, r + 6 + pes_len));
            }
        }
    }
}

/// Past the last pack start code of `d`, an inert tail ends the reading.
proof fn lemma_tail_end(d: Seq<u8>, g: Seq<u8>, pos: int)
    requires
        0 <= pos,
        inert_tail(d + g, d.len() as int),
        find_pack(d, pos) is None,
    ensures
        next_payload(d + g, pos) is End,
    decreases d.len() + g.len() - pos,
{
    let s = d + g;
    reveal(next_payload);
    lemma_find_pack_ext(d, g, pos);
    lemma_find_pack(s, pos);
    if let Some(q) = find_pack(s, pos) {
        assert(parse_pack(s, q) is Resync);
        assert(find_pack(d, q + 4) is None) by {
            lemma_find_pack(d, q + 4);
            if let Some(x) = find_pack(d, q + 4) {
                lemma_find_pack_none(d, pos, x);
            }
        }
        lemma_tail_end(d, g, q + 4);
    }
}

/// No pack start code of `d` comes at or after `from` when none is found there.
proof fn lemma_find_pack_none(d: Seq<u8>, from: int, x: int)
    requires
        0 <= from <= x,
        find_pack(d, from) is None,
    ensures
        !is_pack_start(d, x),
    decreases x - from,
{
    if x > from && from + 4 <= d.len() {
        assert(!is_pack_start(d, from));
        lemma_find_pack_none(d, from + 1, x);
    }
}

/// Reading the next payload from `pos` gives the same with an inert tail, unless the stream was
/// found truncated.
proof fn lemma_next_payload_ext(d: Seq<u8>, g: Seq<u8>, pos: int)
    requires
        0 <= pos,
        inert_tail(d + g, d.len() as int),
        !(next_payload(d, pos) is Fail),
    ensures
        next_payload(d + g, pos) == next_payload(d, pos),
    decreases d.len() + g.len() - pos,
{
    let s = d + g;
    reveal(next_payload);
    lemma_find_pack_ext(d, g, pos);
    lemma_find_pack(d, pos);
    match find_pack(d, pos) {
        None => {
            lemma_tail_end(d, g, pos);
        },
        Some(p) => {
            lemma_parse_pack_ext(d, g, p);
            if parse_pack(d, p) is Resync {
                lemma_next_payload_ext(d, g, p + 4);
            }
        },
    }
}

/// Gathering a subpicture gives the same with an inert tail, unless the stream was found
/// truncated; reading goes on inside `d`.
proof fn lemma_gather_ext(d: Seq<u8>, g: Seq<u8>, pos: int, sid: u8, buf: Seq<u8>, wanted: int)
    requires
        0 <= pos <= d.len(),
        inert_tail(d + g, d.len() as int),
        !(gather(d, pos, sid, buf, wanted) is Fail),
    ensures
        gather(d + g, pos, sid, buf, wanted) == gather(d, pos, sid, buf, wanted),
        gather(d, pos, sid, buf, wanted) matches Gather::Done(_, next) ==> next <= d.len(),
    decreases d.len() - pos,
{
    let s = d + g;
    reveal(gather);
    if buf.len() < wanted {
        lemma_next_payload_ext(d, g, pos);
        lemma_next_payload(d, pos);
        if let Next::Item(p, after) = next_payload(d, pos) {
            assert(s.subrange(p.lo, p.hi) =~= d.subrange(p.lo, p.hi));
            if after > pos {
                if p.substream != sid {
                    lemma_gather_ext(d, g, after, sid, buf, wanted);
                } else {
                    lemma_gather_ext(d, g, after, sid, buf + d.subrange(p.lo, p.hi), wanted);
                }
            }
        }
    }
}

/// The subpictures from `pos` on are the same with an inert tail, when `d` reads without error.
proof fn lemma_raw_timings_ext(d: Seq<u8>, g: Seq<u8>, pos: int)
    requires
        0 <= pos <= d.len(),
        inert_tail(d + g, d.len() as int),
        raw_timings(d, pos) is Ok,
    ensures
        raw_timings(d + g, pos) == raw_timings(d, pos),
    decreases d.len() - pos,
{
    let s = d + g;
    lemma_next_payload_ext(d, g, pos);
    lemma_next_payload(d, pos);
    if let Next::Item(first, after) = next_payload(d, pos) {
        if first.pts is Some && first.hi - first.lo >= 2 && after > pos {
            assert(s[first.lo] == d[first.lo] && s[first.lo + 1] == d[first.lo + 1]);
            assert(s.subrange(first.lo, first.hi) =~= d.subrange(first.lo, first.hi));
            let wanted = be16(d[first.lo], d[first.lo + 1]);
            lemma_gather_ext(d, g, after, first.substream, d.subrange(first.lo, first.hi), wanted);
            if let Gather::Done(buf, next) = gather(d, after, first.substream, d.subrange(first.lo, first.hi), wanted) {
                if control_timing(buf, first.pts->Some_0) is Ok && next > pos {
                    lemma_raw_timings_ext(d, g, next);
                }
            }
        }
    }
}

/// Bytes after the end of a stream that reads without error never change its subtitles, when
/// every pack start code that they complete starts a pack that does not parse.
pub proof fn law_trailing_bytes(d: Seq<u8>, g: Seq<u8>)
    requires
        spec_timings(d) is Ok,
        inert_tail(d + g, d.len() as int),
    ensures
        spec_timings(d + g) == spec_timings(d),
{
    lemma_raw_timings_ext(d, g, 0);
}

/// Four bytes of garbage, or a pack start code followed by a version byte that is not MPEG-2, are
/// such bytes after any stream.
pub proof fn lemma_inert_tails(d: Seq<u8>)
    ensures
        inert_tail(d + seq![0xaau8, 0xbbu8, 0xccu8], d.len() as int),
        inert_tail(d + seq![0x00u8, 0x00u8, 0x01u8, 0xbau8, 0xcfu8], d.len() as int),
{
    let n = d.len() as int;
    let s1 = d + seq![0xaau8, 0xbbu8, 0xccu8];
    assert forall|p: int| #[trigger] is_pack_start(s1, p) && p + 4 > n implies parse_pack(s1, p) is Resync by {
        assert(p <= n);
        assert(s1[n] == 0xaa);
    }
    let s2 = d + seq![0x00u8, 0x00u8, 0x01u8, 0xbau8, 0xcfu8];
    assert forall|p: int| #[trigger] is_pack_start(s2, p) && p + 4 > n implies parse_pack(s2, p) is Resync by {
        assert(s2[n] == 0 && s2[n + 1] == 0 && s2[n + 2] == 1 && s2[n + 3] == 0xba && s2[n + 4] == 0xcf);
        assert(p == n);
        assert(header_state(s2, p) == Some(false));
    }
}

/// Trailing garbage, even after a pack start code whose version byte is not MPEG-2, never
/// discards the subtitles already read.
pub proof fn law_trailing_garbage(d: Seq<u8>)
    requires
        spec_timings(d) is Ok,
    ensures
        spec_timings(d + seq![0xaau8, 0xbbu8, 0xccu8]) == spec_timings(d),
        spec_timings(d + seq![0x00u8, 0x00u8, 0x01u8, 0xbau8, 0xcfu8]) == spec_timings(d),
{
    lemma_inert_tails(d);
    law_trailing_bytes(d, seq![0xaau8, 0xbbu8, 0xccu8]);
    law_trailing_bytes(d, seq![0x00u8, 0x00u8, 0x01u8, 0xbau8, 0xcfu8]);
}

/// The data of the payloads of substream `sid` that reading from `pos` meets before it gets
/// past `stop`, one after the other; payloads of other substreams add nothing.
pub open spec fn substream_bytes(s: Seq<u8>, pos: int, stop: int, sid: u8) -> Seq<u8>
    decreases s.len() - pos,
{
    if pos >= stop {
        Seq::empty()
    } else {
        match next_payload(s, pos) {
            Next::Item(p, after) => if after <= pos || after > stop || after > s.len() {
                Seq::empty()
            } else {
                (if p.substream == sid {
                    s.subrange(p.lo, p.hi)
                } else {
                    Seq::<u8>::empty()
                }) + substream_bytes(s, after, stop, sid)
            },
            _ => Seq::empty(),
        }
    }
}

/// A split subpicture is put together from the payloads of its own substream alone: what
/// gathering gives is what it started with followed by the data of every payload of that
/// substream up to where it stopped, cut to the size wanted.
pub proof fn law_gather_own_substream(s: Seq<u8>, pos: int, sid: u8, buf: Seq<u8>, wanted: int)
    requires
        0 <= pos,
        0 <= wanted,
    ensures
        gather(s, pos, sid, buf, wanted) matches Gather::Done(out, next) ==> pos <= next && out == (buf
            + substream_bytes(s, pos, next, sid)).take(wanted),
    decreases s.len() - pos,
{
    reveal(gather);
    if buf.len() < wanted {
        lemma_next_payload(s, pos);
        if let Next::Item(p, after) = next_payload(s, pos) {
            if after > pos && after <= s.len() {
                let own = if p.substream == sid {
                    s.subrange(p.lo, p.hi)
                } else {
                    Seq::<u8>::empty()
                };
                law_gather_own_substream(s, after, sid, buf + own, wanted);
                if p.substream != sid {
                    assert(buf + own =~= buf);
                }
                if let Gather::Done(out, next) = gather(s, after, sid, buf + own, wanted) {
                    assert(substream_bytes(s, pos, next, sid) == own + substream_bytes(s, after, next, sid));
                    assert(buf + own + substream_bytes(s, after, next, sid) =~= buf + substream_bytes(
                        s,
                        pos,
                        next,
                        sid,
                    ));
                }
            }
        }
    } else {
        assert(buf + substream_bytes(s, pos, pos, sid) =~= buf);
    }
}

} // verus!
