//! Receiving decoded audio and reporting progress.

use crate::cli::errors::InputVideoError;
use vstd::prelude::*;
use webrtc_vad::{SampleRate, Vad};

verus! {

/// Receives the audio samples that a decoder reads out of a video file.
pub trait AudioReceiver: Sized {
    type Output;
    type Error;

    /// The chunks of samples that the receiver took in, in order. A receiver of this library
    /// states its own record; the empty default fits only a receiver that never takes a chunk.
    open spec fn received(&self) -> Seq<Seq<i16>> {
        Seq::empty()
    }

    /// What finishing the receiver may give. The default says nothing of it.
    open spec fn finished(self, r: Result<Self::Output, Self::Error>) -> bool {
        true
    }

    /// Samples are in 8000Hz mono/single-channel format. A chunk that is taken joins the
    /// record.
    fn push_samples(&mut self, samples: &[i16]) -> (r: Result<(), Self::Error>)
        ensures
            r is Ok ==> final(self).received() == old(self).received().push(samples@),
    ;

    /// Ends the stream and hands out the result.
    fn finish(self) -> (r: Result<Self::Output, Self::Error>)
        ensures
            self.finished(r),
    ;
}

/// The chunks, one after the other.
pub open spec fn joined(chunks: Seq<Seq<i16>>) -> Seq<i16>
    decreases chunks.len(),
{
    if chunks.len() == 0 {
        Seq::empty()
    } else {
        joined(chunks.drop_last()) + chunks.last()
    }
}

/// Hands the samples on in chunks of one fixed size, because the voice activity detector only
/// accepts exactly 10ms of audio at a time.
pub struct ChunkedAudioReceiver<R: AudioReceiver> {
    buffer: Vec<i16>,
    filled: usize,
    next: R,
    /// The chunks handed on so far.
    sent: Ghost<Seq<Seq<i16>>>,
    /// The samples taken in so far.
    pushed: Ghost<Seq<Seq<i16>>>,
    /// What the next receiver had taken in before this one was made.
    base: Ghost<Seq<Seq<i16>>>,
}

impl<R: AudioReceiver> ChunkedAudioReceiver<R> {
    /// The chunk is not empty and not full: what `new` makes and every push keeps.
    pub closed spec fn wf(self) -> bool {
        &&& self.buffer@.len() > 0
        &&& self.filled < self.buffer@.len()
    }

    /// The size of the chunks.
    pub closed spec fn size(self) -> nat {
        self.buffer@.len()
    }

    /// The samples that wait for their chunk to fill up.
    pub closed spec fn pending(self) -> Seq<i16> {
        self.buffer@.take(self.filled as int)
    }

    /// The chunks handed on so far.
    pub closed spec fn sent(self) -> Seq<Seq<i16>> {
        self.sent@
    }

    /// The receiver that the chunks go to.
    pub closed spec fn next(self) -> R {
        self.next
    }

    /// What the next receiver had taken in before this one was made.
    pub closed spec fn base(self) -> Seq<Seq<i16>> {
        self.base@
    }

    /// Every push so far was taken: the chunks handed on are full, they and the samples that
    /// wait are exactly what was pushed, and the next receiver took each chunk in turn.
    pub open spec fn intact(self) -> bool {
        &&& self.wf()
        &&& forall|k: int| 0 <= k < self.sent().len() ==> (#[trigger] self.sent()[k]).len() == self.size()
        &&& joined(self.sent()) + self.pending() == joined(self.received())
        &&& self.next().received() == self.base() + self.sent()
    }

    /// A receiver that hands chunks of `size` samples on to `next`.
    pub fn new(size: usize, next: R) -> (r: ChunkedAudioReceiver<R>)
        requires
            size > 0,
        ensures
            r.wf(),
            r.size() == size,
            r.pending() == Seq::<i16>::empty(),
            r.sent() == Seq::<Seq<i16>>::empty(),
            r.received() == Seq::<Seq<i16>>::empty(),
            r.next() == next,
            r.base() == next.received(),
            r.intact(),
    {
        let mut buffer: Vec<i16> = Vec::new();
        let mut i: usize = 0;
        while i < size
            invariant
                i <= size,
                buffer@.len() == i,
            decreases size - i,
        {
            buffer.push(0);
            i = i + 1;
        }
        let r = ChunkedAudioReceiver {
            buffer,
            filled: 0,
            next,
            sent: Ghost(Seq::empty()),
            pushed: Ghost(Seq::empty()),
            base: Ghost(next.received()),
        };
        assert(r.buffer@.take(0) =~= Seq::<i16>::empty());
        assert(r.base@ + r.sent@ =~= r.base@);
        r
    }

    /// Fills the chunk and hands every full one on. When the next receiver fails, its error is
    /// returned and the rest of the samples is dropped. Samples that fill no chunk go nowhere
    /// else, so pushing them cannot fail.
    pub fn push_chunked(&mut self, samples: &[i16]) -> (r: Result<(), R::Error>)
        requires
            old(self).wf(),
        ensures
            final(self).wf(),
            final(self).size() == old(self).size(),
            final(self).base() == old(self).base(),
            final(self).sent().take(old(self).sent().len() as int) == old(self).sent(),
            final(self).sent().len() >= old(self).sent().len(),
            forall|k: int|
                old(self).sent().len() <= k < final(self).sent().len() ==> (#[trigger] final(self).sent()[k]).len()
                    == old(self).size(),
            (joined(final(self).sent()) + final(self).pending()).is_prefix_of(
                joined(old(self).sent()) + old(self).pending() + samples@,
            ),
            r is Ok ==> joined(final(self).sent()) + final(self).pending() == joined(old(self).sent())
                + old(self).pending() + samples@,
            r is Ok ==> final(self).next().received() == old(self).next().received() + final(self).sent().skip(
                old(self).sent().len() as int,
            ),
            r is Ok ==> final(self).received() == old(self).received().push(samples@),
            r is Err ==> final(self).sent().len() > old(self).sent().len() && final(self).pending().len()
                == 0,
            old(self).pending().len() + samples@.len() < old(self).size() ==> r is Ok && final(self).sent()
                == old(self).sent() && final(self).pending() == old(self).pending() + samples@
                && final(self).next() == old(self).next(),
    {
        let ghost old_sent = self.sent@;
        let ghost old_filled = self.filled;
        let ghost all = joined(self.sent@) + self.buffer@.take(self.filled as int) + samples@;
        let size = self.buffer.len();
        let mut pos: usize = 0;
        while pos < samples.len()
            invariant
                pos <= samples@.len(),
                size == old(self).buffer@.len(),
                old_sent == old(self).sent@,
                old_filled == old(self).filled,
                old_filled < size,
                self.pushed@ == old(self).pushed@,
                self.base@ == old(self).base@,
                self.buffer@.len() == size,
                size > 0,
                self.filled < size,
                self.sent@.take(old_sent.len() as int) == old_sent,
                old_sent.len() <= self.sent@.len(),
                forall|k: int|
                    old_sent.len() <= k < self.sent@.len() ==> (#[trigger] self.sent@[k]).len() == size,
                all == joined(old_sent) + old(self).buffer@.take(old_filled as int) + samples@,
                all == joined(self.sent@) + self.buffer@.take(self.filled as int) + samples@.skip(
                    pos as int,
                ),
                self.next.received() == old(self).next.received() + self.sent@.skip(
                    old_sent.len() as int,
                ),
                old_filled + samples@.len() < size ==> self.sent@ == old_sent && self.filled
                    == old_filled + pos && self.next == old(self).next,
            decreases samples@.len() - pos,
        {
            let room = self.buffer.len() - self.filled;
            let count = if room < samples.len() - pos {
                room
            } else {
                samples.len() - pos
            };
            let ghost before = self.buffer@.take(self.filled as int);
            let ghost sent_before = self.sent@;
            let ghost filled_before = self.filled;
            let ghost next_before_fill = self.next;
            let mut k: usize = 0;
            while k < count
                invariant
                    k <= count,
                    count <= room,
                    room == size - self.filled,
                    self.sent@ == sent_before,
                    self.filled == filled_before,
                    self.pushed@ == old(self).pushed@,
                    self.base@ == old(self).base@,
                    self.next == next_before_fill,
                    pos + count <= samples.len(),
                    self.buffer@.len() == size,
                    self.filled < size,
                    self.buffer@.take(self.filled as int) == before,
                    self.buffer@.subrange(self.filled as int, self.filled + k) == samples@.subrange(
                        pos as int,
                        pos + k,
                    ),
                decreases count - k,
            {
                self.buffer.set(self.filled + k, samples[pos + k]);
                assert(self.buffer@.subrange(self.filled as int, self.filled + k + 1) =~= samples@.subrange(
                    pos as int,
                    pos + k + 1,
                ));
                assert(self.buffer@.take(self.filled as int) =~= before);
                k = k + 1;
            }
            assert(self.buffer@.take(self.filled + count) =~= before + samples@.subrange(
                pos as int,
                pos + count,
            ));
            assert(samples@.skip(pos as int) =~= samples@.subrange(pos as int, pos + count)
                + samples@.skip(pos + count));
            let ghost pos_before = pos;
            pos = pos + count;
            if self.filled + count == self.buffer.len() {
                assert(old_filled + samples@.len() >= size) by {
                    if old_filled + samples@.len() < size {
                        assert(self.filled == old_filled + pos_before);
                        assert(count <= samples@.len() - pos_before);
                    }
                }
                let ghost chunk = self.buffer@;
                let ghost next_before = self.next.received();
                assert(self.buffer@.take(self.filled + count) =~= chunk);
                let res = self.next.push_samples(self.buffer.as_slice());
                self.filled = 0;
                proof {
                    let s2 = self.sent@.push(chunk);
                    assert(s2.drop_last() =~= self.sent@);
                    assert(s2.take(old_sent.len() as int) =~= self.sent@.take(old_sent.len() as int));
                    assert(s2.skip(old_sent.len() as int) =~= self.sent@.skip(old_sent.len() as int).push(
                        chunk,
                    ));
                    self.sent@ = s2;
                    assert(self.buffer@.take(0) =~= Seq::<i16>::empty());
                }
                match res {
                    Err(e) => {
                        proof {
                            let done = joined(self.sent@);
                            assert(all == done + samples@.skip(pos as int));
                            assert(done + self.buffer@.take(0) =~= done);
                            assert(done =~= all.subrange(0, done.len() as int));
                            assert(old(self).pending().len() == old_filled);
                        }
                        return Err(e);
                    },
                    Ok(()) => {},
                }
            } else {
                self.filled = self.filled + count;
            }
        }
        assert(samples@.skip(pos as int) =~= Seq::<i16>::empty());
        proof {
            let now = joined(self.sent@) + self.buffer@.take(self.filled as int);
            assert(now =~= all);
            assert(now =~= all.subrange(0, now.len() as int));
            if old_filled + samples@.len() < size {
                let head = joined(old_sent);
                assert(head + self.buffer@.take(self.filled as int) =~= head + (old(self).buffer@.take(
                    old_filled as int,
                ) + samples@));
                assert(self.buffer@.take(self.filled as int) =~= (head + self.buffer@.take(
                    self.filled as int,
                )).skip(head.len() as int));
                assert((head + (old(self).buffer@.take(old_filled as int) + samples@)).skip(
                    head.len() as int,
                ) =~= old(self).buffer@.take(old_filled as int) + samples@);
            }
        }
        self.pushed = Ghost(self.pushed@.push(samples@));
        Ok(())
    }
}

impl<R: AudioReceiver> AudioReceiver for ChunkedAudioReceiver<R> {
    type Output = R::Output;
    type Error = R::Error;

    /// The samples taken in so far, one push after the other.
    closed spec fn received(&self) -> Seq<Seq<i16>> {
        self.pushed@
    }

    /// What the next receiver gives when it is finished.
    closed spec fn finished(self, r: Result<R::Output, R::Error>) -> bool {
        self.next.finished(r)
    }

    /// Fills the chunk and hands every full one on (see `push_chunked`, which states the rest).
    /// The chunk is never left full, so a receiver that `new` made is always ready; for any
    /// other, nothing is handed on.
    fn push_samples(&mut self, samples: &[i16]) -> (r: Result<(), R::Error>)
        ensures
            old(self).wf() ==> final(self).wf(),
            final(self).size() == old(self).size(),
            final(self).sent().take(old(self).sent().len() as int) == old(self).sent(),
            final(self).sent().len() >= old(self).sent().len(),
            old(self).wf() ==> forall|k: int|
                old(self).sent().len() <= k < final(self).sent().len() ==> (#[trigger] final(self).sent()[k]).len()
                    == old(self).size(),
            old(self).wf() ==> (joined(final(self).sent()) + final(self).pending()).is_prefix_of(
                joined(old(self).sent()) + old(self).pending() + samples@,
            ),
            old(self).wf() && r is Ok ==> joined(final(self).sent()) + final(self).pending() == joined(
                old(self).sent(),
            ) + old(self).pending() + samples@,
            old(self).wf() && r is Ok ==> final(self).next().received() == old(self).next().received()
                + final(self).sent().skip(old(self).sent().len() as int),
            old(self).wf() && r is Err ==> final(self).sent().len() > old(self).sent().len()
                && final(self).pending().len() == 0,
            old(self).wf() && old(self).pending().len() + samples@.len() < old(self).size() ==> r is Ok
                && final(self).sent() == old(self).sent() && final(self).pending() == old(self).pending()
                + samples@ && final(self).next() == old(self).next(),
            final(self).base() == old(self).base(),
            old(self).intact() && r is Ok ==> final(self).intact(),
    {
        if self.filled >= self.buffer.len() {
            // never so: `new` makes a chunk that is not empty and every push leaves it not full
            self.pushed = Ghost(self.pushed@.push(samples@));
            return Ok(());
        }
        let r = self.push_chunked(samples);
        proof {
            if old(self).intact() && r is Ok {
                let n = old(self).sent().len() as int;
                let s1 = self.sent();
                assert(old(self).received().push(samples@).drop_last() =~= old(self).received());
                assert(s1 =~= s1.take(n) + s1.skip(n));
                assert(old(self).base() + old(self).sent() + s1.skip(n) =~= old(self).base() + s1);
                assert forall|k: int| 0 <= k < s1.len() implies (#[trigger] s1[k]).len() == self.size() by {
                    if k < n {
                        assert(s1[k] == s1.take(n)[k]);
                    }
                }
            }
        }
        r
    }

    /// Finishes the next receiver and hands out what it gives; samples that fill no whole chunk
    /// are dropped.
    fn finish(self) -> (r: Result<R::Output, R::Error>) {
        self.next.finish()
    }
}

/// Chunks of one size, one after the other, are as long as the chunks together.
pub proof fn lemma_joined_len(chunks: Seq<Seq<i16>>, n: int)
    requires
        forall|k: int| 0 <= k < chunks.len() ==> (#[trigger] chunks[k]).len() == n,
    ensures
        joined(chunks).len() == chunks.len() * n,
    decreases chunks.len(),
{
    if chunks.len() > 0 {
        let init = chunks.drop_last();
        lemma_joined_len(init, n);
        assert(chunks.len() * n == init.len() * n + n) by (nonlinear_arith)
            requires
                chunks.len() == init.len() + 1,
        ;
    }
}

/// Chunks of one size, one after the other: the `j`-th sample of chunk `k` stands at
/// `k * n + j`.
pub proof fn lemma_joined_at(chunks: Seq<Seq<i16>>, n: int, k: int, j: int)
    requires
        n > 0,
        forall|i: int| 0 <= i < chunks.len() ==> (#[trigger] chunks[i]).len() == n,
        0 <= k < chunks.len(),
        0 <= j < n,
    ensures
        k * n + j < chunks.len() * n,
        joined(chunks)[k * n + j] == chunks[k][j],
    decreases chunks.len(),
{
    let init = chunks.drop_last();
    let m = init.len() as int;
    lemma_joined_len(init, n);
    assert(chunks.len() * n == m * n + n) by (nonlinear_arith)
        requires
            chunks.len() == m + 1,
    ;
    assert(joined(chunks) == joined(init) + chunks.last());
    if k < m {
        lemma_joined_at(init, n, k, j);
        assert(init[k] == chunks[k]);
    } else {
        assert(k * n == m * n) by (nonlinear_arith)
            requires
                k == m,
        ;
    }
}

/// After pushes that were all taken, the chunks handed on are the pushed samples cut into
/// pieces of the chunk size, in order, and the next receiver took exactly them after what it
/// had before; what is held back is the rest, fewer samples than a chunk.
pub proof fn law_chunked_stream<R: AudioReceiver>(r: ChunkedAudioReceiver<R>)
    requires
        r.intact(),
    ensures
        ({
            let all = joined(r.received());
            let n = r.size() as int;
            &&& r.sent().len() == all.len() as int / n
            &&& forall|k: int|
                0 <= k < r.sent().len() ==> #[trigger] r.sent()[k] == all.subrange(k * n, (k + 1) * n)
            &&& r.pending() == all.skip(r.sent().len() * n)
            &&& r.pending().len() == all.len() as int % n
            &&& r.next().received() == r.base() + r.sent()
        }),
{
    let all = joined(r.received());
    let n = r.size() as int;
    let sent = r.sent();
    let m = sent.len() as int;
    let p = r.pending();
    lemma_joined_len(sent, n);
    assert(p.len() < n);
    assert(all.len() == m * n + p.len());
    vstd::arithmetic::div_mod::lemma_fundamental_div_mod_converse(all.len() as int, n, m, p.len() as int);
    assert forall|k: int| 0 <= k < m implies #[trigger] sent[k] == all.subrange(k * n, (k + 1) * n) by {
        assert((k + 1) * n == k * n + n) by (nonlinear_arith);
        assert((k + 1) * n <= m * n) by (nonlinear_arith)
            requires
                k < m,
                n > 0,
        ;
        assert forall|j: int| 0 <= j < n implies sent[k][j] == all.subrange(k * n, (k + 1) * n)[j] by {
            lemma_joined_at(sent, n, k, j);
            assert(all[k * n + j] == joined(sent)[k * n + j]);
        }
        assert(sent[k] =~= all.subrange(k * n, (k + 1) * n));
    }
    assert(p =~= all.skip(m * n));
}

/// `webrtc_vad::Vad`, a voice activity detector, carried through without looking inside.
#[verifier::external_type_specification]
#[verifier::external_body]
pub struct ExVad(webrtc_vad::Vad);

/// `Vad::new_with_rate` with a sample rate of 8000 Hz: a voice activity detector in its default
/// `Quality` mode.
#[verifier::external_body]
fn new_vad_8khz() -> (r: Vad) {
    Vad::new_with_rate(SampleRate::Rate8kHz)
}

/// A voice activity detector together with the sample rate that it was made for.
pub struct VoiceDetector {
    vad: Vad,
    rate: Ghost<nat>,
}

impl VoiceDetector {
    /// The sample rate that the detector was made for, in Hz.
    pub closed spec fn rate(self) -> nat {
        self.rate@
    }

    /// A detector for audio at 8000 Hz.
    pub fn new_8khz() -> (r: VoiceDetector)
        ensures
            r.rate() == 8000,
    {
        VoiceDetector { vad: new_vad_8khz(), rate: Ghost(8000) }
    }
}

/// `Vad::is_voice_segment`: whether the frame holds a voice. The detector adapts to what it has
/// heard before, so nothing is stated of the answer. It fails only for a frame length that the
/// sample rate does not allow; at 8000 Hz, 80 samples are 10 ms, which it allows.
#[verifier::external_body]
fn vad_is_voice(detector: &mut VoiceDetector, chunk: &[i16]) -> (r: Result<bool, ()>)
    requires
        chunk@.len() == 80,
    ensures
        final(detector).rate() == old(detector).rate(),
        old(detector).rate() == 8000 ==> r is Ok,
{
    detector.vad.is_voice_segment(chunk)
}

/// Runs the voice activity detector over chunks of 10 ms of 8000 Hz audio and keeps one flag for
/// each: whether it held a voice.
pub struct VoiceActivityReceiver {
    vad: VoiceDetector,
    flags: Vec<bool>,
    chunks: Ghost<Seq<Seq<i16>>>,
}

impl VoiceActivityReceiver {
    /// The flags so far, one for every chunk taken in.
    pub closed spec fn flags(self) -> Seq<bool> {
        self.flags@
    }

    /// The detector works at 8000 Hz: what `new` makes and every push keeps.
    pub closed spec fn wf(self) -> bool {
        self.vad.rate() == 8000
    }

    /// A detector that has heard nothing yet.
    pub fn new() -> (r: VoiceActivityReceiver)
        ensures
            r.wf(),
            r.flags() == Seq::<bool>::empty(),
            r.received() == Seq::<Seq<i16>>::empty(),
    {
        VoiceActivityReceiver { vad: VoiceDetector::new_8khz(), flags: Vec::new(), chunks: Ghost(Seq::empty()) }
    }
}

impl AudioReceiver for VoiceActivityReceiver {
    type Output = Vec<bool>;
    type Error = InputVideoError;

    /// The chunks taken in so far.
    closed spec fn received(&self) -> Seq<Seq<i16>> {
        self.chunks@
    }

    /// Finishing hands out the flags.
    closed spec fn finished(self, r: Result<Vec<bool>, InputVideoError>) -> bool {
        r matches Ok(v) && v@ == self.flags@
    }

    /// Takes one chunk of exactly 80 samples and adds its flag; a chunk of another length is an
    /// error and adds nothing. A receiver that `new` made takes every chunk of 80 samples.
    fn push_samples(&mut self, samples: &[i16]) -> (r: Result<(), InputVideoError>)
        ensures
            samples@.len() != 80 ==> r == Err::<(), InputVideoError>(InputVideoError::VadAnalysisFailed),
            old(self).wf() ==> final(self).wf(),
            old(self).wf() && samples@.len() == 80 ==> r is Ok,
            r is Err ==> r == Err::<(), InputVideoError>(InputVideoError::VadAnalysisFailed)
                && final(self).flags() == old(self).flags() && final(self).received() == old(self).received(),
            r is Ok ==> final(self).flags().len() == old(self).flags().len() + 1 && final(self).flags().take(
                old(self).flags().len() as int,
            ) == old(self).flags(),
    {
        if samples.len() != 80 {
            return Err(InputVideoError::VadAnalysisFailed);
        }
        let is_voice = match vad_is_voice(&mut self.vad, samples) {
            Ok(b) => b,
            Err(()) => {
                return Err(InputVideoError::VadAnalysisFailed);
            },
        };
        let ghost old_flags = self.flags@;
        self.chunks = Ghost(self.chunks@.push(samples@));
        self.flags.push(is_voice);
        assert(self.flags@.take(old_flags.len() as int) =~= old_flags);
        Ok(())
    }

    /// Hands out the flags, one for every chunk, in order.
    fn finish(self) -> (r: Result<Vec<bool>, InputVideoError>)
        ensures
            r matches Ok(v) && v@ == self.flags(),
    {
        Ok(self.flags)
    }
}

/// Reports the progress of a long operation.
pub trait ProgressHandler {
    /// Will be called one time before `inc()` is called. `steps` is the number of times
    /// `inc()` will be called; it can be zero.
    fn init(&mut self, steps: i64) {
    }

    /// We made (small) progress!
    fn inc(&mut self) {
    }

    /// Will be called after the last `inc()`, when `inc()` was called `steps` times.
    fn finish(&mut self) {
    }
}

/// Does not report progress at all.
#[derive(Debug)]
pub struct NoProgressInfo;

impl ProgressHandler for NoProgressInfo {

}

/// Counts progress steps and tells when a progress bar with `prescaler` steps per tick should
/// advance.
#[derive(Debug)]
pub struct ProgressCounter {
    prescaler: i64,
    counter: i64,
}

impl ProgressCounter {
    #[verifier::type_invariant]
    spec fn inv(self) -> bool {
        0 <= self.counter < self.prescaler
    }

    /// Steps per tick of the bar.
    pub closed spec fn prescaler(self) -> int {
        self.prescaler as int
    }

    /// Steps since the last tick.
    pub closed spec fn counter(self) -> int {
        self.counter as int
    }

    /// A counter that ticks every `prescaler` steps.
    pub fn new(prescaler: i64) -> (r: ProgressCounter)
        requires
            prescaler > 0,
        ensures
            r.prescaler() == prescaler,
            r.counter() == 0,
    {
        ProgressCounter { prescaler, counter: 0 }
    }

    /// The number of ticks of the bar for `steps` steps.
    pub fn bar_length(&self, steps: i64) -> (r: u64)
        ensures
            steps >= 0 ==> r == (steps as int) / self.prescaler(),
            steps < 0 ==> r == 0,
    {
        proof {
            use_type_invariant(self);
        }
        if steps < 0 {
            0
        } else {
            (steps / self.prescaler) as u64
        }
    }

    /// One more step: whether the bar advances by one tick.
    pub fn inc(&mut self) -> (advance: bool)
        ensures
            final(self).prescaler() == old(self).prescaler(),
            advance == (old(self).counter() + 1 == old(self).prescaler()),
            final(self).counter() == (if advance {
                0
            } else {
                old(self).counter() + 1
            }),
    {
        proof {
            use_type_invariant(&*self);
        }
        if self.counter + 1 == self.prescaler {
            self.counter = 0;
            true
        } else {
            self.counter = self.counter + 1;
            false
        }
    }
}

} // verus!
