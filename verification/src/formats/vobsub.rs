//! Binary `VobSub` (`.sub`) files: only their timings are read.

use crate::errors::{Error, ParseError, VobSubError};
use crate::formats::vobsub_timings::{VobSubTiming, spec_timings, timings};
use crate::formats::{SubtitleEntry, SubtitleFormat};
use crate::timetypes::{TimePoint, TimeSpan, tdiv};
use vstd::prelude::*;

verus! {

broadcast use crate::timetypes::group_time_lemmas;

/// A tick count of the 90 kHz clock in whole milliseconds, rounded towards zero.
pub open spec fn ticks_to_ms(ticks: int) -> int {
    tdiv(ticks, 90)
}

/// The timespan of a subpicture, in milliseconds.
pub open spec fn timing_span(t: VobSubTiming) -> TimeSpan {
    TimeSpan {
        start: TimePoint::from_ms_spec(ticks_to_ms(t.start as int)),
        end: TimePoint::from_ms_spec(ticks_to_ms(t.end as int)),
    }
}

/// A binary `.sub` (`VobSub`) file.
#[derive(Debug, Clone)]
pub struct VobFile {
    /// The file data.
    data: Vec<u8>,
    /// The timespans of the subpictures.
    lines: Vec<TimeSpan>,
}

impl VobFile {
    /// The bytes the file was read from.
    pub closed spec fn data(&self) -> Seq<u8> {
        self.data@
    }

    /// The timespans of the subpictures.
    pub closed spec fn spans(&self) -> Seq<TimeSpan> {
        self.lines@
    }

    /// Parses the contents of a binary `.sub` file.
    pub fn parse(b: &[u8]) -> (r: Result<VobFile, Error>)
        ensures
            match r {
                Ok(f) => spec_timings(b@) matches Ok(ts) && f.data() == b@ && f.spans() == ts.map_values(
                    |t: VobSubTiming| timing_span(t),
                ),
                Err(e) => spec_timings(b@) matches Err(cause) && e == Error::ParsingError(
                    ParseError::VobSubSub(VobSubError(cause)),
                ),
            },
    {
        let ts = match timings(b) {
            Err(cause) => {
                return Err(Error::ParsingError(ParseError::VobSubSub(VobSubError(cause))));
            },
            Ok(ts) => ts,
        };
        let mut lines: Vec<TimeSpan> = Vec::new();
        let mut i: usize = 0;
        while i < ts.len()
            invariant
                i <= ts@.len(),
                lines@ == ts@.take(i as int).map_values(|t: VobSubTiming| timing_span(t)),
            decreases ts@.len() - i,
        {
            let t = ts[i];
            let span = TimeSpan::new(
                TimePoint::from_msecs(t.start / 90),
                TimePoint::from_msecs(t.end / 90),
            );
            lines.push(span);
            assert(ts@.take(i + 1) =~= ts@.take(i as int).push(t));
            assert(lines@ =~= ts@.take(i + 1).map_values(|t: VobSubTiming| timing_span(t)));
            i = i + 1;
        }
        assert(ts@.take(ts@.len() as int) =~= ts@);
        Ok(VobFile { data: vstd::slice::slice_to_vec(b), lines })
    }

    /// One entry per subpicture, without text.
    pub fn get_subtitle_entries(&self) -> (r: Result<Vec<SubtitleEntry>, Error>)
        ensures
            r matches Ok(v) && v@.map_values(|e: SubtitleEntry| e.timespan) == self.spans() && forall|
                k: int,
            |
                0 <= k < v@.len() ==> (#[trigger] v@[k]).line is None,
    {
        let mut out: Vec<SubtitleEntry> = Vec::new();
        let mut i: usize = 0;
        while i < self.lines.len()
            invariant
                i <= self.lines@.len(),
                out@.len() == i,
                forall|k: int|
                    0 <= k < i ==> (#[trigger] out@[k]).timespan == self.lines@[k] && out@[k].line
                        is None,
            decreases self.lines@.len() - i,
        {
            out.push(SubtitleEntry { timespan: self.lines[i], line: None });
            i = i + 1;
        }
        assert(out@.map_values(|e: SubtitleEntry| e.timespan) =~= self.spans());
        Ok(out)
    }

    /// Pictures cannot be retimed in place: this always fails.
    pub fn update_subtitle_entries(&mut self, entries: &[SubtitleEntry]) -> (r: Result<(), Error>)
        ensures
            r == Err::<(), Error>(Error::UpdatingEntriesNotSupported { format: SubtitleFormat::VobSubSub }),
            final(self).data() == old(self).data(),
            final(self).spans() == old(self).spans(),
    {
        Err(Error::UpdatingEntriesNotSupported { format: SubtitleFormat::VobSubSub })
    }

    /// The bytes the file was read from.
    pub fn to_data(&self) -> (r: Result<Vec<u8>, Error>)
        ensures
            r matches Ok(b) && b@ == self.data(),
    {
        Ok(vstd::slice::slice_to_vec(self.data.as_slice()))
    }
}

} // verus!
