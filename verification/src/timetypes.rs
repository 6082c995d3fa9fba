//! Time points, durations and time spans, all in whole milliseconds.

use crate::text::{push_decimal, string_of, padded, decimal};
use vstd::prelude::*;

verus! {

/// Integer division rounding towards zero, like Rust's `/` on signed integers.
pub open spec fn tdiv(a: int, d: int) -> int {
    if a >= 0 {
        a / d
    } else {
        -((-a) / d)
    }
}

/// The remainder that goes with `tdiv`, like Rust's `%` on signed integers.
pub open spec fn trem(a: int, d: int) -> int {
    a - d * tdiv(a, d)
}

pub open spec fn fits_i64(x: int) -> bool {
    i64::MIN <= x <= i64::MAX
}

/// The remainder of `a` divided by `m`, never negative.
fn euclid_rem(a: i64, m: i64) -> (r: i64)
    requires
        m > 0,
    ensures
        r == a as int % m as int,
{
    let r0: i64 = a % m;
    proof {
        let q = tdiv(a as int, m as int);
        let rr = trem(a as int, m as int);
        if a >= 0 {
            vstd::arithmetic::div_mod::lemma_fundamental_div_mod(a as int, m as int);
        } else {
            vstd::arithmetic::div_mod::lemma_fundamental_div_mod(-(a as int), m as int);
            vstd::arithmetic::div_mod::lemma_mod_pos_bound(-(a as int), m as int);
            let n = -(a as int);
            let d = m as int;
            assert(n == d * (n / d) + n % d);
            assert(rr == -(n % d)) by {
                assert(q == -(n / d));
                assert(d * q == -(d * (n / d))) by (nonlinear_arith)
                    requires q == -(n / d);
            }
            assert((q - 1) * d == d * q - d) by (nonlinear_arith);
            assert(q * d == d * q) by (nonlinear_arith);
            if rr < 0 {
                vstd::arithmetic::div_mod::lemma_fundamental_div_mod_converse_mod(a as int, d, q - 1, rr + d);
            } else {
                vstd::arithmetic::div_mod::lemma_fundamental_div_mod_converse_mod(a as int, d, q, rr);
            }
        }
    }
    if r0 < 0 {
        r0 + m
    } else {
        r0
    }
}

/// Every intermediate value of `ms + 1000 * (secs + 60 * (mins + 60 * hours))` fits into an `i64`.
pub open spec fn components_fit(hours: int, mins: int, secs: int, ms: int) -> bool {
    &&& fits_i64(60 * hours)
    &&& fits_i64(mins + 60 * hours)
    &&& fits_i64(60 * (mins + 60 * hours))
    &&& fits_i64(secs + 60 * (mins + 60 * hours))
    &&& fits_i64(1000 * (secs + 60 * (mins + 60 * hours)))
    &&& fits_i64(ms + 1000 * (secs + 60 * (mins + 60 * hours)))
}

/// `[-]h:mm:ss.mmm` for a number of milliseconds.
pub open spec fn clock_text(ms: int) -> Seq<char> {
    let a = if ms < 0 { -ms } else { ms };
    let sign = if ms < 0 { seq!['-'] } else { Seq::<char>::empty() };
    sign + decimal((a / 3600000) as nat) + seq![':'] + padded(((a / 60000) % 60) as nat, 2)
        + seq![':'] + padded(((a / 1000) % 60) as nat, 2) + seq!['.'] + padded((a % 1000) as nat, 3)
}

fn push_clock_text(out: &mut Vec<char>, ms: i64)
    requires
        ms != i64::MIN,
    ensures
        final(out)@ == old(out)@ + clock_text(ms as int),
{
    let a: u64 = if ms < 0 {
        (-ms) as u64
    } else {
        ms as u64
    };
    if ms < 0 {
        out.push('-');
    }
    push_decimal(out, a / 3600000, 1);
    out.push(':');
    push_decimal(out, (a / 60000) % 60, 2);
    out.push(':');
    push_decimal(out, (a / 1000) % 60, 2);
    out.push('.');
    push_decimal(out, a % 1000, 3);
    proof {
        crate::text::lemma_decimal_len((a / 3600000) as nat);
        assert(padded((a / 3600000) as nat, 1) == decimal((a / 3600000) as nat));
        let sign = if ms < 0 { seq!['-'] } else { Seq::<char>::empty() };
        assert(out@ =~= old(out)@ + clock_text(ms as int));
    }
}

#[derive(Clone, Copy, Debug, PartialEq, Eq, Structural, PartialOrd, Ord, Hash)]
/// Represents a time point like the start time of a subtitle entry.
pub struct TimePoint {
    ms: i64,
}

#[derive(Clone, Copy, Debug, PartialEq, Eq, Structural, PartialOrd, Ord, Hash)]
/// Represents a duration between two `TimePoint`s.
pub struct TimeDelta {
    ms: i64,
}

impl TimePoint {
    /// The time point with the given number of milliseconds, in specifications.
    pub closed spec fn from_ms_spec(ms: int) -> TimePoint {
        TimePoint { ms: ms as i64 }
    }

    pub broadcast proof fn lemma_view(t: TimePoint)
        ensures
            fits_i64(#[trigger] t@),
            fits_i64(t@) ==> TimePoint::from_ms_spec(t@) == t,
    {
    }

    pub broadcast proof fn lemma_from_ms(ms: int)
        requires
            fits_i64(ms),
        ensures
            (#[trigger] TimePoint::from_ms_spec(ms))@ == ms,
    {
    }
}

impl TimeDelta {
    /// The duration with the given number of milliseconds, in specifications.
    pub closed spec fn from_ms_spec(ms: int) -> TimeDelta {
        TimeDelta { ms: ms as i64 }
    }

    pub broadcast proof fn lemma_view(t: TimeDelta)
        ensures
            fits_i64(#[trigger] t@),
            fits_i64(t@) ==> TimeDelta::from_ms_spec(t@) == t,
    {
    }

    pub broadcast proof fn lemma_from_ms(ms: int)
        requires
            fits_i64(ms),
        ensures
            (#[trigger] TimeDelta::from_ms_spec(ms))@ == ms,
    {
    }
}

pub broadcast group group_time_lemmas {
    TimePoint::lemma_view,
    TimePoint::lemma_from_ms,
    TimeDelta::lemma_view,
    TimeDelta::lemma_from_ms,
}

impl View for TimePoint {
    type V = int;

    /// The number of milliseconds.
    closed spec fn view(&self) -> int {
        self.ms as int
    }
}

impl TimePoint {
    /// Create this time type from all time components.
    ///
    /// The components can be negative and/or exceed their natural limits without error.
    /// For example `from_components(0, 0, 3, -2000)` is the same as `from_components(0, 0, 1, 0)`.
    pub fn from_components(hours: i64, mins: i64, secs: i64, ms: i64) -> (t: TimePoint)
        requires
            components_fit(hours as int, mins as int, secs as int, ms as int),
        ensures
            t@ == ms + 1000 * (secs + 60 * (mins + 60 * hours)),
    {
        TimePoint { ms: ms + 1000 * (secs + 60 * (mins + 60 * hours)) }
    }

    /// Create the time type from a given number of milliseconds.
    pub fn from_msecs(ms: i64) -> (t: TimePoint)
        ensures
            t@ == ms,
    {
        TimePoint { ms }
    }

    /// Create the time type from a given number of hundredth seconds (10 milliseconds).
    pub fn from_csecs(cs: i64) -> (t: TimePoint)
        requires
            i64::MIN <= cs * 10 <= i64::MAX,
        ensures
            t@ == cs * 10,
    {
        TimePoint { ms: cs * 10 }
    }

    /// Create the time type with a given number of seconds.
    pub fn from_secs(s: i64) -> (t: TimePoint)
        requires
            i64::MIN <= s * 1000 <= i64::MAX,
        ensures
            t@ == s * 1000,
    {
        TimePoint { ms: s * 1000 }
    }

    /// Create the time type with a given number of minutes.
    pub fn from_mins(mins: i64) -> (t: TimePoint)
        requires
            i64::MIN <= mins * 60000 <= i64::MAX,
        ensures
            t@ == mins * 60000,
    {
        TimePoint { ms: mins * 1000 * 60 }
    }

    /// Create the time type with a given number of hours.
    pub fn from_hours(hours: i64) -> (t: TimePoint)
        requires
            i64::MIN <= hours * 3600000 <= i64::MAX,
        ensures
            t@ == hours * 3600000,
    {
        TimePoint { ms: hours * 1000 * 60 * 60 }
    }

    /// Get the total number of milliseconds.
    pub fn msecs(self) -> (r: i64)
        ensures
            r == self@,
    {
        self.ms
    }

    /// Get the total number of hundredth seconds (rounded towards zero).
    pub fn csecs(self) -> (r: i64)
        ensures
            r == tdiv(self@, 10),
    {
        self.ms / 10
    }

    /// Get the total number of seconds (rounded towards zero).
    pub fn secs(self) -> (r: i64)
        ensures
            r == tdiv(self@, 1000),
    {
        self.ms / 1000
    }

    /// Get the total number of minutes (rounded towards zero).
    pub fn mins(self) -> (r: i64)
        ensures
            r == tdiv(self@, 60000),
    {
        self.ms / (60 * 1000)
    }

    /// Get the total number of hours (rounded towards zero).
    pub fn hours(self) -> (r: i64)
        ensures
            r == tdiv(self@, 3600000),
    {
        self.ms / (60 * 60 * 1000)
    }

    /// Get the milliseconds component, in [0, 999].
    pub fn msecs_comp(self) -> (r: i64)
        ensures
            0 <= r <= 999,
            r == self@ % 1000,
    {
        euclid_rem(self.ms, 1000)
    }

    /// Get the hundredth seconds component, in [0, 99].
    pub fn csecs_comp(self) -> (r: i64)
        ensures
            0 <= r <= 99,
            r == tdiv(self@, 10) % 100,
    {
        euclid_rem(self.ms / 10, 100)
    }

    /// Get the seconds component, in [0, 59].
    pub fn secs_comp(self) -> (r: i64)
        ensures
            0 <= r <= 59,
            r == tdiv(self@, 1000) % 60,
    {
        euclid_rem(self.ms / 1000, 60)
    }

    /// Get the minutes component, in [0, 59].
    pub fn mins_comp(self) -> (r: i64)
        ensures
            0 <= r <= 59,
            r == tdiv(self@, 60000) % 60,
    {
        euclid_rem(self.ms / (60 * 1000), 60)
    }

    /// Return `true` if the represented time is negative.
    pub fn is_negative(self) -> (r: bool)
        ensures
            r == (self@ < 0),
    {
        self.ms < 0
    }

    /// Return the absolute value of the current time.
    pub fn abs(self) -> (r: TimePoint)
        requires
            self@ != i64::MIN,
        ensures
            r@ == (if self@ < 0 { -self@ } else { self@ }),
    {
        if self.ms < 0 {
            TimePoint { ms: -self.ms }
        } else {
            self
        }
    }

    /// The time as `[-]h:mm:ss.mmm`.
    pub fn to_string(&self) -> (s: String)
        requires
            self@ != i64::MIN,
        ensures
            s@ == clock_text(self@),
    {
        let mut out: Vec<char> = Vec::new();
        push_clock_text(&mut out, self.ms);
        string_of(out.as_slice())
    }
}

impl core::ops::Neg for TimePoint {
    type Output = TimePoint;

    fn neg(self) -> (r: TimePoint) {
        TimePoint { ms: -self.ms }
    }
}

impl vstd::std_specs::ops::NegSpecImpl for TimePoint {
    open spec fn obeys_neg_spec() -> bool {
        true
    }

    open spec fn neg_req(self) -> bool {
        self@ != i64::MIN
    }

    open spec fn neg_spec(self) -> TimePoint {
        TimePoint::from_ms_spec(-self@)
    }
}

impl View for TimeDelta {
    type V = int;

    /// The number of milliseconds.
    closed spec fn view(&self) -> int {
        self.ms as int
    }
}

impl TimeDelta {
    /// Create this time type from all time components.
    ///
    /// The components can be negative and/or exceed their natural limits without error.
    /// For example `from_components(0, 0, 3, -2000)` is the same as `from_components(0, 0, 1, 0)`.
    pub fn from_components(hours: i64, mins: i64, secs: i64, ms: i64) -> (t: TimeDelta)
        requires
            components_fit(hours as int, mins as int, secs as int, ms as int),
        ensures
            t@ == ms + 1000 * (secs + 60 * (mins + 60 * hours)),
    {
        TimeDelta { ms: ms + 1000 * (secs + 60 * (mins + 60 * hours)) }
    }

    /// Create the time type from a given number of milliseconds.
    pub fn from_msecs(ms: i64) -> (t: TimeDelta)
        ensures
            t@ == ms,
    {
        TimeDelta { ms }
    }

    /// Create the time type from a given number of hundredth seconds (10 milliseconds).
    pub fn from_csecs(cs: i64) -> (t: TimeDelta)
        requires
            i64::MIN <= cs * 10 <= i64::MAX,
        ensures
            t@ == cs * 10,
    {
        TimeDelta { ms: cs * 10 }
    }

    /// Create the time type with a given number of seconds.
    pub fn from_secs(s: i64) -> (t: TimeDelta)
        requires
            i64::MIN <= s * 1000 <= i64::MAX,
        ensures
            t@ == s * 1000,
    {
        TimeDelta { ms: s * 1000 }
    }

    /// Create the time type with a given number of minutes.
    pub fn from_mins(mins: i64) -> (t: TimeDelta)
        requires
            i64::MIN <= mins * 60000 <= i64::MAX,
        ensures
            t@ == mins * 60000,
    {
        TimeDelta { ms: mins * 1000 * 60 }
    }

    /// Create the time type with a given number of hours.
    pub fn from_hours(hours: i64) -> (t: TimeDelta)
        requires
            i64::MIN <= hours * 3600000 <= i64::MAX,
        ensures
            t@ == hours * 3600000,
    {
        TimeDelta { ms: hours * 1000 * 60 * 60 }
    }

    /// Get the total number of milliseconds.
    pub fn msecs(self) -> (r: i64)
        ensures
            r == self@,
    {
        self.ms
    }

    /// Get the total number of hundredth seconds (rounded towards zero).
    pub fn csecs(self) -> (r: i64)
        ensures
            r == tdiv(self@, 10),
    {
        self.ms / 10
    }

    /// Get the total number of seconds (rounded towards zero).
    pub fn secs(self) -> (r: i64)
        ensures
            r == tdiv(self@, 1000),
    {
        self.ms / 1000
    }

    /// Get the total number of minutes (rounded towards zero).
    pub fn mins(self) -> (r: i64)
        ensures
            r == tdiv(self@, 60000),
    {
        self.ms / (60 * 1000)
    }

    /// Get the total number of hours (rounded towards zero).
    pub fn hours(self) -> (r: i64)
        ensures
            r == tdiv(self@, 3600000),
    {
        self.ms / (60 * 60 * 1000)
    }

    /// Get the milliseconds component, in [0, 999].
    pub fn msecs_comp(self) -> (r: i64)
        ensures
            0 <= r <= 999,
            r == self@ % 1000,
    {
        euclid_rem(self.ms, 1000)
    }

    /// Get the hundredth seconds component, in [0, 99].
    pub fn csecs_comp(self) -> (r: i64)
        ensures
            0 <= r <= 99,
            r == tdiv(self@, 10) % 100,
    {
        euclid_rem(self.ms / 10, 100)
    }

    /// Get the seconds component, in [0, 59].
    pub fn secs_comp(self) -> (r: i64)
        ensures
            0 <= r <= 59,
            r == tdiv(self@, 1000) % 60,
    {
        euclid_rem(self.ms / 1000, 60)
    }

    /// Get the minutes component, in [0, 59].
    pub fn mins_comp(self) -> (r: i64)
        ensures
            0 <= r <= 59,
            r == tdiv(self@, 60000) % 60,
    {
        euclid_rem(self.ms / (60 * 1000), 60)
    }

    /// Return `true` if the represented time is negative.
    pub fn is_negative(self) -> (r: bool)
        ensures
            r == (self@ < 0),
    {
        self.ms < 0
    }

    /// Return the absolute value of the current time.
    pub fn abs(self) -> (r: TimeDelta)
        requires
            self@ != i64::MIN,
        ensures
            r@ == (if self@ < 0 { -self@ } else { self@ }),
    {
        if self.ms < 0 {
            TimeDelta { ms: -self.ms }
        } else {
            self
        }
    }

    /// The time as `[-]h:mm:ss.mmm`.
    pub fn to_string(&self) -> (s: String)
        requires
            self@ != i64::MIN,
        ensures
            s@ == clock_text(self@),
    {
        let mut out: Vec<char> = Vec::new();
        push_clock_text(&mut out, self.ms);
        string_of(out.as_slice())
    }
}

impl core::ops::Neg for TimeDelta {
    type Output = TimeDelta;

    fn neg(self) -> (r: TimeDelta) {
        TimeDelta { ms: -self.ms }
    }
}

impl vstd::std_specs::ops::NegSpecImpl for TimeDelta {
    open spec fn obeys_neg_spec() -> bool {
        true
    }

    open spec fn neg_req(self) -> bool {
        self@ != i64::MIN
    }

    open spec fn neg_spec(self) -> TimeDelta {
        TimeDelta::from_ms_spec(-self@)
    }
}

impl core::ops::Add<TimeDelta> for TimeDelta {
    type Output = TimeDelta;

    fn add(self, rhs: TimeDelta) -> (r: TimeDelta) {
        TimeDelta { ms: self.ms + rhs.ms }
    }
}

impl vstd::std_specs::ops::AddSpecImpl<TimeDelta> for TimeDelta {
    open spec fn obeys_add_spec() -> bool {
        true
    }

    open spec fn add_req(self, rhs: TimeDelta) -> bool {
        i64::MIN <= self@ + rhs@ <= i64::MAX
    }

    open spec fn add_spec(self, rhs: TimeDelta) -> TimeDelta {
        TimeDelta::from_ms_spec(self@ + rhs@)
    }
}

impl core::ops::Add<TimeDelta> for TimePoint {
    type Output = TimePoint;

    fn add(self, rhs: TimeDelta) -> (r: TimePoint) {
        TimePoint { ms: self.ms + rhs.ms }
    }
}

impl vstd::std_specs::ops::AddSpecImpl<TimeDelta> for TimePoint {
    open spec fn obeys_add_spec() -> bool {
        true
    }

    open spec fn add_req(self, rhs: TimeDelta) -> bool {
        i64::MIN <= self@ + rhs@ <= i64::MAX
    }

    open spec fn add_spec(self, rhs: TimeDelta) -> TimePoint {
        TimePoint::from_ms_spec(self@ + rhs@)
    }
}

impl core::ops::Add<TimePoint> for TimeDelta {
    type Output = TimePoint;

    fn add(self, rhs: TimePoint) -> (r: TimePoint) {
        TimePoint { ms: self.ms + rhs.ms }
    }
}

impl vstd::std_specs::ops::AddSpecImpl<TimePoint> for TimeDelta {
    open spec fn obeys_add_spec() -> bool {
        true
    }

    open spec fn add_req(self, rhs: TimePoint) -> bool {
        i64::MIN <= self@ + rhs@ <= i64::MAX
    }

    open spec fn add_spec(self, rhs: TimePoint) -> TimePoint {
        TimePoint::from_ms_spec(self@ + rhs@)
    }
}

impl core::ops::Sub<TimeDelta> for TimeDelta {
    type Output = TimeDelta;

    fn sub(self, rhs: TimeDelta) -> (r: TimeDelta) {
        TimeDelta { ms: self.ms - rhs.ms }
    }
}

impl vstd::std_specs::ops::SubSpecImpl<TimeDelta> for TimeDelta {
    open spec fn obeys_sub_spec() -> bool {
        true
    }

    open spec fn sub_req(self, rhs: TimeDelta) -> bool {
        i64::MIN <= self@ - rhs@ <= i64::MAX
    }

    open spec fn sub_spec(self, rhs: TimeDelta) -> TimeDelta {
        TimeDelta::from_ms_spec(self@ - rhs@)
    }
}

impl core::ops::Sub<TimePoint> for TimePoint {
    type Output = TimeDelta;

    fn sub(self, rhs: TimePoint) -> (r: TimeDelta) {
        TimeDelta { ms: self.ms - rhs.ms }
    }
}

impl vstd::std_specs::ops::SubSpecImpl<TimePoint> for TimePoint {
    open spec fn obeys_sub_spec() -> bool {
        true
    }

    open spec fn sub_req(self, rhs: TimePoint) -> bool {
        i64::MIN <= self@ - rhs@ <= i64::MAX
    }

    open spec fn sub_spec(self, rhs: TimePoint) -> TimeDelta {
        TimeDelta::from_ms_spec(self@ - rhs@)
    }
}

impl core::ops::Sub<TimeDelta> for TimePoint {
    type Output = TimePoint;

    fn sub(self, rhs: TimeDelta) -> (r: TimePoint) {
        TimePoint { ms: self.ms - rhs.ms }
    }
}

impl vstd::std_specs::ops::SubSpecImpl<TimeDelta> for TimePoint {
    open spec fn obeys_sub_spec() -> bool {
        true
    }

    open spec fn sub_req(self, rhs: TimeDelta) -> bool {
        i64::MIN <= self@ - rhs@ <= i64::MAX
    }

    open spec fn sub_spec(self, rhs: TimeDelta) -> TimePoint {
        TimePoint::from_ms_spec(self@ - rhs@)
    }
}

impl core::ops::Sub<TimePoint> for TimeDelta {
    type Output = TimePoint;

    fn sub(self, rhs: TimePoint) -> (r: TimePoint) {
        TimePoint { ms: self.ms - rhs.ms }
    }
}

impl vstd::std_specs::ops::SubSpecImpl<TimePoint> for TimeDelta {
    open spec fn obeys_sub_spec() -> bool {
        true
    }

    open spec fn sub_req(self, rhs: TimePoint) -> bool {
        i64::MIN <= self@ - rhs@ <= i64::MAX
    }

    open spec fn sub_spec(self, rhs: TimePoint) -> TimePoint {
        TimePoint::from_ms_spec(self@ - rhs@)
    }
}

impl core::ops::AddAssign<TimeDelta> for TimeDelta {
    fn add_assign(&mut self, r: TimeDelta)
        requires
            i64::MIN <= old(self)@ + r@ <= i64::MAX,
        ensures
            final(self)@ == old(self)@ + r@,
    {
        self.ms = self.ms + r.ms;
    }
}

impl core::ops::AddAssign<TimeDelta> for TimePoint {
    fn add_assign(&mut self, r: TimeDelta)
        requires
            i64::MIN <= old(self)@ + r@ <= i64::MAX,
        ensures
            final(self)@ == old(self)@ + r@,
    {
        self.ms = self.ms + r.ms;
    }
}

impl core::ops::SubAssign<TimeDelta> for TimeDelta {
    fn sub_assign(&mut self, r: TimeDelta)
        requires
            i64::MIN <= old(self)@ - r@ <= i64::MAX,
        ensures
            final(self)@ == old(self)@ - r@,
    {
        self.ms = self.ms - r.ms;
    }
}

impl core::ops::SubAssign<TimeDelta> for TimePoint {
    fn sub_assign(&mut self, r: TimeDelta)
        requires
            i64::MIN <= old(self)@ - r@ <= i64::MAX,
        ensures
            final(self)@ == old(self)@ - r@,
    {
        self.ms = self.ms - r.ms;
    }
}

/// A time span (e.g. time in which a subtitle is shown).
#[derive(Debug, Clone, Copy, PartialEq, Eq, Structural, PartialOrd, Ord, Hash)]
pub struct TimeSpan {
    /// Start of the time span.
    pub start: TimePoint,
    /// End of the time span.
    pub end: TimePoint,
}

impl TimeSpan {
    /// Constructor of `TimeSpan`s.
    pub fn new(start: TimePoint, end: TimePoint) -> (r: TimeSpan)
        ensures
            r.start == start,
            r.end == end,
    {
        TimeSpan { start, end }
    }

    /// Get the length of the `TimeSpan` (can be negative).
    pub fn len(self) -> (d: TimeDelta)
        requires
            fits_i64(self.end@ - self.start@),
        ensures
            d@ == self.end@ - self.start@,
    {
        TimeDelta { ms: self.end.ms - self.start.ms }
    }

    /// Returns `true` if the `TimeSpan` has zero length.
    ///
    /// Note that a `TimeSpan` whose end lies before its start is *not* empty.
    pub fn is_empty(self) -> (r: bool)
        ensures
            r == (self.start@ == self.end@),
    {
        self.start.ms == self.end.ms
    }

    /// Both ends moved by `d`, in specifications.
    pub open spec fn shifted(self, d: int) -> TimeSpan {
        TimeSpan {
            start: TimePoint::from_ms_spec(self.start@ + d),
            end: TimePoint::from_ms_spec(self.end@ + d),
        }
    }

    pub open spec fn can_shift(self, d: int) -> bool {
        fits_i64(self.start@ + d) && fits_i64(self.end@ + d)
    }
}

impl core::ops::Add<TimeDelta> for TimeSpan {
    type Output = TimeSpan;

    fn add(self, rhs: TimeDelta) -> (r: TimeSpan) {
        TimeSpan {
            start: TimePoint { ms: self.start.ms + rhs.ms },
            end: TimePoint { ms: self.end.ms + rhs.ms },
        }
    }
}

impl vstd::std_specs::ops::AddSpecImpl<TimeDelta> for TimeSpan {
    open spec fn obeys_add_spec() -> bool {
        true
    }

    open spec fn add_req(self, rhs: TimeDelta) -> bool {
        self.can_shift(rhs@)
    }

    open spec fn add_spec(self, rhs: TimeDelta) -> TimeSpan {
        self.shifted(rhs@)
    }
}

impl core::ops::Sub<TimeDelta> for TimeSpan {
    type Output = TimeSpan;

    fn sub(self, rhs: TimeDelta) -> (r: TimeSpan) {
        TimeSpan {
            start: TimePoint { ms: self.start.ms - rhs.ms },
            end: TimePoint { ms: self.end.ms - rhs.ms },
        }
    }
}

impl vstd::std_specs::ops::SubSpecImpl<TimeDelta> for TimeSpan {
    open spec fn obeys_sub_spec() -> bool {
        true
    }

    open spec fn sub_req(self, rhs: TimeDelta) -> bool {
        self.can_shift(-rhs@)
    }

    open spec fn sub_spec(self, rhs: TimeDelta) -> TimeSpan {
        self.shifted(-rhs@)
    }
}

impl core::ops::AddAssign<TimeDelta> for TimeSpan {
    fn add_assign(&mut self, r: TimeDelta)
        requires
            old(self).can_shift(r@),
        ensures
            *final(self) == old(self).shifted(r@),
    {
        self.start.ms = self.start.ms + r.ms;
        self.end.ms = self.end.ms + r.ms;
    }
}

impl core::ops::SubAssign<TimeDelta> for TimeSpan {
    fn sub_assign(&mut self, r: TimeDelta)
        requires
            old(self).can_shift(-r@),
        ensures
            *final(self) == old(self).shifted(-r@),
    {
        self.start.ms = self.start.ms - r.ms;
        self.end.ms = self.end.ms - r.ms;
    }
}

/// Moving a time point by a duration and back gives the time point again: `(t + d) - d == t`.
pub proof fn law_shift_and_back(t: TimePoint, d: TimeDelta)
    requires
        fits_i64(t@ + d@),
    ensures
        TimePoint::from_ms_spec(TimePoint::from_ms_spec(t@ + d@)@ - d@) == t,
{
    broadcast use group_time_lemmas;
}

/// Moving a time span by a duration and back gives the time span again.
pub proof fn law_span_shift_and_back(s: TimeSpan, d: TimeDelta)
    requires
        s.can_shift(d@),
    ensures
        s.shifted(d@).can_shift(-d@),
        s.shifted(d@).shifted(-d@) == s,
{
    broadcast use group_time_lemmas;
}

/// The length of a time span is not changed by moving it.
pub proof fn law_shift_keeps_length(s: TimeSpan, d: int)
    requires
        s.can_shift(d),
    ensures
        s.shifted(d).end@ - s.shifted(d).start@ == s.end@ - s.start@,
{
    broadcast use group_time_lemmas;
}

/// The components of a time that is not negative put it back together.
pub proof fn law_components_round_trip(ms: int)
    requires
        0 <= ms,
    ensures
        ms == ms % 1000 + 1000 * (tdiv(ms, 1000) % 60 + 60 * (tdiv(ms, 60000) % 60 + 60 * tdiv(
            ms,
            3600000,
        ))),
{
    vstd::arithmetic::div_mod::lemma_fundamental_div_mod(ms, 1000);
    vstd::arithmetic::div_mod::lemma_fundamental_div_mod(ms / 1000, 60);
    vstd::arithmetic::div_mod::lemma_fundamental_div_mod(ms / 60000, 60);
    vstd::arithmetic::div_mod::lemma_div_pos_is_pos(ms, 1000);
    vstd::arithmetic::div_mod::lemma_div_pos_is_pos(ms, 60000);
    assert(tdiv(ms, 60000) == tdiv(ms, 1000) / 60) by {
        vstd::arithmetic::div_mod::lemma_div_denominator(ms, 1000, 60);
    }
    assert(tdiv(ms, 3600000) == tdiv(ms, 60000) / 60) by {
        vstd::arithmetic::div_mod::lemma_div_denominator(ms, 60000, 60);
    }
}

} // verus!
