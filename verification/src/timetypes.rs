//! Types that represent a time point, duration and time span.
//!
//! All values are exact signed millisecond counts. Arithmetic is checked:
//! operations state in their preconditions that the mathematical result fits
//! into the underlying 64-bit integer, so no overflow can occur at runtime.

use vstd::prelude::*;

verus! {

/// Mathematical value of a time built from hour/minute/second/millisecond
/// components. Components may be negative or exceed their natural range;
/// they are folded without clamping.
pub open spec fn from_components_total(hours: int, mins: int, secs: int, ms: int) -> int {
    ms + 1000 * (secs + 60 * (mins + 60 * hours))
}

/// Truncating division (towards zero), the semantics of Rust's `/` operator.
pub open spec fn div_trunc(a: int, b: int) -> int {
    if a >= 0 {
        a / b
    } else {
        -((-a) / b)
    }
}

/// Absolute value of a time in milliseconds.
pub open spec fn abs_ms(a: int) -> int {
    if a >= 0 {
        a
    } else {
        -a
    }
}

#[derive(Clone, Copy, Debug, PartialEq, Eq, Structural, PartialOrd, Ord, Hash)]
/// Represents a time point like the start time of a subtitle entry.
pub struct TimePoint {
    msecs: i64,
}

#[derive(Clone, Copy, Debug, PartialEq, Eq, Structural, PartialOrd, Ord, Hash)]
/// Represents a duration between two `TimePoint`s.
pub struct TimeDelta {
    msecs: i64,
}

impl View for TimePoint {
    type V = int;

    closed spec fn view(&self) -> int {
        self.msecs as int
    }
}

impl View for TimeDelta {
    type V = int;

    closed spec fn view(&self) -> int {
        self.msecs as int
    }
}

impl TimePoint {
    /// Create this time type from all time components.
    ///
    /// The components can be negative and/or exceed their natural limits
    /// without error. For example `from_components(0, 0, 3, -2000)` is the
    /// same as `from_components(0, 0, 1, 0)`.
    pub fn from_components(hours: i64, mins: i64, secs: i64, ms: i64) -> (r: TimePoint)
        requires
            i64::MIN <= from_components_total(hours as int, mins as int, secs as int, ms as int)
                <= i64::MAX,
        ensures
            r@ == from_components_total(hours as int, mins as int, secs as int, ms as int),
    {
        let total: i128 = ms as i128 + 1000 * (secs as i128 + 60 * (mins as i128 + 60 * (hours
            as i128)));
        TimePoint { msecs: total as i64 }
    }

    /// Create the time type from a given number of milliseconds.
    pub fn from_msecs(ms: i64) -> (r: TimePoint)
        ensures
            r@ == ms as int,
    {
        TimePoint { msecs: ms }
    }

    /// Create the time type from a given number of hundredth seconds (10 milliseconds).
    pub fn from_csecs(cs: i64) -> (r: TimePoint)
        requires
            i64::MIN <= cs as int * 10 <= i64::MAX,
        ensures
            r@ == cs as int * 10,
    {
        TimePoint { msecs: (cs as i128 * 10) as i64 }
    }

    /// Create the time type with a given number of seconds.
    pub fn from_secs(s: i64) -> (r: TimePoint)
        requires
            i64::MIN <= s as int * 1000 <= i64::MAX,
        ensures
            r@ == s as int * 1000,
    {
        TimePoint { msecs: (s as i128 * 1000) as i64 }
    }

    /// Create the time type with a given number of minutes.
    pub fn from_mins(mins: i64) -> (r: TimePoint)
        requires
            i64::MIN <= mins as int * 60000 <= i64::MAX,
        ensures
            r@ == mins as int * 60000,
    {
        TimePoint { msecs: (mins as i128 * 60000) as i64 }
    }

    /// Create the time type with a given number of hours.
    pub fn from_hours(hours: i64) -> (r: TimePoint)
        requires
            i64::MIN <= hours as int * 3600000 <= i64::MAX,
        ensures
            r@ == hours as int * 3600000,
    {
        TimePoint { msecs: (hours as i128 * 3600000) as i64 }
    }

    /// Get the total number of milliseconds.
    pub fn msecs(&self) -> (r: i64)
        ensures
            r as int == self@,
    {
        self.msecs
    }

    /// Get the total number of hundredth seconds.
    pub fn csecs(&self) -> (r: i64)
        ensures
            r as int == div_trunc(self@, 10),
    {
        div_trunc_i64(self.msecs, 10)
    }

    /// Get the total number of seconds.
    pub fn secs(&self) -> (r: i64)
        ensures
            r as int == div_trunc(self@, 1000),
    {
        div_trunc_i64(self.msecs, 1000)
    }

    /// Get the total number of minutes.
    pub fn mins(&self) -> (r: i64)
        ensures
            r as int == div_trunc(self@, 60000),
    {
        div_trunc_i64(self.msecs, 60000)
    }

    /// Get the total number of hours.
    pub fn hours(&self) -> (r: i64)
        ensures
            r as int == div_trunc(self@, 3600000),
    {
        div_trunc_i64(self.msecs, 3600000)
    }

    /// Get the milliseconds component of the absolute time, in the range [0, 999].
    pub fn msecs_comp(&self) -> (r: i64)
        requires
            self@ != i64::MIN,
        ensures
            r as int == abs_ms(self@) % 1000,
    {
        abs_i64(self.msecs) % 1000
    }

    /// Get the hundredth seconds component of the absolute time, in the range [0, 99].
    pub fn csecs_comp(&self) -> (r: i64)
        requires
            self@ != i64::MIN,
        ensures
            r as int == (abs_ms(self@) / 10) % 100,
    {
        (abs_i64(self.msecs) / 10) % 100
    }

    /// Get the seconds component of the absolute time, in the range [0, 59].
    pub fn secs_comp(&self) -> (r: i64)
        requires
            self@ != i64::MIN,
        ensures
            r as int == (abs_ms(self@) / 1000) % 60,
    {
        (abs_i64(self.msecs) / 1000) % 60
    }

    /// Get the minutes component of the absolute time, in the range [0, 59].
    pub fn mins_comp(&self) -> (r: i64)
        requires
            self@ != i64::MIN,
        ensures
            r as int == (abs_ms(self@) / 60000) % 60,
    {
        (abs_i64(self.msecs) / 60000) % 60
    }

    /// Return `true` if the represented time is negative.
    pub fn is_negative(&self) -> (r: bool)
        ensures
            r == (self@ < 0),
    {
        self.msecs < 0
    }

    /// Return the negated time.
    pub fn neg(&self) -> (r: TimePoint)
        requires
            self@ != i64::MIN,
        ensures
            r@ == -self@,
    {
        TimePoint { msecs: -self.msecs }
    }

    /// Return the absolute value of the current time.
    pub fn abs(&self) -> (r: TimePoint)
        requires
            self@ != i64::MIN,
        ensures
            r@ == abs_ms(self@),
    {
        TimePoint { msecs: abs_i64(self.msecs) }
    }

    /// The display text of this time: `[-]H:MM:SS.mmm`.
    pub fn to_string(&self) -> (r: String)
        requires
            self@ != i64::MIN,
        ensures
            r@ == render_timing(self@),
    {
        timing_to_string(self.msecs)
    }

    /// Add a duration to this time point.
    pub fn add_delta(self, d: TimeDelta) -> (r: TimePoint)
        requires
            i64::MIN <= self@ + d@ <= i64::MAX,
        ensures
            r@ == self@ + d@,
    {
        TimePoint { msecs: self.msecs + d.msecs() }
    }

    /// Subtract a duration from this time point.
    pub fn sub_delta(self, d: TimeDelta) -> (r: TimePoint)
        requires
            i64::MIN <= self@ - d@ <= i64::MAX,
        ensures
            r@ == self@ - d@,
    {
        TimePoint { msecs: self.msecs - d.msecs() }
    }

    /// The duration between two time points.
    pub fn sub_point(self, other: TimePoint) -> (r: TimeDelta)
        requires
            i64::MIN <= self@ - other@ <= i64::MAX,
        ensures
            r@ == self@ - other@,
    {
        TimeDelta::from_msecs(self.msecs - other.msecs)
    }
}

impl TimeDelta {
    /// Create this time type from all time components.
    ///
    /// The components can be negative and/or exceed their natural limits
    /// without error.
    pub fn from_components(hours: i64, mins: i64, secs: i64, ms: i64) -> (r: TimeDelta)
        requires
            i64::MIN <= from_components_total(hours as int, mins as int, secs as int, ms as int)
                <= i64::MAX,
        ensures
            r@ == from_components_total(hours as int, mins as int, secs as int, ms as int),
    {
        let total: i128 = ms as i128 + 1000 * (secs as i128 + 60 * (mins as i128 + 60 * (hours
            as i128)));
        TimeDelta { msecs: total as i64 }
    }

    /// Create the time type from a given number of milliseconds.
    pub fn from_msecs(ms: i64) -> (r: TimeDelta)
        ensures
            r@ == ms as int,
    {
        TimeDelta { msecs: ms }
    }

    /// Create the time type from a given number of hundredth seconds (10 milliseconds).
    pub fn from_csecs(cs: i64) -> (r: TimeDelta)
        requires
            i64::MIN <= cs as int * 10 <= i64::MAX,
        ensures
            r@ == cs as int * 10,
    {
        TimeDelta { msecs: (cs as i128 * 10) as i64 }
    }

    /// Create the time type with a given number of seconds.
    pub fn from_secs(s: i64) -> (r: TimeDelta)
        requires
            i64::MIN <= s as int * 1000 <= i64::MAX,
        ensures
            r@ == s as int * 1000,
    {
        TimeDelta { msecs: (s as i128 * 1000) as i64 }
    }

    /// Create the time type with a given number of minutes.
    pub fn from_mins(mins: i64) -> (r: TimeDelta)
        requires
            i64::MIN <= mins as int * 60000 <= i64::MAX,
        ensures
            r@ == mins as int * 60000,
    {
        TimeDelta { msecs: (mins as i128 * 60000) as i64 }
    }

    /// Create the time type with a given number of hours.
    pub fn from_hours(hours: i64) -> (r: TimeDelta)
        requires
            i64::MIN <= hours as int * 3600000 <= i64::MAX,
        ensures
            r@ == hours as int * 3600000,
    {
        TimeDelta { msecs: (hours as i128 * 3600000) as i64 }
    }

    /// Get the total number of milliseconds.
    pub fn msecs(&self) -> (r: i64)
        ensures
            r as int == self@,
    {
        self.msecs
    }

    /// Get the total number of hundredth seconds.
    pub fn csecs(&self) -> (r: i64)
        ensures
            r as int == div_trunc(self@, 10),
    {
        div_trunc_i64(self.msecs, 10)
    }

    /// Get the total number of seconds.
    pub fn secs(&self) -> (r: i64)
        ensures
            r as int == div_trunc(self@, 1000),
    {
        div_trunc_i64(self.msecs, 1000)
    }

    /// Get the total number of minutes.
    pub fn mins(&self) -> (r: i64)
        ensures
            r as int == div_trunc(self@, 60000),
    {
        div_trunc_i64(self.msecs, 60000)
    }

    /// Get the total number of hours.
    pub fn hours(&self) -> (r: i64)
        ensures
            r as int == div_trunc(self@, 3600000),
    {
        div_trunc_i64(self.msecs, 3600000)
    }

    /// Get the milliseconds component of the absolute time, in the range [0, 999].
    pub fn msecs_comp(&self) -> (r: i64)
        requires
            self@ != i64::MIN,
        ensures
            r as int == abs_ms(self@) % 1000,
    {
        abs_i64(self.msecs) % 1000
    }

    /// Get the hundredth seconds component of the absolute time, in the range [0, 99].
    pub fn csecs_comp(&self) -> (r: i64)
        requires
            self@ != i64::MIN,
        ensures
            r as int == (abs_ms(self@) / 10) % 100,
    {
        (abs_i64(self.msecs) / 10) % 100
    }

    /// Get the seconds component of the absolute time, in the range [0, 59].
    pub fn secs_comp(&self) -> (r: i64)
        requires
            self@ != i64::MIN,
        ensures
            r as int == (abs_ms(self@) / 1000) % 60,
    {
        (abs_i64(self.msecs) / 1000) % 60
    }

    /// Get the minutes component of the absolute time, in the range [0, 59].
    pub fn mins_comp(&self) -> (r: i64)
        requires
            self@ != i64::MIN,
        ensures
            r as int == (abs_ms(self@) / 60000) % 60,
    {
        (abs_i64(self.msecs) / 60000) % 60
    }

    /// Return `true` if the represented time is negative.
    pub fn is_negative(&self) -> (r: bool)
        ensures
            r == (self@ < 0),
    {
        self.msecs < 0
    }

    /// Return the negated duration.
    pub fn neg(&self) -> (r: TimeDelta)
        requires
            self@ != i64::MIN,
        ensures
            r@ == -self@,
    {
        TimeDelta { msecs: -self.msecs }
    }

    /// Return the absolute value of the current duration.
    pub fn abs(&self) -> (r: TimeDelta)
        requires
            self@ != i64::MIN,
        ensures
            r@ == abs_ms(self@),
    {
        TimeDelta { msecs: abs_i64(self.msecs) }
    }

    /// The display text of this duration: `[-]H:MM:SS.mmm`.
    pub fn to_string(&self) -> (r: String)
        requires
            self@ != i64::MIN,
        ensures
            r@ == render_timing(self@),
    {
        timing_to_string(self.msecs)
    }

    /// Add another duration to this duration.
    pub fn add_delta(self, d: TimeDelta) -> (r: TimeDelta)
        requires
            i64::MIN <= self@ + d@ <= i64::MAX,
        ensures
            r@ == self@ + d@,
    {
        TimeDelta { msecs: self.msecs + d.msecs }
    }

    /// Subtract another duration from this duration.
    pub fn sub_delta(self, d: TimeDelta) -> (r: TimeDelta)
        requires
            i64::MIN <= self@ - d@ <= i64::MAX,
        ensures
            r@ == self@ - d@,
    {
        TimeDelta { msecs: self.msecs - d.msecs }
    }
}

/// The display text of a time: `[-]H:MM:SS.mmm` of the absolute value, with
/// the sign tracked separately.
pub open spec fn render_timing(t: int) -> Seq<char> {
    let a = abs_ms(t);
    (if t < 0 {
        seq!['-']
    } else {
        Seq::<char>::empty()
    }) + crate::formats::common::dec_str(a / 3600000) + seq![':']
        + crate::formats::common::dec_str_pad((a / 60000) % 60, 2) + seq![':']
        + crate::formats::common::dec_str_pad((a / 1000) % 60, 2) + seq!['.']
        + crate::formats::common::dec_str_pad(a % 1000, 3)
}

/// Renders a time value for display.
fn timing_to_string(ms: i64) -> (r: String)
    requires
        ms != i64::MIN,
    ensures
        r@ == render_timing(ms as int),
{
    let neg = ms < 0;
    let a = abs_i64(ms);
    let mut out: Vec<char> = Vec::new();
    if neg {
        out.push('-');
    }
    let mut piece = crate::formats::common::render_u64((a / 3600000) as u64);
    out.append(&mut piece);
    out.push(':');
    let mut piece = crate::formats::common::render_u64_pad(((a / 60000) % 60) as u64, 2);
    out.append(&mut piece);
    out.push(':');
    let mut piece = crate::formats::common::render_u64_pad(((a / 1000) % 60) as u64, 2);
    out.append(&mut piece);
    out.push('.');
    let mut piece = crate::formats::common::render_u64_pad((a % 1000) as u64, 3);
    out.append(&mut piece);
    proof {
        assert(out@ =~= render_timing(ms as int));
    }
    crate::formats::common::chars_to_string(&out)
}

/// A nonnegative time decomposes exactly into its display components.
pub proof fn lemma_time_components(t: int)
    requires
        t >= 0,
    ensures
        from_components_total(t / 3600000, (t / 60000) % 60, (t / 1000) % 60, t % 1000) == t,
{
    vstd::arithmetic::div_mod::lemma_fundamental_div_mod(t, 1000);
    vstd::arithmetic::div_mod::lemma_fundamental_div_mod(t / 1000, 60);
    vstd::arithmetic::div_mod::lemma_fundamental_div_mod(t / 60000, 60);
    vstd::arithmetic::div_mod::lemma_div_denominator(t, 1000, 60);
    vstd::arithmetic::div_mod::lemma_div_denominator(t, 60000, 60);
    assert(t / 1000 / 60 == t / 60000);
    assert(t / 60000 / 60 == t / 3600000);
    assert(t == 1000 * (t / 1000) + t % 1000);
    assert(t / 1000 == 60 * (t / 60000) + (t / 1000) % 60);
    assert(t / 60000 == 60 * (t / 3600000) + (t / 60000) % 60);
}

/// Truncating (towards zero) division by a positive divisor.
fn div_trunc_i64(a: i64, b: i64) -> (r: i64)
    requires
        b > 0,
    ensures
        r as int == div_trunc(a as int, b as int),
{
    if a >= 0 {
        a / b
    } else {
        assert(-(a as int) / (b as int) <= -(a as int) / 1) by (nonlinear_arith)
            requires
                b >= 1 && -(a as int) >= 0,
        ;
        let q: i128 = -((-(a as i128)) / (b as i128));
        q as i64
    }
}

/// Absolute value.
fn abs_i64(a: i64) -> (r: i64)
    requires
        a != i64::MIN,
    ensures
        r as int == abs_ms(a as int),
{
    if a >= 0 {
        a
    } else {
        -a
    }
}

#[derive(Debug, Clone, Copy, PartialEq, Eq, Structural, PartialOrd, Ord, Hash)]
/// A time span (e.g. time in which a subtitle is shown).
pub struct TimeSpan {
    /// Start of the time span.
    pub start: TimePoint,

    /// End of the time span.
    pub end: TimePoint,
}

impl TimeSpan {
    /// Constructor of `TimeSpan`s.
    pub fn new(start: TimePoint, end: TimePoint) -> (r: TimeSpan)
        ensures
            r.start == start,
            r.end == end,
    {
        TimeSpan { start, end }
    }

    /// Get the length of the `TimeSpan` (can be negative).
    pub fn len(&self) -> (r: TimeDelta)
        requires
            i64::MIN <= self.end@ - self.start@ <= i64::MAX,
        ensures
            r@ == self.end@ - self.start@,
    {
        self.end.sub_point(self.start)
    }
}

} // verus!
