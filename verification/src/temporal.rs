//! Calendar dates, times of day and timestamps as plain values: a proleptic
//! Gregorian date held as year, month and day, with verified conversion to
//! and from day numbers counted from the calendar's first day.

use vstd::prelude::*;

verus! {

/// First supported year.
pub const MIN_YEAR: i32 = 1;

/// Last supported year.
pub const MAX_YEAR: i32 = 9999;

/// Day number of 9999-12-31, counted from 0001-01-01 as day 1.
pub const MAX_DAY_NUMBER: i32 = 3652059;

/// Day number of 1970-01-01; subtracting it yields days since the Unix epoch.
pub const UNIX_EPOCH_DAYS: i32 = 719163;

/// A calendar date.
#[derive(Clone, Copy, Debug, PartialEq, Eq, Structural, Hash)]
pub struct NaiveDateWrapper {
    pub year: i32,
    pub month: u8,
    pub day: u8,
}

/// A time of day: seconds from midnight and nanoseconds within the second.
/// Nanoseconds reach 2_000_000_000 to leave room for a leap second.
#[derive(Clone, Copy, Debug, PartialEq, Eq, Structural, Hash)]
pub struct NaiveTimeWrapper {
    pub secs: u32,
    pub nano: u32,
}

/// A date paired with a time of day.
#[derive(Clone, Copy, Debug, PartialEq, Eq, Structural, Hash)]
pub struct NaiveDateTimeWrapper {
    pub date: NaiveDateWrapper,
    pub time: NaiveTimeWrapper,
}

pub open spec fn is_leap_year_spec(year: int) -> bool {
    year % 4 == 0 && (year % 100 != 0 || year % 400 == 0)
}

pub fn is_leap_year(year: i32) -> (r: bool)
    ensures
        r == is_leap_year_spec(year as int),
{
    year % 4 == 0 && (year % 100 != 0 || year % 400 == 0)
}

/// Days of the month `month` of `year`.
pub open spec fn month_days(year: int, month: int) -> int {
    if month == 2 {
        if is_leap_year_spec(year) {
            29
        } else {
            28
        }
    } else if month == 4 || month == 6 || month == 9 || month == 11 {
        30
    } else {
        31
    }
}

/// Days of the month `month` of `year`.
pub fn get_mouth_days(year: i32, month: usize) -> (r: i32)
    requires
        1 <= month <= 12,
    ensures
        r == month_days(year as int, month as int),
{
    if month == 2 {
        if is_leap_year(year) {
            29
        } else {
            28
        }
    } else if month == 4 || month == 6 || month == 9 || month == 11 {
        30
    } else {
        31
    }
}

pub open spec fn date_wf(d: NaiveDateWrapper) -> bool {
    &&& MIN_YEAR <= d.year <= MAX_YEAR
    &&& 1 <= d.month <= 12
    &&& 1 <= d.day <= month_days(d.year as int, d.month as int)
}

pub open spec fn time_wf(t: NaiveTimeWrapper) -> bool {
    &&& t.secs < 86400
    &&& t.nano < 2_000_000_000
}

/// Three-way order on dates: by year, then month, then day.
pub open spec fn date_cmp(a: NaiveDateWrapper, b: NaiveDateWrapper) -> int {
    if a.year != b.year {
        crate::numbytes::int_cmp(a.year as int, b.year as int)
    } else if a.month != b.month {
        crate::numbytes::int_cmp(a.month as int, b.month as int)
    } else {
        crate::numbytes::int_cmp(a.day as int, b.day as int)
    }
}

/// Three-way order on times of day.
pub open spec fn time_cmp(a: NaiveTimeWrapper, b: NaiveTimeWrapper) -> int {
    if a.secs != b.secs {
        crate::numbytes::int_cmp(a.secs as int, b.secs as int)
    } else {
        crate::numbytes::int_cmp(a.nano as int, b.nano as int)
    }
}

/// Three-way order on timestamps: by date, then time.
pub open spec fn timestamp_cmp(a: NaiveDateTimeWrapper, b: NaiveDateTimeWrapper) -> int {
    if date_cmp(a.date, b.date) != 0 {
        date_cmp(a.date, b.date)
    } else {
        time_cmp(a.time, b.time)
    }
}

/// Days in all years before `year`: 365 per year plus one per leap year.
pub open spec fn days_before_year(year: int) -> int {
    365 * (year - 1) + (year - 1) / 4 - (year - 1) / 100 + (year - 1) / 400
}

/// Days in the months of `year` before `month`.
pub open spec fn days_before_month(year: int, month: int) -> int
    decreases month,
{
    if month <= 1 {
        0
    } else {
        days_before_month(year, month - 1) + month_days(year, month - 1)
    }
}

/// The day number of a date, counted from 0001-01-01 as day 1.
pub open spec fn date_days(d: NaiveDateWrapper) -> int {
    days_before_year(d.year as int) + days_before_month(d.year as int, d.month as int) + d.day
}

/// Each year holds 365 or 366 days.
pub proof fn lemma_year_length(year: int)
    ensures
        days_before_year(year + 1) - days_before_year(year) == if is_leap_year_spec(year) {
            366int
        } else {
            365int
        },
{
    let n = year - 1;
    assert(n / 4 + (if n % 4 == 3 {
        1int
    } else {
        0int
    }) == (n + 1) / 4 && ((n + 1) % 4 == 0 <==> n % 4 == 3)) by (nonlinear_arith);
    assert(n / 100 + (if n % 100 == 99 {
        1int
    } else {
        0int
    }) == (n + 1) / 100 && ((n + 1) % 100 == 0 <==> n % 100 == 99)) by (nonlinear_arith);
    assert(n / 400 + (if n % 400 == 399 {
        1int
    } else {
        0int
    }) == (n + 1) / 400 && ((n + 1) % 400 == 0 <==> n % 400 == 399)) by (nonlinear_arith);
}

/// `days_before_year` grows with the year.
pub proof fn lemma_days_before_year_mono(a: int, b: int)
    requires
        a <= b,
    ensures
        days_before_year(a) <= days_before_year(b),
        b - a <= days_before_year(b) - days_before_year(a),
    decreases b - a,
{
    if a < b {
        lemma_days_before_year_mono(a, b - 1);
        lemma_year_length(b - 1);
    }
}

/// Months of one year sum to its length.
pub proof fn lemma_months_sum(year: int)
    ensures
        days_before_month(year, 13) == if is_leap_year_spec(year) {
            366int
        } else {
            365int
        },
{
    reveal_with_fuel(days_before_month, 14);
}

/// `days_before_month` grows with the month.
pub proof fn lemma_days_before_month_mono(year: int, a: int, b: int)
    requires
        1 <= a <= b,
    ensures
        days_before_month(year, a) <= days_before_month(year, b),
    decreases b - a,
{
    if a < b {
        lemma_days_before_month_mono(year, a, b - 1);
    }
}

/// Day numbers of well-formed dates lie in `[1, MAX_DAY_NUMBER]`.
pub proof fn lemma_date_days_range(d: NaiveDateWrapper)
    requires
        date_wf(d),
    ensures
        1 <= date_days(d) <= MAX_DAY_NUMBER as int,
{
    lemma_days_before_year_mono(1, d.year as int);
    lemma_days_before_year_mono(d.year as int, 10000);
    lemma_year_length(d.year as int);
    lemma_months_sum(d.year as int);
    lemma_days_before_month_mono(d.year as int, 1, d.month as int);
    lemma_days_before_month_mono(d.year as int, d.month as int + 1, 13);
    assert(days_before_year(1) == 0);
    assert(days_before_year(10000) == 365 * 9999 + 9999int / 4 - 9999int / 100 + 9999int / 400);
}

/// The day-number function is strictly monotone in the date order.
pub proof fn lemma_date_days_mono(a: NaiveDateWrapper, b: NaiveDateWrapper)
    requires
        date_wf(a),
        date_wf(b),
        date_cmp(a, b) < 0,
    ensures
        date_days(a) < date_days(b),
{
    if a.year != b.year {
        lemma_days_before_year_mono(a.year as int + 1, b.year as int);
        lemma_year_length(a.year as int);
        lemma_months_sum(a.year as int);
        lemma_days_before_month_mono(a.year as int, a.month as int + 1, 13);
        lemma_days_before_month_mono(b.year as int, 1, b.month as int);
    } else if a.month != b.month {
        lemma_days_before_month_mono(a.year as int, a.month as int + 1, b.month as int);
    }
}

/// Two well-formed dates with one day number are the same date.
pub proof fn lemma_date_days_inj(a: NaiveDateWrapper, b: NaiveDateWrapper)
    requires
        date_wf(a),
        date_wf(b),
        date_days(a) == date_days(b),
    ensures
        a == b,
{
    if date_cmp(a, b) < 0 {
        lemma_date_days_mono(a, b);
    } else if date_cmp(b, a) < 0 {
        lemma_date_days_mono(b, a);
    }
}

/// Exec day number of a well-formed date.
pub fn date_days_exec(d: &NaiveDateWrapper) -> (r: i32)
    requires
        date_wf(*d),
    ensures
        r as int == date_days(*d),
        1 <= r <= MAX_DAY_NUMBER,
{
    proof {
        lemma_date_days_range(*d);
    }
    let y = d.year - 1;
    let before_year = 365 * y + y / 4 - y / 100 + y / 400;
    let mut m: usize = 1;
    let mut before_month: i32 = 0;
    while m < d.month as usize
        invariant
            1 <= m <= 12,
            date_wf(*d),
            m <= d.month as usize,
            before_month == days_before_month(d.year as int, m as int),
            0 <= before_month <= 366,
        decreases d.month as usize - m,
    {
        proof {
            lemma_days_before_month_mono(d.year as int, m as int + 1, 13);
            lemma_months_sum(d.year as int);
            lemma_days_before_month_mono(d.year as int, 1, m as int);
        }
        before_month = before_month + get_mouth_days(d.year, m);
        m = m + 1;
    }
    before_year + before_month + (d.day as i32)
}

/// Exec date of a day number in `[1, MAX_DAY_NUMBER]`: the inverse of
/// `date_days_exec`, found by walking years and then months.
pub fn date_from_days(days: i32) -> (r: NaiveDateWrapper)
    requires
        1 <= days <= MAX_DAY_NUMBER,
    ensures
        date_wf(r),
        date_days(r) == days as int,
{
    let mut y: i32 = 1;
    proof {
        assert(days_before_year(1) == 0);
    }
    while y < MAX_YEAR && 365 * y + y / 4 - y / 100 + y / 400 < days
        invariant
            1 <= y <= MAX_YEAR,
            days_before_year(y as int) < days as int,
            1 <= days <= MAX_DAY_NUMBER,
        decreases MAX_YEAR - y,
    {
        y = y + 1;
    }
    proof {
        // At exit the target day falls inside year `y`.
        assert(days_before_year(10000) == 365 * 9999 + 9999int / 4 - 9999int / 100 + 9999int / 400);
        assert(days as int <= days_before_year(y as int + 1));
        lemma_year_length(y as int);
        lemma_months_sum(y as int);
    }
    let rest = days - (365 * (y - 1) + (y - 1) / 4 - (y - 1) / 100 + (y - 1) / 400);
    proof {
        assert(rest as int <= days_before_month(y as int, 13));
    }
    let mut m: usize = 1;
    let mut before_month: i32 = 0;
    while m < 12 && before_month + get_mouth_days(y, m) < rest
        invariant
            1 <= m <= 12,
            1 <= y <= MAX_YEAR,
            before_month == days_before_month(y as int, m as int),
            before_month < rest,
            rest as int <= days_before_month(y as int, 13),
            0 <= before_month <= 366,
        decreases 12 - m,
    {
        proof {
            lemma_days_before_month_mono(y as int, m as int + 1, 13);
            lemma_days_before_month_mono(y as int, 1, m as int);
            lemma_months_sum(y as int);
        }
        before_month = before_month + get_mouth_days(y, m);
        m = m + 1;
    }
    proof {
        if m < 12 {
            assert(rest as int <= days_before_month(y as int, m as int) + month_days(y as int, m as int));
        } else {
            assert(days_before_month(y as int, 13) == days_before_month(y as int, 12) + month_days(
                y as int,
                12,
            ));
        }
        lemma_days_before_month_mono(y as int, 1, m as int);
    }
    let day = rest - before_month;
    NaiveDateWrapper { year: y, month: m as u8, day: day as u8 }
}

/// Failure to build a temporal value from an encoded form.
#[derive(Clone, Copy, Debug, PartialEq, Eq, Structural)]
pub enum TemporalError {
    InvalidDateEncoding(i32),
    InvalidTimeEncoding(u32, u32),
    InvalidDateTimeEncoding(i64, u32),
}

/// Seconds of 1970-01-01T00:00:00 counted from 0001-01-01T00:00:00.
pub const UNIX_EPOCH_SECS: i64 = 62135596800;

/// Largest epoch second inside the supported date range:
/// 9999-12-31T23:59:59.
pub const MAX_EPOCH_SECS: i64 = 253402300799;

/// Smallest epoch second inside the supported date range:
/// 0001-01-01T00:00:00.
pub const MIN_EPOCH_SECS: i64 = -62135596800;

impl Default for NaiveDateWrapper {
    /// The Unix epoch date.
    fn default() -> (r: NaiveDateWrapper)
        ensures
            r == (NaiveDateWrapper { year: 1970, month: 1, day: 1 }),
    {
        NaiveDateWrapper { year: 1970, month: 1, day: 1 }
    }
}

impl Default for NaiveTimeWrapper {
    /// Midnight.
    fn default() -> (r: NaiveTimeWrapper)
        ensures
            r == (NaiveTimeWrapper { secs: 0, nano: 0 }),
    {
        NaiveTimeWrapper { secs: 0, nano: 0 }
    }
}

impl Default for NaiveDateTimeWrapper {
    /// Midnight of the Unix epoch date.
    fn default() -> (r: NaiveDateTimeWrapper)
        ensures
            r.date == (NaiveDateWrapper { year: 1970, month: 1, day: 1 }),
            r.time == (NaiveTimeWrapper { secs: 0, nano: 0 }),
    {
        NaiveDateTimeWrapper {
            date: NaiveDateWrapper { year: 1970, month: 1, day: 1 },
            time: NaiveTimeWrapper { secs: 0, nano: 0 },
        }
    }
}

impl NaiveDateWrapper {
    /// The date of day number `days`, or an error outside the supported
    /// range. Succeeds exactly on `1 <= days <= MAX_DAY_NUMBER`.
    pub fn with_days(days: i32) -> (r: Result<NaiveDateWrapper, TemporalError>)
        ensures
            (1 <= days <= MAX_DAY_NUMBER) ==> r is Ok && date_wf(r->Ok_0) && date_days(r->Ok_0)
                == days as int,
            !(1 <= days <= MAX_DAY_NUMBER) ==> r == Result::<NaiveDateWrapper, TemporalError>::Err(
                TemporalError::InvalidDateEncoding(days),
            ),
    {
        if 1 <= days && days <= MAX_DAY_NUMBER {
            Result::Ok(date_from_days(days))
        } else {
            Result::Err(TemporalError::InvalidDateEncoding(days))
        }
    }

    /// The same conversion, used where the bytes came from the value
    /// encoding rather than a key.
    pub fn with_days_value(days: i32) -> (r: Result<NaiveDateWrapper, TemporalError>)
        ensures
            (1 <= days <= MAX_DAY_NUMBER) ==> r is Ok && date_wf(r->Ok_0) && date_days(r->Ok_0)
                == days as int,
            !(1 <= days <= MAX_DAY_NUMBER) ==> r == Result::<NaiveDateWrapper, TemporalError>::Err(
                TemporalError::InvalidDateEncoding(days),
            ),
    {
        NaiveDateWrapper::with_days(days)
    }

    /// The date of day number `days`, which must be in range.
    pub fn from_num_days_from_ce_uncheck(days: i32) -> (r: NaiveDateWrapper)
        requires
            1 <= days <= MAX_DAY_NUMBER,
        ensures
            date_wf(r),
            date_days(r) == days as int,
    {
        date_from_days(days)
    }

    /// The date `year`-`month`-`day`, which must name a calendar day.
    pub fn from_ymd_uncheck(year: i32, month: u32, day: u32) -> (r: NaiveDateWrapper)
        requires
            MIN_YEAR <= year <= MAX_YEAR,
            1 <= month <= 12,
            1 <= day <= month_days(year as int, month as int),
        ensures
            r == (NaiveDateWrapper { year, month: month as u8, day: day as u8 }),
            date_wf(r),
    {
        NaiveDateWrapper { year, month: month as u8, day: day as u8 }
    }

    /// Reads a date back from its protobuf day number.
    pub fn from_protobuf(days: i32) -> (r: Result<NaiveDateWrapper, TemporalError>)
        ensures
            (1 <= days <= MAX_DAY_NUMBER) ==> r is Ok && date_wf(r->Ok_0) && date_days(r->Ok_0)
                == days as int,
            !(1 <= days <= MAX_DAY_NUMBER) ==> r == Result::<NaiveDateWrapper, TemporalError>::Err(
                TemporalError::InvalidDateEncoding(days),
            ),
    {
        NaiveDateWrapper::with_days(days)
    }

    /// Writes the day number as four big-endian bytes; returns how many
    /// bytes were written.
    pub fn to_protobuf(&self, output: &mut Vec<u8>) -> (r: usize)
        requires
            date_wf(*self),
        ensures
            final(output)@ == old(output)@ + crate::numbytes::be_bytes(date_days(*self) as nat, 4),
            r == 4,
    {
        proof {
            lemma_date_days_range(*self);
            crate::numbytes::lemma_pow256_le(3, 3);
            assert(crate::numbytes::pow256(4) == 0x100000000) by {
                reveal_with_fuel(crate::numbytes::pow256, 5);
            }
        }
        let days = date_days_exec(self);
        crate::numbytes::push_be_u64(output, days as u64, 4);
        4
    }

    /// Midnight of this date combined with a wall-clock time.
    pub fn and_hms_uncheck(self, hour: u32, min: u32, sec: u32) -> (r: NaiveDateTimeWrapper)
        requires
            hour < 24,
            min < 60,
            sec < 60,
        ensures
            r.date == self,
            r.time.secs == hour * 3600 + min * 60 + sec,
            r.time.nano == 0,
    {
        self.and_hms_micro_uncheck(hour, min, sec, 0)
    }

    /// This date combined with a wall-clock time carrying microseconds.
    pub fn and_hms_micro_uncheck(self, hour: u32, min: u32, sec: u32, micro: u32) -> (r:
        NaiveDateTimeWrapper)
        requires
            hour < 24,
            min < 60,
            sec < 60,
            micro < 1_000_000,
        ensures
            r.date == self,
            r.time.secs == hour * 3600 + min * 60 + sec,
            r.time.nano == micro * 1000,
    {
        NaiveDateTimeWrapper {
            date: self,
            time: NaiveTimeWrapper { secs: hour * 3600 + min * 60 + sec, nano: micro * 1000 },
        }
    }
}

impl NaiveTimeWrapper {
    /// A time of day from seconds since midnight and nanoseconds. Succeeds
    /// exactly when both lie inside their ranges.
    pub fn with_secs_nano(secs: u32, nano: u32) -> (r: Result<NaiveTimeWrapper, TemporalError>)
        ensures
            (secs < 86400 && nano < 2_000_000_000) ==> r == Result::<
                NaiveTimeWrapper,
                TemporalError,
            >::Ok(NaiveTimeWrapper { secs, nano }),
            !(secs < 86400 && nano < 2_000_000_000) ==> r == Result::<
                NaiveTimeWrapper,
                TemporalError,
            >::Err(TemporalError::InvalidTimeEncoding(secs, nano)),
    {
        if secs < 86400 && nano < 2_000_000_000 {
            Result::Ok(NaiveTimeWrapper { secs, nano })
        } else {
            Result::Err(TemporalError::InvalidTimeEncoding(secs, nano))
        }
    }

    /// The same conversion, for bytes from the value encoding.
    pub fn with_secs_nano_value(secs: u32, nano: u32) -> (r: Result<NaiveTimeWrapper, TemporalError>)
        ensures
            (secs < 86400 && nano < 2_000_000_000) ==> r == Result::<
                NaiveTimeWrapper,
                TemporalError,
            >::Ok(NaiveTimeWrapper { secs, nano }),
            !(secs < 86400 && nano < 2_000_000_000) ==> r == Result::<
                NaiveTimeWrapper,
                TemporalError,
            >::Err(TemporalError::InvalidTimeEncoding(secs, nano)),
    {
        NaiveTimeWrapper::with_secs_nano(secs, nano)
    }

    /// Reads a time back from its protobuf form: nanoseconds since
    /// midnight.
    pub fn from_protobuf(nano: u64) -> (r: Result<NaiveTimeWrapper, TemporalError>)
        ensures
            (nano < 86_400_000_000_000) ==> r == Result::<NaiveTimeWrapper, TemporalError>::Ok(
                NaiveTimeWrapper { secs: (nano / 1_000_000_000) as u32, nano: (nano % 1_000_000_000) as u32 },
            ),
            !(nano < 86_400_000_000_000) ==> r is Err,
    {
        if nano >= 86_400_000_000_000 {
            return Result::Err(TemporalError::InvalidTimeEncoding(0, 0));
        }
        proof {
            assert(nano / 1_000_000_000 < 86400 && nano % 1_000_000_000 < 1_000_000_000)
                by (nonlinear_arith)
                requires
                    nano < 86_400_000_000_000,
            ;
        }
        let secs = (nano / 1_000_000_000) as u32;
        let n = (nano % 1_000_000_000) as u32;
        NaiveTimeWrapper::with_secs_nano(secs, n)
    }

    /// Writes nanoseconds since midnight as eight big-endian bytes.
    pub fn to_protobuf(&self, output: &mut Vec<u8>) -> (r: usize)
        requires
            time_wf(*self),
        ensures
            final(output)@ == old(output)@ + crate::numbytes::be_bytes(
                (self.secs * 1_000_000_000 + self.nano) as nat,
                8,
            ),
            r == 8,
    {
        let total: u64 = (self.secs as u64) * 1_000_000_000 + (self.nano as u64);
        proof {
            assert(crate::numbytes::pow256(8) == 0x10000000000000000) by {
                reveal_with_fuel(crate::numbytes::pow256, 9);
            }
        }
        crate::numbytes::push_be_u64(output, total, 8);
        8
    }

    /// A wall-clock time; the parts must be in range.
    pub fn from_hms_uncheck(hour: u32, min: u32, sec: u32) -> (r: NaiveTimeWrapper)
        requires
            hour < 24,
            min < 60,
            sec < 60,
        ensures
            r.secs == hour * 3600 + min * 60 + sec,
            r.nano == 0,
            time_wf(r),
    {
        NaiveTimeWrapper::from_hms_nano_uncheck(hour, min, sec, 0)
    }

    /// A wall-clock time with microseconds; the parts must be in range.
    pub fn from_hms_micro_uncheck(hour: u32, min: u32, sec: u32, micro: u32) -> (r: NaiveTimeWrapper)
        requires
            hour < 24,
            min < 60,
            sec < 60,
            micro < 1_000_000,
        ensures
            r.secs == hour * 3600 + min * 60 + sec,
            r.nano == micro * 1000,
            time_wf(r),
    {
        NaiveTimeWrapper::from_hms_nano_uncheck(hour, min, sec, micro * 1000)
    }

    /// A wall-clock time with nanoseconds; the parts must be in range.
    pub fn from_hms_nano_uncheck(hour: u32, min: u32, sec: u32, nano: u32) -> (r: NaiveTimeWrapper)
        requires
            hour < 24,
            min < 60,
            sec < 60,
            nano < 2_000_000_000,
        ensures
            r.secs == hour * 3600 + min * 60 + sec,
            r.nano == nano,
            time_wf(r),
    {
        NaiveTimeWrapper { secs: hour * 3600 + min * 60 + sec, nano }
    }

    /// A time from seconds since midnight; the parts must be in range.
    pub fn from_num_seconds_from_midnight_uncheck(secs: u32, nano: u32) -> (r: NaiveTimeWrapper)
        requires
            secs < 86400,
            nano < 2_000_000_000,
        ensures
            r.secs == secs,
            r.nano == nano,
            time_wf(r),
    {
        NaiveTimeWrapper { secs, nano }
    }
}

/// Microseconds of a timestamp counted from the Unix epoch; negative before
/// it.
pub open spec fn timestamp_micros(ts: NaiveDateTimeWrapper) -> int {
    (date_days(ts.date) - UNIX_EPOCH_DAYS) * 86400000000 + ts.time.secs * 1000000 + ts.time.nano
        / 1000
}

impl NaiveDateTimeWrapper {
    /// A timestamp from epoch seconds and nanoseconds. Succeeds exactly
    /// when the second lies in the supported date range and the
    /// nanoseconds are in range.
    pub fn with_secs_nsecs(secs: i64, nsecs: u32) -> (r: Result<NaiveDateTimeWrapper, TemporalError>)
        ensures
            (MIN_EPOCH_SECS <= secs <= MAX_EPOCH_SECS && nsecs < 2_000_000_000) ==> {
                &&& r is Ok
                &&& date_wf(r->Ok_0.date)
                &&& time_wf(r->Ok_0.time)
                &&& date_days(r->Ok_0.date) == (secs + UNIX_EPOCH_SECS) / 86400 + 1
                &&& r->Ok_0.time.secs == (secs + UNIX_EPOCH_SECS) % 86400
                &&& r->Ok_0.time.nano == nsecs
            },
            !(MIN_EPOCH_SECS <= secs <= MAX_EPOCH_SECS && nsecs < 2_000_000_000) ==> r == Result::<
                NaiveDateTimeWrapper,
                TemporalError,
            >::Err(TemporalError::InvalidDateTimeEncoding(secs, nsecs)),
    {
        if MIN_EPOCH_SECS <= secs && secs <= MAX_EPOCH_SECS && nsecs < 2_000_000_000 {
            let shifted: i64 = secs + UNIX_EPOCH_SECS;
            let day0: i64 = shifted / 86400;
            let sod: i64 = shifted % 86400;
            proof {
                assert(0 <= shifted <= 315537897599);
                assert(day0 <= 3652058 && 0 <= day0 && 0 <= sod < 86400) by (nonlinear_arith)
                    requires
                        day0 == shifted / 86400,
                        sod == shifted % 86400,
                        0 <= shifted <= 315537897599,
                ;
            }
            let date = date_from_days((day0 + 1) as i32);
            Result::Ok(
                NaiveDateTimeWrapper { date, time: NaiveTimeWrapper { secs: sod as u32, nano: nsecs } },
            )
        } else {
            Result::Err(TemporalError::InvalidDateTimeEncoding(secs, nsecs))
        }
    }

    /// The same conversion, for bytes from the value encoding.
    pub fn with_secs_nsecs_value(secs: i64, nsecs: u32) -> (r: Result<
        NaiveDateTimeWrapper,
        TemporalError,
    >)
        ensures
            (MIN_EPOCH_SECS <= secs <= MAX_EPOCH_SECS && nsecs < 2_000_000_000) ==> {
                &&& r is Ok
                &&& date_wf(r->Ok_0.date)
                &&& time_wf(r->Ok_0.time)
                &&& date_days(r->Ok_0.date) == (secs + UNIX_EPOCH_SECS) / 86400 + 1
                &&& r->Ok_0.time.secs == (secs + UNIX_EPOCH_SECS) % 86400
                &&& r->Ok_0.time.nano == nsecs
            },
            !(MIN_EPOCH_SECS <= secs <= MAX_EPOCH_SECS && nsecs < 2_000_000_000) ==> r is Err,
    {
        NaiveDateTimeWrapper::with_secs_nsecs(secs, nsecs)
    }

    /// A timestamp from epoch seconds, which must be in range.
    pub fn from_timestamp_uncheck(secs: i64, nsecs: u32) -> (r: NaiveDateTimeWrapper)
        requires
            MIN_EPOCH_SECS <= secs <= MAX_EPOCH_SECS,
            nsecs < 2_000_000_000,
        ensures
            date_wf(r.date),
            time_wf(r.time),
            date_days(r.date) == (secs + UNIX_EPOCH_SECS) / 86400 + 1,
            r.time.secs == (secs + UNIX_EPOCH_SECS) % 86400,
            r.time.nano == nsecs,
    {
        let r = NaiveDateTimeWrapper::with_secs_nsecs(secs, nsecs);
        match r {
            Result::Ok(ts) => ts,
            Result::Err(_) => {
                proof {
                    assert(false);
                }
                NaiveDateTimeWrapper::default()
            },
        }
    }
}

/// The two's-complement image of a 64-bit signed value.
pub open spec fn twos64(v: int) -> nat {
    if v >= 0 {
        v as nat
    } else {
        (v + 0x10000000000000000) as nat
    }
}

/// Truncating division, as the `/` of the host language rounds.
pub open spec fn trunc_div(a: int, b: int) -> int {
    if a >= 0 {
        a / b
    } else {
        -((-a) / b)
    }
}

fn trunc_div_months(a: i32) -> (r: i32)
    ensures
        r as int == trunc_div(a as int, 12),
        a as int - 12 * (r as int) == a as int - 12 * trunc_div(a as int, 12),
{
    let wide: i64 = a as i64;
    let q: i64 = if wide >= 0 {
        wide / 12
    } else {
        -((-wide) / 12)
    };
    proof {
        assert(-178956971 <= q <= 178956970) by (nonlinear_arith)
            requires
                -0x80000000 <= wide <= 0x7FFFFFFF,
                q == (if wide >= 0 {
                    wide / 12
                } else {
                    -((-wide) / 12)
                }),
        ;
    }
    q as i32
}

/// The remainder `a - 12 * trunc_div(a, 12)` lies strictly between -12 and 12.
proof fn lemma_trunc_rem_range(a: int)
    ensures
        -12 < a - 12 * trunc_div(a, 12) < 12,
{
    if a >= 0 {
        assert(0 <= a - 12 * (a / 12) < 12) by (nonlinear_arith)
            requires
                a >= 0,
        ;
    } else {
        assert(0 <= (-a) - 12 * ((-a) / 12) < 12) by (nonlinear_arith)
            requires
                -a > 0,
        ;
    }
}

/// The date after moving `mo` calendar months, the day clamped to the last
/// valid day of the landing month. The year may leave the supported range;
/// the caller checks it.
pub open spec fn add_months_spec(d: NaiveDateWrapper, mo: int) -> NaiveDateWrapper {
    let q = trunc_div(mo, 12);
    let md = mo - 12 * q;
    let y0 = d.year + q;
    let m0 = d.month + md;
    let y1 = if m0 > 12 {
        y0 + 1
    } else if m0 <= 0 {
        y0 - 1
    } else {
        y0
    };
    let m1 = if m0 > 12 {
        m0 - 12
    } else if m0 <= 0 {
        m0 + 12
    } else {
        m0
    };
    let day = if d.day as int <= month_days(y1, m1) {
        d.day as int
    } else {
        month_days(y1, m1)
    };
    NaiveDateWrapper { year: y1 as i32, month: m1 as u8, day: day as u8 }
}

/// Milliseconds of a timestamp counted from midnight before day 1, plus the
/// whole days and milliseconds of an interval.
pub open spec fn shifted_total_ms(dd: int, t: NaiveTimeWrapper, add_ms: int) -> int {
    dd * 86400000 + t.secs * 1000 + t.nano / 1000000 + add_ms
}

impl NaiveDateTimeWrapper {
    /// Writes the timestamp's microseconds since the Unix epoch as eight
    /// big-endian two's-complement bytes.
    pub fn to_protobuf(&self, output: &mut Vec<u8>) -> (r: usize)
        requires
            date_wf(self.date),
            time_wf(self.time),
        ensures
            final(output)@ == old(output)@ + crate::numbytes::be_bytes(
                twos64(timestamp_micros(*self)),
                8,
            ),
            r == 8,
    {
        proof {
            lemma_date_days_range(self.date);
        }
        let days = date_days_exec(&self.date);
        let micros: i64 = ((days - UNIX_EPOCH_DAYS) as i64) * 86400000000 + (self.time.secs as i64)
            * 1000000 + (self.time.nano / 1000) as i64;
        let u: u64 = if micros >= 0 {
            micros as u64
        } else {
            ((micros + 0x4000000000000000 + 0x4000000000000000) as u64) + 0x8000000000000000
        };
        proof {
            assert(u as nat == twos64(micros as int));
            assert(crate::numbytes::pow256(8) == 0x10000000000000000) by {
                reveal_with_fuel(crate::numbytes::pow256, 9);
            }
        }
        crate::numbytes::push_be_u64(output, u, 8);
        8
    }

    /// Reads a timestamp back from its microseconds since the Unix epoch.
    /// Succeeds exactly when the instant falls in the supported date range;
    /// the result then carries those microseconds, with whole-microsecond
    /// nanoseconds.
    pub fn from_protobuf(micros: i64) -> (r: Result<NaiveDateTimeWrapper, TemporalError>)
        ensures
            (MIN_EPOCH_SECS * 1000000 <= micros <= MAX_EPOCH_SECS * 1000000 + 999999) ==> {
                &&& r is Ok
                &&& date_wf(r->Ok_0.date)
                &&& time_wf(r->Ok_0.time)
                &&& timestamp_micros(r->Ok_0) == micros as int
                &&& r->Ok_0.time.nano % 1000 == 0
            },
            !(MIN_EPOCH_SECS * 1000000 <= micros <= MAX_EPOCH_SECS * 1000000 + 999999) ==> r is Err,
    {
        if micros < MIN_EPOCH_SECS * 1000000 || micros > MAX_EPOCH_SECS * 1000000 + 999999 {
            return Result::Err(TemporalError::InvalidDateTimeEncoding(micros, 0));
        }
        let sh: i64 = micros + 62135596800000000;
        proof {
            assert(0 <= sh <= 315537897599999999);
            assert(0 <= sh / 1000000 <= 315537897599 && 0 <= sh % 1000000 < 1000000)
                by (nonlinear_arith)
                requires
                    0 <= sh <= 315537897599999999,
            ;
        }
        let secs: i64 = sh / 1000000 - UNIX_EPOCH_SECS;
        let micro_rem: i64 = sh % 1000000;
        let nsecs: u32 = (micro_rem * 1000) as u32;
        let ts = NaiveDateTimeWrapper::from_timestamp_uncheck(secs, nsecs);
        proof {
            lemma_from_micros_round_trip(micros as int, ts);
        }
        Result::Ok(ts)
    }
}

/// Rebuilding a timestamp from split seconds and microseconds yields the
/// original microsecond count.
proof fn lemma_from_micros_round_trip(micros: int, ts: NaiveDateTimeWrapper)
    requires
        MIN_EPOCH_SECS * 1000000 <= micros <= MAX_EPOCH_SECS * 1000000 + 999999,
        date_days(ts.date) == ((micros + 62135596800000000) / 1000000 - UNIX_EPOCH_SECS
            + UNIX_EPOCH_SECS) / 86400 + 1,
        ts.time.secs == ((micros + 62135596800000000) / 1000000 - UNIX_EPOCH_SECS
            + UNIX_EPOCH_SECS) % 86400,
        ts.time.nano == ((micros + 62135596800000000) % 1000000) * 1000,
    ensures
        timestamp_micros(ts) == micros,
        ts.time.nano % 1000 == 0,
{
    let sh = micros + 62135596800000000;
    let q = sh / 1000000;
    let rm = sh % 1000000;
    assert(sh == 1000000 * q + rm && 0 <= rm < 1000000) by (nonlinear_arith)
        requires
            q == sh / 1000000,
            rm == sh % 1000000,
            sh >= 0,
    ;
    let dq = q / 86400;
    let dr = q % 86400;
    assert(q == 86400 * dq + dr && 0 <= dr < 86400) by (nonlinear_arith)
        requires
            dq == q / 86400,
            dr == q % 86400,
            q >= 0,
    ;
    assert(ts.time.nano / 1000 == rm) by (nonlinear_arith)
        requires
            ts.time.nano == rm * 1000,
            0 <= rm < 1000000,
    ;
    assert(ts.time.nano % 1000 == 0) by (nonlinear_arith)
        requires
            ts.time.nano == rm * 1000,
            0 <= rm < 1000000,
    ;
    assert(timestamp_micros(ts) == (dq + 1 - UNIX_EPOCH_DAYS) * 86400000000 + dr * 1000000 + rm);
    assert((dq + 1 - 719163) * 86400000000 == dq * 86400000000 - 719162 * 86400000000)
        by (nonlinear_arith);
    assert(dq * 86400000000 + dr * 1000000 == q * 1000000) by (nonlinear_arith)
        requires
            q == 86400 * dq + dr,
    ;
    assert(q * 1000000 + rm == sh) by (nonlinear_arith)
        requires
            sh == 1000000 * q + rm,
    ;
}

impl NaiveDateTimeWrapper {
    /// Drops precision below whole microseconds.
    pub fn truncate_micros(self) -> (r: NaiveDateTimeWrapper)
        ensures
            r.date == self.date,
            r.time.secs == self.time.secs,
            r.time.nano == self.time.nano / 1000 * 1000,
    {
        NaiveDateTimeWrapper {
            date: self.date,
            time: NaiveTimeWrapper { secs: self.time.secs, nano: self.time.nano / 1000 * 1000 },
        }
    }

    /// Drops precision below whole milliseconds.
    pub fn truncate_millis(self) -> (r: NaiveDateTimeWrapper)
        ensures
            r.date == self.date,
            r.time.secs == self.time.secs,
            r.time.nano == self.time.nano / 1_000_000 * 1_000_000,
    {
        NaiveDateTimeWrapper {
            date: self.date,
            time: NaiveTimeWrapper {
                secs: self.time.secs,
                nano: self.time.nano / 1_000_000 * 1_000_000,
            },
        }
    }

    /// Drops precision below whole seconds.
    pub fn truncate_second(self) -> (r: NaiveDateTimeWrapper)
        ensures
            r.date == self.date,
            r.time.secs == self.time.secs,
            r.time.nano == 0,
    {
        NaiveDateTimeWrapper {
            date: self.date,
            time: NaiveTimeWrapper { secs: self.time.secs, nano: 0 },
        }
    }

    /// Drops precision below whole minutes.
    pub fn truncate_minute(self) -> (r: NaiveDateTimeWrapper)
        ensures
            r.date == self.date,
            r.time.secs == self.time.secs / 60 * 60,
            r.time.nano == 0,
    {
        NaiveDateTimeWrapper {
            date: self.date,
            time: NaiveTimeWrapper { secs: self.time.secs / 60 * 60, nano: 0 },
        }
    }

    /// Drops precision below whole hours.
    pub fn truncate_hour(self) -> (r: NaiveDateTimeWrapper)
        ensures
            r.date == self.date,
            r.time.secs == self.time.secs / 3600 * 3600,
            r.time.nano == 0,
    {
        NaiveDateTimeWrapper {
            date: self.date,
            time: NaiveTimeWrapper { secs: self.time.secs / 3600 * 3600, nano: 0 },
        }
    }

    /// Midnight of the same date.
    pub fn truncate_day(self) -> (r: NaiveDateTimeWrapper)
        ensures
            r.date == self.date,
            r.time.secs == 0,
            r.time.nano == 0,
    {
        NaiveDateTimeWrapper { date: self.date, time: NaiveTimeWrapper { secs: 0, nano: 0 } }
    }

    /// Midnight of the Monday of the same week. Day 1 of the calendar is a
    /// Monday, so the weekday index is the day number minus one, modulo
    /// seven.
    pub fn truncate_week(self) -> (r: NaiveDateTimeWrapper)
        requires
            date_wf(self.date),
        ensures
            date_wf(r.date),
            date_days(r.date) == date_days(self.date) - (date_days(self.date) - 1) % 7,
            r.time.secs == 0,
            r.time.nano == 0,
    {
        proof {
            lemma_date_days_range(self.date);
        }
        let days = date_days_exec(&self.date);
        let w = (days - 1) % 7;
        let date = date_from_days(days - w);
        NaiveDateTimeWrapper { date, time: NaiveTimeWrapper { secs: 0, nano: 0 } }
    }

    /// Midnight of the first day of the same month.
    pub fn truncate_month(self) -> (r: NaiveDateTimeWrapper)
        ensures
            r.date.year == self.date.year,
            r.date.month == self.date.month,
            r.date.day == 1,
            r.time.secs == 0,
            r.time.nano == 0,
    {
        NaiveDateTimeWrapper {
            date: NaiveDateWrapper { year: self.date.year, month: self.date.month, day: 1 },
            time: NaiveTimeWrapper { secs: 0, nano: 0 },
        }
    }

    /// Midnight of the first day of the same quarter.
    pub fn truncate_quarter(self) -> (r: NaiveDateTimeWrapper)
        requires
            1 <= self.date.month <= 12,
        ensures
            r.date.year == self.date.year,
            r.date.month == (self.date.month - 1) / 3 * 3 + 1,
            r.date.day == 1,
            r.time.secs == 0,
            r.time.nano == 0,
    {
        let m = (self.date.month - 1) / 3 * 3 + 1;
        NaiveDateTimeWrapper {
            date: NaiveDateWrapper { year: self.date.year, month: m, day: 1 },
            time: NaiveTimeWrapper { secs: 0, nano: 0 },
        }
    }

    /// Midnight of the first day of the same year.
    pub fn truncate_year(self) -> (r: NaiveDateTimeWrapper)
        ensures
            r.date.year == self.date.year,
            r.date.month == 1,
            r.date.day == 1,
            r.time.secs == 0,
            r.time.nano == 0,
    {
        NaiveDateTimeWrapper {
            date: NaiveDateWrapper { year: self.date.year, month: 1, day: 1 },
            time: NaiveTimeWrapper { secs: 0, nano: 0 },
        }
    }

    /// Midnight of the first day of the same decade. The supported years
    /// start at 1, so the year must be at least 10.
    pub fn truncate_decade(self) -> (r: NaiveDateTimeWrapper)
        requires
            self.date.year >= 10,
        ensures
            r.date.year == self.date.year / 10 * 10,
            r.date.month == 1,
            r.date.day == 1,
            r.time.secs == 0,
            r.time.nano == 0,
    {
        NaiveDateTimeWrapper {
            date: NaiveDateWrapper { year: self.date.year / 10 * 10, month: 1, day: 1 },
            time: NaiveTimeWrapper { secs: 0, nano: 0 },
        }
    }

    /// Midnight of the first day of the same century, which starts on a
    /// year of the form `100 k + 1`.
    pub fn truncate_century(self) -> (r: NaiveDateTimeWrapper)
        requires
            self.date.year >= 1,
        ensures
            r.date.year == (self.date.year - 1) / 100 * 100 + 1,
            r.date.month == 1,
            r.date.day == 1,
            r.time.secs == 0,
            r.time.nano == 0,
    {
        NaiveDateTimeWrapper {
            date: NaiveDateWrapper { year: (self.date.year - 1) / 100 * 100 + 1, month: 1, day: 1 },
            time: NaiveTimeWrapper { secs: 0, nano: 0 },
        }
    }

    /// Midnight of the first day of the same millennium, which starts on a
    /// year of the form `1000 k + 1`.
    pub fn truncate_millennium(self) -> (r: NaiveDateTimeWrapper)
        requires
            self.date.year >= 1,
        ensures
            r.date.year == (self.date.year - 1) / 1000 * 1000 + 1,
            r.date.month == 1,
            r.date.day == 1,
            r.time.secs == 0,
            r.time.nano == 0,
    {
        NaiveDateTimeWrapper {
            date: NaiveDateWrapper { year: (self.date.year - 1) / 1000 * 1000 + 1, month: 1, day: 1 },
            time: NaiveTimeWrapper { secs: 0, nano: 0 },
        }
    }

    /// Moves the timestamp by an interval: months by the calendar with the
    /// day clamped to the landing month, then whole days, then
    /// milliseconds, failing when any stage leaves the supported range.
    pub fn checked_add(self, rhs: crate::types::IntervalUnit) -> (r: Option<NaiveDateTimeWrapper>)
        requires
            date_wf(self.date),
            time_wf(self.time),
            self.time.nano < 1_000_000_000,
        ensures
            ({
                let d1 = if rhs.months == 0 {
                    self.date
                } else {
                    add_months_spec(self.date, rhs.months as int)
                };
                let dd2 = date_days(d1) + rhs.days;
                let t = shifted_total_ms(dd2, self.time, rhs.ms as int);
                if MIN_YEAR <= d1.year <= MAX_YEAR && 1 <= dd2 <= MAX_DAY_NUMBER && 86400000 <= t
                    <= (MAX_DAY_NUMBER + 1) as int * 86400000 - 1 {
                    match r {
                        Option::Some(ts) => {
                            &&& date_wf(ts.date)
                            &&& time_wf(ts.time)
                            &&& date_days(ts.date) == t / 86400000
                            &&& ts.time.secs == t % 86400000 / 1000
                            &&& ts.time.nano == t % 86400000 % 1000 * 1000000 + self.time.nano
                                % 1000000
                        },
                        Option::None => false,
                    }
                } else {
                    r is None
                }
            }),
    {
        let d1 = if rhs.months == 0 {
            self.date
        } else {
            let q = trunc_div_months(rhs.months);
            let md = rhs.months - 12 * q;
            proof {
                lemma_trunc_rem_range(rhs.months as int);
            }
            let y0: i64 = (self.date.year as i64) + (q as i64);
            let m0: i32 = (self.date.month as i32) + md;
            let y1: i64 = if m0 > 12 {
                y0 + 1
            } else if m0 <= 0 {
                y0 - 1
            } else {
                y0
            };
            let m1: i32 = if m0 > 12 {
                m0 - 12
            } else if m0 <= 0 {
                m0 + 12
            } else {
                m0
            };
            if y1 < MIN_YEAR as i64 || y1 > MAX_YEAR as i64 {
                return Option::None;
            }
            let md_limit = get_mouth_days(y1 as i32, m1 as usize);
            let day: u8 = if (self.date.day as i32) <= md_limit {
                self.date.day
            } else {
                md_limit as u8
            };
            NaiveDateWrapper { year: y1 as i32, month: m1 as u8, day }
        };
        proof {
            if rhs.months != 0 {
                assert(d1 == add_months_spec(self.date, rhs.months as int));
            }
            assert(date_wf(d1));
            lemma_date_days_range(d1);
        }
        let dd1 = date_days_exec(&d1);
        let dd2: i64 = (dd1 as i64) + (rhs.days as i64);
        if dd2 < 1 || dd2 > MAX_DAY_NUMBER as i64 {
            return Option::None;
        }
        let base: i128 = (dd2 as i128) * 86400000 + (self.time.secs as i128) * 1000 + (self.time.nano
            / 1000000) as i128;
        let t: i128 = base + (rhs.ms as i128);
        if t < 86400000 || t > (MAX_DAY_NUMBER as i128 + 1) * 86400000 - 1 {
            return Option::None;
        }
        let td: i128 = t / 86400000;
        let rem: i128 = t % 86400000;
        proof {
            assert(86400000 <= t);
            assert(1 <= td <= MAX_DAY_NUMBER as int && 0 <= rem < 86400000 && t == 86400000 * td
                + rem) by (nonlinear_arith)
                requires
                    td == t / 86400000,
                    rem == t % 86400000,
                    86400000 <= t <= (MAX_DAY_NUMBER + 1) as int * 86400000 - 1,
            ;
        }
        let date = date_from_days(td as i32);
        let secs: u32 = (rem / 1000) as u32;
        let msec: u32 = (rem % 1000) as u32;
        let nano: u32 = msec * 1000000 + self.time.nano % 1000000;
        proof {
            assert(0 <= rem / 1000 < 86400 && 0 <= rem % 1000 < 1000) by (nonlinear_arith)
                requires
                    0 <= rem < 86400000,
            ;
        }
        Option::Some(NaiveDateTimeWrapper { date, time: NaiveTimeWrapper { secs, nano } })
    }
}

} // verus!
