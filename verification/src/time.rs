//! Timestamps with second precision, and the calendar arithmetic that turns
//! the raw database's `YYYYMMDD` / `HHMMSS` strings into them.
//!
//! A timestamp is a calendar day (counted from 1970-01-01 in the proleptic
//! Gregorian calendar) plus the number of seconds into that day.  Keeping the
//! day number explicit makes the day-boundary rule of the reducer a plain
//! integer comparison, and keeps every duration computation in whole seconds.

use vstd::arithmetic::div_mod::{
    lemma_div_by_multiple, lemma_div_is_ordered, lemma_fundamental_div_mod, lemma_mod_bound,
};
use vstd::prelude::*;
use vstd::string::StringSliceAdditionalSpecFns;

verus! {

/// Number of seconds in one calendar day.
pub const SECS_PER_DAY: u32 = 86400;

/// Upper bound on representable day numbers; covers every calendar date up to
/// the year 9999.
pub const MAX_DAY: u32 = 2_999_999;

/// Total seconds of the first instant past the representable range:
/// `(MAX_DAY + 1) * SECS_PER_DAY`.
pub const MAX_TOTAL_SECS: u64 = 259_200_000_000;

/// Upper bound on any whole-minute quantity derived from valid timestamps:
/// `MAX_TOTAL_SECS / 60`.
pub const MINUTE_BOUND: i64 = 4_320_000_000;

/// A point in time with second precision.
#[derive(Clone, Copy, PartialEq, Eq, Structural, Debug)]
pub struct Timestamp {
    /// Days since 1970-01-01.
    pub day: u32,
    /// Seconds since midnight of that day.
    pub secs: u32,
}

impl Timestamp {
    pub open spec fn valid(self) -> bool {
        self.day <= MAX_DAY && self.secs < SECS_PER_DAY
    }

    /// Seconds since 1970-01-01T00:00:00.
    pub open spec fn total_secs(self) -> int {
        self.day * 86400 + self.secs
    }

    /// Executable counterpart of [`Self::total_secs`].
    pub fn total(self) -> (r: u64)
        ensures
            r == self.total_secs(),
            self.valid() ==> r < MAX_TOTAL_SECS,
    {
        self.day as u64 * 86400 + self.secs as u64
    }
}

/// Whole minutes elapsed from second `a` to second `b`, truncated toward
/// negative infinity (floor).
pub open spec fn minutes_between(a: int, b: int) -> int {
    (b - a) / 60
}

/// Executable minute difference for timestamps in ascending order.
pub fn minutes_from(a: u64, b: u64) -> (r: i64)
    requires
        a <= b,
        b < MAX_TOTAL_SECS,
    ensures
        r == minutes_between(a as int, b as int),
        0 <= r < MINUTE_BOUND,
{
    let d = (b - a) / 60;
    proof {
        lemma_div_is_ordered((b - a) as int, b as int, 60);
        lemma_div_is_ordered(b as int, (MAX_TOTAL_SECS - 1) as int, 60);
    }
    d as i64
}

/// Floor division by 60 splits over a sum of non-negative terms:
/// separately truncated minute counts never exceed the minutes of the
/// combined interval.
pub proof fn lemma_minutes_concat(a: int, b: int)
    requires
        0 <= a,
        0 <= b,
    ensures
        a / 60 + b / 60 <= (a + b) / 60,
{
    let qa = a / 60;
    let qb = b / 60;
    lemma_fundamental_div_mod(a, 60);
    lemma_fundamental_div_mod(b, 60);
    lemma_mod_bound(a, 60);
    lemma_mod_bound(b, 60);
    assert(60 * (qa + qb) <= a + b);
    lemma_div_is_ordered(60 * (qa + qb), a + b, 60);
    lemma_div_by_multiple(qa + qb, 60);
}

/// The minute count between two ordered instants is the exact floor of the
/// elapsed seconds: the credited minutes cover the interval to within one
/// minute, always rounding down.
pub proof fn lemma_minutes_floor(a: int, b: int)
    requires
        a <= b,
    ensures
        60 * minutes_between(a, b) <= b - a,
        b - a < 60 * (minutes_between(a, b) + 1),
{
    lemma_fundamental_div_mod(b - a, 60);
    lemma_mod_bound(b - a, 60);
}

/// Division by 60 is monotone over non-negative seconds.
pub proof fn lemma_minutes_le(a: int, b: int)
    requires
        0 <= a <= b,
    ensures
        a / 60 <= b / 60,
{
    lemma_div_is_ordered(a, b, 60);
}

/// Seconds below the representable limit give minute counts below
/// [`MINUTE_BOUND`].
pub proof fn lemma_minutes_bound(t: int)
    requires
        0 <= t < MAX_TOTAL_SECS,
    ensures
        0 <= t / 60 < MINUTE_BOUND,
{
    lemma_fundamental_div_mod(t, 60);
    lemma_mod_bound(t, 60);
    lemma_div_is_ordered(0, t, 60);
}

// ---------------------------------------------------------------------------
// Calendar arithmetic (proleptic Gregorian, epoch 1970-01-01).
// ---------------------------------------------------------------------------

pub open spec fn is_leap_year(y: int) -> bool {
    (y % 4 == 0 && y % 100 != 0) || y % 400 == 0
}

pub open spec fn days_in_year(y: int) -> int {
    if is_leap_year(y) {
        366
    } else {
        365
    }
}

pub open spec fn days_in_month(y: int, m: int) -> int {
    if m == 2 {
        if is_leap_year(y) {
            29
        } else {
            28
        }
    } else if m == 4 || m == 6 || m == 9 || m == 11 {
        30
    } else {
        31
    }
}

/// Days from the epoch to the first day of year `y`.
pub open spec fn days_before_year(y: int) -> int
    decreases y - 1970,
{
    if y <= 1970 {
        0
    } else {
        days_before_year(y - 1) + days_in_year(y - 1)
    }
}

/// Days from the first of January to the first day of month `m` in year `y`.
pub open spec fn days_before_month(y: int, m: int) -> int
    decreases m,
{
    if m <= 1 {
        0
    } else {
        days_before_month(y, m - 1) + days_in_month(y, m - 1)
    }
}

pub open spec fn valid_ymd(y: int, m: int, d: int) -> bool {
    1970 <= y <= 9999 && 1 <= m <= 12 && 1 <= d <= days_in_month(y, m)
}

/// Day number (days since 1970-01-01) of a calendar date.
pub open spec fn day_number(y: int, m: int, d: int) -> int {
    days_before_year(y) + days_before_month(y, m) + (d - 1)
}

proof fn lemma_days_before_year_bound(y: int)
    requires
        1970 <= y <= 10000,
    ensures
        0 <= days_before_year(y) <= 366 * (y - 1970),
    decreases y - 1970,
{
    if y > 1970 {
        lemma_days_before_year_bound(y - 1);
    }
}

proof fn lemma_days_before_month_bound(y: int, m: int)
    requires
        1 <= m <= 13,
    ensures
        0 <= days_before_month(y, m) <= 31 * (m - 1),
    decreases m,
{
    if m > 1 {
        lemma_days_before_month_bound(y, m - 1);
    }
}

fn leap_year(y: u32) -> (r: bool)
    ensures
        r == is_leap_year(y as int),
{
    (y % 4 == 0 && y % 100 != 0) || y % 400 == 0
}

fn month_days(y: u32, m: u32) -> (r: u32)
    ensures
        r == days_in_month(y as int, m as int),
{
    if m == 2 {
        if leap_year(y) {
            29
        } else {
            28
        }
    } else if m == 4 || m == 6 || m == 9 || m == 11 {
        30
    } else {
        31
    }
}

/// Day number of a calendar date, or `None` when the date is not a real
/// calendar date in the supported range (years 1970 through 9999).
pub fn date_to_day(y: u32, m: u32, d: u32) -> (r: Option<u32>)
    ensures
        match r {
            Some(n) => valid_ymd(y as int, m as int, d as int) && n == day_number(
                y as int,
                m as int,
                d as int,
            ) && n <= MAX_DAY,
            None => !valid_ymd(y as int, m as int, d as int),
        },
{
    if !(1970 <= y && y <= 9999 && 1 <= m && m <= 12) {
        return None;
    }
    if !(1 <= d && d <= month_days(y, m)) {
        return None;
    }
    let mut acc: u32 = 0;
    let mut yy: u32 = 1970;
    while yy < y
        invariant
            1970 <= yy <= y <= 9999,
            acc == days_before_year(yy as int),
            acc <= 366 * (yy - 1970),
        decreases y - yy,
    {
        acc = acc + if leap_year(yy) {
            366
        } else {
            365
        };
        yy = yy + 1;
    }
    let mut mm: u32 = 1;
    let mut macc: u32 = 0;
    while mm < m
        invariant
            1 <= mm <= m <= 12,
            macc == days_before_month(y as int, mm as int),
            macc <= 31 * (mm - 1),
        decreases m - mm,
    {
        macc = macc + month_days(y, mm);
        mm = mm + 1;
    }
    proof {
        lemma_days_before_year_bound(y as int);
        lemma_days_before_month_bound(y as int, m as int);
    }
    Some(acc + macc + (d - 1))
}

// ---------------------------------------------------------------------------
// Digit-string parsing for the raw `YYYYMMDD` and `HHMMSS` fields.
// ---------------------------------------------------------------------------

pub open spec fn is_digit(c: u8) -> bool {
    48 <= c <= 57
}

pub open spec fn all_digits(s: Seq<u8>) -> bool {
    forall|i: int| 0 <= i < s.len() ==> is_digit(#[trigger] s[i])
}

/// Numeric value of a string of decimal digits, most significant first.
pub open spec fn num_val(s: Seq<u8>) -> int
    decreases s.len(),
{
    if s.len() == 0 {
        0
    } else {
        num_val(s.drop_last()) * 10 + (s.last() - 48)
    }
}

/// Parses `len` decimal digits of `b` starting at `start`.
fn parse_digits(b: &[u8], start: usize, len: usize) -> (r: Option<u32>)
    requires
        start + len <= b@.len(),
        b@.len() <= 8,
        len <= 4,
    ensures
        ({
            let sub = b@.subrange(start as int, (start + len) as int);
            match r {
                Some(n) => all_digits(sub) && n == num_val(sub) && n <= 9999,
                None => !all_digits(sub),
            }
        }),
{
    let ghost sub = b@.subrange(start as int, (start + len) as int);
    let mut acc: u32 = 0;
    let mut i: usize = 0;
    while i < len
        invariant
            0 <= i <= len,
            len <= 4,
            start + len <= b@.len(),
            b@.len() <= 8,
            all_digits(b@.subrange(start as int, (start + i) as int)),
            acc == num_val(b@.subrange(start as int, (start + i) as int)),
            acc < pow10(i as int),
        decreases len - i,
    {
        let c = b[start + i];
        if !(48 <= c && c <= 57) {
            proof {
                let sub = b@.subrange(start as int, (start + len) as int);
                assert(sub[i as int] == c);
                assert(!is_digit(sub[i as int]));
            }
            return None;
        }
        proof {
            lemma_pow10_bound(i as int);
            let prev = b@.subrange(start as int, (start + i) as int);
            let next = b@.subrange(start as int, (start + i + 1) as int);
            assert(next.drop_last() =~= prev);
            assert(next.last() == c);
        }
        acc = acc * 10 + (c - 48) as u32;
        i = i + 1;
    }
    proof {
        lemma_pow10_bound(len as int);
        assert(b@.subrange(start as int, (start + i) as int) =~= sub);
    }
    Some(acc)
}

spec fn pow10(n: int) -> int
    decreases n,
{
    if n <= 0 {
        1
    } else {
        10 * pow10(n - 1)
    }
}

proof fn lemma_pow10_bound(n: int)
    requires
        0 <= n <= 4,
    ensures
        pow10(n) <= 10000,
{
    assert(pow10(0) == 1);
    assert(pow10(1) == 10);
    assert(pow10(2) == 100);
    assert(pow10(3) == 1000);
    assert(pow10(4) == 10000);
}

/// What a raw `YYYYMMDD` date field denotes: the year, month and day, when
/// the field is eight digits naming a real date in the supported range.
pub open spec fn spec_parse_date(s: Seq<u8>) -> Option<(int, int, int)> {
    if s.len() == 8 && all_digits(s) {
        let y = num_val(s.subrange(0, 4));
        let m = num_val(s.subrange(4, 6));
        let d = num_val(s.subrange(6, 8));
        if valid_ymd(y, m, d) {
            Some((y, m, d))
        } else {
            None
        }
    } else {
        None
    }
}

/// Parses a `YYYYMMDD` field into a day number.
pub fn parse_date(s: &str) -> (r: Option<u32>)
    ensures
        match spec_parse_date(s.spec_bytes()) {
            Some(ymd) => r matches Some(n) && n == day_number(ymd.0, ymd.1, ymd.2) && n
                <= MAX_DAY,
            None => r is None,
        },
{
    let b = s.as_bytes();
    if b.len() != 8 {
        return None;
    }
    let y = parse_digits(b, 0, 4);
    let m = parse_digits(b, 4, 2);
    let d = parse_digits(b, 6, 2);
    proof {
        let s8 = s.spec_bytes();
        assert(s8.subrange(0, 4) =~= s8.subrange(0, 8).subrange(0, 4));
        assert(s8.subrange(0, 8) =~= s8);
        if all_digits(s8) {
            assert(all_digits(s8.subrange(0, 4)));
            assert(all_digits(s8.subrange(4, 6)));
            assert(all_digits(s8.subrange(6, 8)));
        }
    }
    match (y, m, d) {
        (Some(y), Some(m), Some(d)) => {
            proof {
                let s8 = s.spec_bytes();
                assert forall|i: int| 0 <= i < s8.len() implies is_digit(#[trigger] s8[i]) by {
                    if i < 4 {
                        assert(s8.subrange(0, 4)[i] == s8[i]);
                    } else if i < 6 {
                        assert(s8.subrange(4, 6)[i - 4] == s8[i]);
                    } else {
                        assert(s8.subrange(6, 8)[i - 6] == s8[i]);
                    }
                }
            }
            date_to_day(y, m, d)
        },
        _ => None,
    }
}

/// What a raw `HHMMSS` time field denotes: seconds since midnight, when the
/// field is six digits naming a time of day.
pub open spec fn spec_parse_time(s: Seq<u8>) -> Option<int> {
    if s.len() == 6 && all_digits(s) {
        let h = num_val(s.subrange(0, 2));
        let mi = num_val(s.subrange(2, 4));
        let se = num_val(s.subrange(4, 6));
        if h < 24 && mi < 60 && se < 60 {
            Some(h * 3600 + mi * 60 + se)
        } else {
            None
        }
    } else {
        None
    }
}

/// Parses an `HHMMSS` field into seconds since midnight.
pub fn parse_time(s: &str) -> (r: Option<u32>)
    ensures
        match spec_parse_time(s.spec_bytes()) {
            Some(v) => r matches Some(n) && n == v && n < SECS_PER_DAY,
            None => r is None,
        },
{
    let b = s.as_bytes();
    if b.len() != 6 {
        return None;
    }
    let h = parse_digits(b, 0, 2);
    let mi = parse_digits(b, 2, 2);
    let se = parse_digits(b, 4, 2);
    match (h, mi, se) {
        (Some(h), Some(mi), Some(se)) => {
            proof {
                let s6 = s.spec_bytes();
                if all_digits(s6) {
                    assert(all_digits(s6.subrange(0, 2)));
                    assert(all_digits(s6.subrange(2, 4)));
                    assert(all_digits(s6.subrange(4, 6)));
                }
                assert forall|i: int| 0 <= i < s.spec_bytes().len() implies is_digit(
                    #[trigger] s.spec_bytes()[i],
                ) by {
                    let s6 = s.spec_bytes();
                    if i < 2 {
                        assert(s6.subrange(0, 2)[i] == s6[i]);
                    } else if i < 4 {
                        assert(s6.subrange(2, 4)[i - 2] == s6[i]);
                    } else {
                        assert(s6.subrange(4, 6)[i - 4] == s6[i]);
                    }
                }
            }
            if h < 24 && mi < 60 && se < 60 {
                Some(h * 3600 + mi * 60 + se)
            } else {
                None
            }
        },
        _ => None,
    }
}

/// Day number denoted by a raw date field, with the legacy bridge's
/// fallback: an unparseable date becomes the epoch 1970-01-01.
pub open spec fn spec_day_of(s: Seq<u8>) -> int {
    match spec_parse_date(s) {
        Some(ymd) => day_number(ymd.0, ymd.1, ymd.2),
        None => 0,
    }
}

/// Seconds since midnight denoted by a raw time field, with the legacy
/// exporter's fallback: an unparseable time becomes midnight.
pub open spec fn spec_secs_of(s: Seq<u8>) -> int {
    match spec_parse_time(s) {
        Some(v) => v,
        None => 0,
    }
}

/// Builds the timestamp of a raw record, applying the defaults above to each
/// field independently, matching the legacy bridge's behaviour.
pub fn timestamp_or_default(date: &str, time: &str) -> (r: Timestamp)
    ensures
        r.valid(),
        r.day == spec_day_of(date.spec_bytes()),
        r.secs == spec_secs_of(time.spec_bytes()),
{
    let day = match parse_date(date) {
        Some(n) => n,
        None => 0,
    };
    let secs = match parse_time(time) {
        Some(v) => v,
        None => 0,
    };
    Timestamp { day, secs }
}

} // verus!
