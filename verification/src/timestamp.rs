//! Calendar timestamps for note metadata.
//!
//! A note's creation time is kept as a plain UTC civil time (year, month,
//! day, hour, minute, second).  This module defines validity, the mapping
//! to and from seconds since 1970-01-01 00:00:00 UTC, the textual form
//! written into note headers, and a tolerant reader for the historical
//! variants of that textual form.

use vstd::prelude::*;

verus! {

/// Earliest year a timestamp may carry.
pub const MIN_YEAR: u32 = 1970;

/// Latest year a timestamp may carry.
pub const MAX_YEAR: u32 = 9999;

/// A civil UTC time, second precision.
#[derive(Clone, Copy, PartialEq, Eq, Structural, Debug)]
pub struct Timestamp {
    pub year: u32,
    pub month: u32,
    pub day: u32,
    pub hour: u32,
    pub minute: u32,
    pub second: u32,
}

pub open spec fn is_leap_year(y: int) -> bool {
    (y % 4 == 0 && y % 100 != 0) || y % 400 == 0
}

pub open spec fn days_in_month(y: int, m: int) -> int {
    if m == 2 {
        if is_leap_year(y) {
            29
        } else {
            28
        }
    } else if m == 4 || m == 6 || m == 9 || m == 11 {
        30
    } else {
        31
    }
}

pub open spec fn days_in_year(y: int) -> int {
    if is_leap_year(y) {
        366
    } else {
        365
    }
}

/// Days in the Gregorian calendar between 1970-01-01 and the first day of
/// year `y`.
pub open spec fn days_before_year(y: int) -> int
    decreases y - MIN_YEAR,
{
    if y <= MIN_YEAR {
        0
    } else {
        days_before_year(y - 1) + days_in_year(y - 1)
    }
}

/// Days of year `y` that lie before the first day of month `m`.
pub open spec fn days_before_month(y: int, m: int) -> int
    decreases m,
{
    if m <= 1 {
        0
    } else {
        days_before_month(y, m - 1) + days_in_month(y, m - 1)
    }
}

impl Timestamp {
    pub open spec fn is_valid(self) -> bool {
        &&& MIN_YEAR <= self.year <= MAX_YEAR
        &&& 1 <= self.month <= 12
        &&& 1 <= self.day <= days_in_month(self.year as int, self.month as int)
        &&& self.hour < 24
        &&& self.minute < 60
        &&& self.second < 60
    }

    /// Seconds since 1970-01-01 00:00:00 UTC.
    pub open spec fn epoch(self) -> int {
        (((days_before_year(self.year as int) + days_before_month(
            self.year as int,
            self.month as int,
        ) + self.day - 1) * 24 + self.hour) * 60 + self.minute) * 60 + self.second
    }

    /// Chronological order on valid timestamps: field by field, most
    /// significant first.
    pub open spec fn spec_le(self, other: Self) -> bool {
        if self.year != other.year {
            self.year < other.year
        } else if self.month != other.month {
            self.month < other.month
        } else if self.day != other.day {
            self.day < other.day
        } else if self.hour != other.hour {
            self.hour < other.hour
        } else if self.minute != other.minute {
            self.minute < other.minute
        } else {
            self.second <= other.second
        }
    }

    pub fn le(&self, other: &Self) -> (r: bool)
        ensures
            r == self.spec_le(*other),
    {
        if self.year != other.year {
            self.year < other.year
        } else if self.month != other.month {
            self.month < other.month
        } else if self.day != other.day {
            self.day < other.day
        } else if self.hour != other.hour {
            self.hour < other.hour
        } else if self.minute != other.minute {
            self.minute < other.minute
        } else {
            self.second <= other.second
        }
    }
}

/// The latest valid timestamp.
pub open spec fn max_timestamp() -> Timestamp {
    Timestamp { year: MAX_YEAR, month: 12, day: 31, hour: 23, minute: 59, second: 59 }
}

/// The largest epoch value a valid timestamp can denote.
pub open spec fn max_epoch() -> int {
    max_timestamp().epoch()
}

pub fn leap_year(y: u32) -> (r: bool)
    ensures
        r == is_leap_year(y as int),
{
    (y % 4 == 0 && y % 100 != 0) || y % 400 == 0
}

pub fn month_days(y: u32, m: u32) -> (r: u32)
    ensures
        r == days_in_month(y as int, m as int),
{
    if m == 2 {
        if leap_year(y) {
            29
        } else {
            28
        }
    } else if m == 4 || m == 6 || m == 9 || m == 11 {
        30
    } else {
        31
    }
}

pub fn year_days(y: u32) -> (r: u32)
    ensures
        r == days_in_year(y as int),
{
    if leap_year(y) {
        366
    } else {
        365
    }
}

pub proof fn lemma_days_before_year_bounds(y: int)
    requires
        MIN_YEAR <= y,
    ensures
        0 <= days_before_year(y) <= 366 * (y - MIN_YEAR),
    decreases y - MIN_YEAR,
{
    if y > MIN_YEAR {
        lemma_days_before_year_bounds(y - 1);
    }
}

pub proof fn lemma_days_before_month_bounds(y: int, m: int)
    requires
        1 <= m <= 13,
    ensures
        0 <= days_before_month(y, m) <= 31 * (m - 1),
    decreases m,
{
    if m > 1 {
        lemma_days_before_month_bounds(y, m - 1);
    }
}

/// The epoch of every valid timestamp is non-negative and at most
/// `max_epoch()`, which keeps the executable conversion inside `u64`.
pub proof fn lemma_epoch_bounds(ts: Timestamp)
    requires
        ts.is_valid(),
    ensures
        0 <= ts.epoch(),
        ts.epoch() < 0x1_0000_0000_0000,
{
    lemma_days_before_year_bounds(ts.year as int);
    lemma_days_before_month_bounds(ts.year as int, ts.month as int);
}

/// Seconds since the epoch of a valid timestamp.
pub fn to_epoch(ts: &Timestamp) -> (r: u64)
    requires
        ts.is_valid(),
    ensures
        r == ts.epoch(),
{
    proof {
        lemma_epoch_bounds(*ts);
        lemma_days_before_year_bounds(ts.year as int);
        lemma_days_before_month_bounds(ts.year as int, ts.month as int);
    }
    let mut days: u64 = 0;
    let mut y: u32 = MIN_YEAR;
    while y < ts.year
        invariant
            MIN_YEAR <= y <= ts.year <= MAX_YEAR,
            days == days_before_year(y as int),
            days <= 366 * (y - MIN_YEAR),
        decreases ts.year - y,
    {
        proof {
            lemma_days_before_year_bounds(y as int + 1);
        }
        days = days + year_days(y) as u64;
        y = y + 1;
    }
    let mut m: u32 = 1;
    while m < ts.month
        invariant
            1 <= m <= ts.month <= 12,
            ts.is_valid(),
            days == days_before_year(ts.year as int) + days_before_month(ts.year as int, m as int),
            days <= 366 * (MAX_YEAR - MIN_YEAR) + 31 * 12,
        decreases ts.month - m,
    {
        proof {
            lemma_days_before_year_bounds(ts.year as int);
            lemma_days_before_month_bounds(ts.year as int, m as int + 1);
        }
        days = days + month_days(ts.year, m) as u64;
        m = m + 1;
    }
    days = days + (ts.day - 1) as u64;
    (((days * 24 + ts.hour as u64) * 60 + ts.minute as u64) * 60) + ts.second as u64
}

/// Splits a day count into (year, day of year), counting years up from `y`.
pub open spec fn year_split(y: int, d: int) -> (int, int)
    decreases d,
{
    if d < days_in_year(y) || d < 0 {
        (y, d)
    } else {
        year_split(y + 1, d - days_in_year(y))
    }
}

/// Splits a day-of-year count into (month, day of month), counting months
/// up from `m`.
pub open spec fn month_split(y: int, m: int, d: int) -> (int, int)
    decreases 12 - m,
{
    if m >= 12 || d < days_in_month(y, m) || d < 0 {
        (m, d)
    } else {
        month_split(y, m + 1, d - days_in_month(y, m))
    }
}

/// The civil UTC time denoted by a count of seconds since the epoch.
pub open spec fn timestamp_of_epoch(e: int) -> Timestamp {
    let days = e / 86400;
    let rem = e % 86400;
    let (y, dy) = year_split(MIN_YEAR as int, days);
    let (m, dm) = month_split(y, 1, dy);
    Timestamp {
        year: y as u32,
        month: m as u32,
        day: (dm + 1) as u32,
        hour: (rem / 3600) as u32,
        minute: ((rem % 3600) / 60) as u32,
        second: ((rem % 3600) % 60) as u32,
    }
}

/// The civil time of an epoch count, or `None` past the supported range.
pub open spec fn spec_from_epoch(e: int) -> Option<Timestamp> {
    if 0 <= e <= max_epoch() {
        Some(timestamp_of_epoch(e))
    } else {
        None
    }
}

proof fn lemma_year_split_step(y: int, d: int)
    requires
        d >= days_in_year(y),
    ensures
        year_split(y, d) == year_split(y + 1, d - days_in_year(y)),
{
}

proof fn lemma_month_split_step(y: int, m: int, d: int)
    requires
        m < 12,
        d >= days_in_month(y, m),
    ensures
        month_split(y, m, d) == month_split(y, m + 1, d - days_in_month(y, m)),
{
}

proof fn lemma_days_before_year_mono(a: int, b: int)
    requires
        MIN_YEAR <= a <= b,
    ensures
        days_before_year(a) <= days_before_year(b),
    decreases b - a,
{
    if a < b {
        lemma_days_before_year_mono(a, b - 1);
    }
}

/// The days of the first eleven months leave exactly 31 for December.
proof fn lemma_days_before_december(y: int)
    ensures
        days_before_month(y, 12) == days_in_year(y) - 31,
{
    reveal_with_fuel(days_before_month, 13);
}

proof fn lemma_max_epoch_value()
    ensures
        max_epoch() == 86400 * days_before_year(MAX_YEAR + 1) - 1,
{
    lemma_days_before_december(MAX_YEAR as int);
    assert(!is_leap_year(MAX_YEAR as int));
    assert(days_before_year(MAX_YEAR + 1) == days_before_year(MAX_YEAR as int) + 365);
}

/// Converts seconds since the epoch to a civil UTC time; `None` when the
/// value lies past the end of year 9999.
pub fn from_epoch(e: u64) -> (r: Option<Timestamp>)
    ensures
        r == spec_from_epoch(e as int),
        r matches Some(ts) ==> ts.is_valid() && ts.epoch() == e,
{
    let days0: u64 = e / 86400;
    let rem: u64 = e % 86400;
    let ghost split = year_split(MIN_YEAR as int, days0 as int);
    let mut days: u64 = days0;
    let mut y: u32 = MIN_YEAR;
    loop
        invariant
            MIN_YEAR <= y <= MAX_YEAR + 1,
            days0 == e as int / 86400,
            rem == e as int % 86400,
            days == days0 - days_before_year(y as int),
            year_split(y as int, days as int) == split,
        ensures
            MIN_YEAR <= y <= MAX_YEAR,
            days == days0 - days_before_year(y as int),
            days < days_in_year(y as int),
            year_split(y as int, days as int) == split,
        decreases days,
    {
        if y > MAX_YEAR {
            // the day count runs past the last supported year
            proof {
                lemma_max_epoch_value();
                vstd::arithmetic::div_mod::lemma_fundamental_div_mod(e as int, 86400);
                assert(days0 >= days_before_year(MAX_YEAR + 1));
                assert(e == 86400 * (days0 as int) + rem);
            }
            return None;
        }
        let dy = year_days(y);
        if days < dy as u64 {
            break;
        }
        proof {
            lemma_year_split_step(y as int, days as int);
        }
        days = days - dy as u64;
        y = y + 1;
    }
    let ghost dy0 = days as int;
    proof {
        assert(split == (y as int, days as int));
    }
    let mut m: u32 = 1;
    let ghost msplit = month_split(y as int, 1, dy0);
    while m < 12 && days >= month_days(y, m) as u64
        invariant
            1 <= m <= 12,
            MIN_YEAR <= y <= MAX_YEAR,
            days_before_month(y as int, m as int) + days == dy0,
            dy0 < days_in_year(y as int),
            month_split(y as int, m as int, days as int) == msplit,
        decreases 12 - m,
    {
        proof {
            lemma_month_split_step(y as int, m as int, days as int);
        }
        days = days - month_days(y, m) as u64;
        m = m + 1;
    }
    proof {
        if m == 12 {
            lemma_days_before_december(y as int);
        }
        assert(days < days_in_month(y as int, m as int));
        assert(msplit == (m as int, days as int));
    }
    let ts = Timestamp {
        year: y,
        month: m,
        day: (days + 1) as u32,
        hour: (rem / 3600) as u32,
        minute: ((rem % 3600) / 60) as u32,
        second: ((rem % 3600) % 60) as u32,
    };
    proof {
        // the epoch value recombines from the split pieces
        vstd::arithmetic::div_mod::lemma_fundamental_div_mod(e as int, 86400);
        vstd::arithmetic::div_mod::lemma_fundamental_div_mod(rem as int, 3600);
        vstd::arithmetic::div_mod::lemma_fundamental_div_mod(rem as int % 3600, 60);
        assert(e == 86400 * (days0 as int) + rem);
        assert(rem == 3600 * (rem as int / 3600) + (rem as int % 3600));
        assert(rem as int % 3600 == 60 * ((rem as int % 3600) / 60) + (rem as int % 3600) % 60);
        assert(ts.epoch() == e);
        // the result stays at or below the largest valid timestamp
        lemma_days_before_year_mono(y as int + 1, MAX_YEAR + 1);
        lemma_max_epoch_value();
        assert(days0 < days_before_year(MAX_YEAR + 1));
        assert(e <= max_epoch());
    }
    Some(ts)
}

/// The character for a single decimal digit value.
pub open spec fn digit(d: int) -> char {
    ((48 + d) as u8) as char
}

pub open spec fn two_digits(n: int) -> Seq<char> {
    seq![digit(n / 10), digit(n % 10)]
}

pub open spec fn four_digits(n: int) -> Seq<char> {
    seq![digit(n / 1000), digit((n / 100) % 10), digit((n / 10) % 10), digit(n % 10)]
}

/// The textual form written into note headers:
/// `YYYY-MM-DD HH:MM:SS +0000`.
pub open spec fn ts_format(ts: Timestamp) -> Seq<char> {
    four_digits(ts.year as int) + seq!['-'] + two_digits(ts.month as int) + seq!['-'] + two_digits(
        ts.day as int,
    ) + seq![' '] + two_digits(ts.hour as int) + seq![':'] + two_digits(ts.minute as int)
        + seq![':'] + two_digits(ts.second as int) + seq![' ', '+', '0', '0', '0', '0']
}

fn push_two(v: &mut Vec<char>, n: u32)
    requires
        n < 100,
    ensures
        final(v)@ == old(v)@ + two_digits(n as int),
{
    v.push(((48 + n / 10) as u8) as char);
    v.push(((48 + n % 10) as u8) as char);
    proof {
        assert(v@ =~= old(v)@ + two_digits(n as int));
    }
}

/// Renders a valid timestamp in the header form.
pub fn format_timestamp(ts: &Timestamp) -> (r: Vec<char>)
    requires
        ts.is_valid(),
    ensures
        r@ == ts_format(*ts),
{
    let mut v: Vec<char> = Vec::new();
    v.push(((48 + ts.year / 1000) as u8) as char);
    v.push(((48 + (ts.year / 100) % 10) as u8) as char);
    v.push(((48 + (ts.year / 10) % 10) as u8) as char);
    v.push(((48 + ts.year % 10) as u8) as char);
    v.push('-');
    push_two(&mut v, ts.month);
    v.push('-');
    push_two(&mut v, ts.day);
    v.push(' ');
    push_two(&mut v, ts.hour);
    v.push(':');
    push_two(&mut v, ts.minute);
    v.push(':');
    push_two(&mut v, ts.second);
    v.push(' ');
    v.push('+');
    v.push('0');
    v.push('0');
    v.push('0');
    v.push('0');
    proof {
        assert(v@ =~= ts_format(*ts));
    }
    v
}

pub open spec fn is_digit(c: char) -> bool {
    48 <= c as u32 <= 57
}

pub open spec fn digit_val(c: char) -> int {
    c as u32 - 48
}

pub open spec fn digits_at(s: Seq<char>, i: int, n: int) -> bool {
    forall|j: int| i <= j < i + n ==> is_digit(s[j])
}

pub open spec fn two_val(s: Seq<char>, i: int) -> int {
    digit_val(s[i]) * 10 + digit_val(s[i + 1])
}

pub open spec fn four_val(s: Seq<char>, i: int) -> int {
    two_val(s, i) * 100 + two_val(s, i + 2)
}

/// A date and clock time with `-`, `:` separators: the common core of the
/// accepted datetime forms.
pub open spec fn datetime_shape(s: Seq<char>) -> bool {
    &&& s.len() >= 19
    &&& digits_at(s, 0, 4)
    &&& s[4] == '-'
    &&& digits_at(s, 5, 2)
    &&& s[7] == '-'
    &&& digits_at(s, 8, 2)
    &&& (s[10] == ' ' || s[10] == 'T')
    &&& digits_at(s, 11, 2)
    &&& s[13] == ':'
    &&& digits_at(s, 14, 2)
    &&& s[16] == ':'
    &&& digits_at(s, 17, 2)
}

/// The six numeric fields of a datetime-shaped string.
pub open spec fn fields_of(s: Seq<char>) -> Timestamp {
    Timestamp {
        year: four_val(s, 0) as u32,
        month: two_val(s, 5) as u32,
        day: two_val(s, 8) as u32,
        hour: two_val(s, 11) as u32,
        minute: two_val(s, 14) as u32,
        second: two_val(s, 17) as u32,
    }
}

pub open spec fn sign_of(c: char) -> int {
    if c == '-' {
        -1
    } else {
        1
    }
}

/// The zone offset in seconds carried by the tail of a datetime-shaped
/// string: nothing or `Z` mean UTC, and `+HHMM` / `-HHMM` may follow the
/// clock directly or after one space.
pub open spec fn offset_of(s: Seq<char>) -> Option<int> {
    if s.len() == 19 {
        Some(0)
    } else if s.len() == 20 && s[19] == 'Z' {
        Some(0)
    } else if s.len() == 24 && (s[19] == '+' || s[19] == '-') && digits_at(s, 20, 4) {
        Some(sign_of(s[19]) * (two_val(s, 20) * 3600 + two_val(s, 22) * 60))
    } else if s.len() == 25 && s[19] == ' ' && (s[20] == '+' || s[20] == '-') && digits_at(
        s,
        21,
        4,
    ) {
        Some(sign_of(s[20]) * (two_val(s, 21) * 3600 + two_val(s, 23) * 60))
    } else {
        None
    }
}

/// The historical header variant: a bare count of UTC epoch seconds.
pub open spec fn epoch_shape(s: Seq<char>) -> bool {
    1 <= s.len() <= 12 && digits_at(s, 0, s.len() as int)
}

pub open spec fn digits_val(s: Seq<char>) -> int
    decreases s.len(),
{
    if s.len() == 0 {
        0
    } else {
        digits_val(s.drop_last()) * 10 + digit_val(s.last())
    }
}

pub open spec fn pow10(n: int) -> int
    decreases n,
{
    if n <= 0 {
        1
    } else {
        10 * pow10(n - 1)
    }
}

/// What the tolerant reader accepts as a `created` value, and the
/// timestamp it denotes.  Fields given with a non-zero zone offset are
/// normalized to UTC; readings that leave the supported years are
/// rejected.
pub open spec fn ts_parse_spec(s: Seq<char>) -> Option<Timestamp> {
    if datetime_shape(s) {
        match offset_of(s) {
            Some(off) => {
                let f = fields_of(s);
                if f.is_valid() {
                    if off == 0 {
                        Some(f)
                    } else {
                        spec_from_epoch(f.epoch() - off)
                    }
                } else {
                    None
                }
            },
            None => None,
        }
    } else if epoch_shape(s) {
        spec_from_epoch(digits_val(s))
    } else {
        None
    }
}

fn is_digit_char(c: char) -> (r: bool)
    ensures
        r == is_digit(c),
{
    let u = c as u32;
    u >= 48 && u <= 57
}

fn all_digits(v: &Vec<char>, i: usize, n: usize) -> (r: bool)
    requires
        i + n <= v@.len(),
    ensures
        r == digits_at(v@, i as int, n as int),
{
    let len = v.len();
    let mut j: usize = i;
    while j < i + n
        invariant
            i <= j <= i + n,
            i + n <= len == v@.len(),
            forall|k: int| i <= k < j ==> is_digit(v@[k]),
        decreases i + n - j,
    {
        if !is_digit_char(v[j]) {
            proof {
                assert(!is_digit(v@[j as int]));
            }
            return false;
        }
        j = j + 1;
    }
    true
}

fn two_digit_val(v: &Vec<char>, i: usize) -> (r: u32)
    requires
        i + 2 <= v@.len(),
        digits_at(v@, i as int, 2),
    ensures
        r == two_val(v@, i as int),
        r < 100,
{
    proof {
        assert(is_digit(v@[i as int]));
        assert(is_digit(v@[i as int + 1]));
    }
    let _bound = v.len();
    let a = v[i] as u32;
    let b = v[i + 1] as u32;
    (a - 48) * 10 + (b - 48)
}

/// Checks the validity bounds of a timestamp's fields.
pub fn timestamp_valid(ts: &Timestamp) -> (r: bool)
    ensures
        r == ts.is_valid(),
{
    ts.year >= MIN_YEAR && ts.year <= MAX_YEAR && ts.month >= 1 && ts.month <= 12 && ts.day >= 1
        && ts.day <= month_days(ts.year, ts.month) && ts.hour < 24 && ts.minute < 60 && ts.second
        < 60
}

/// Reads a `created` value in any of the accepted forms.
pub fn parse_timestamp(v: &Vec<char>) -> (r: Option<Timestamp>)
    ensures
        r == ts_parse_spec(v@),
        r matches Some(ts) ==> ts.is_valid(),
{
    let n = v.len();
    let is_datetime = n >= 19 && all_digits(v, 0, 4) && v[4] == '-' && all_digits(v, 5, 2) && v[7]
        == '-' && all_digits(v, 8, 2) && (v[10] == ' ' || v[10] == 'T') && all_digits(v, 11, 2)
        && v[13] == ':' && all_digits(v, 14, 2) && v[16] == ':' && all_digits(v, 17, 2);
    if is_datetime {
        let off: Option<i64> = if n == 19 {
            Some(0)
        } else if n == 20 && v[19] == 'Z' {
            Some(0)
        } else if n == 24 && (v[19] == '+' || v[19] == '-') && all_digits(v, 20, 4) {
            let hh = two_digit_val(v, 20);
            let mm = two_digit_val(v, 22);
            let mag = (hh * 3600 + mm * 60) as i64;
            Some(if v[19] == '-' { -mag } else { mag })
        } else if n == 25 && v[19] == ' ' && (v[20] == '+' || v[20] == '-') && all_digits(v, 21, 4) {
            let hh = two_digit_val(v, 21);
            let mm = two_digit_val(v, 23);
            let mag = (hh * 3600 + mm * 60) as i64;
            Some(if v[20] == '-' { -mag } else { mag })
        } else {
            None
        };
        match off {
            None => None,
            Some(o) => {
                let f = Timestamp {
                    year: two_digit_val(v, 0) * 100 + two_digit_val(v, 2),
                    month: two_digit_val(v, 5),
                    day: two_digit_val(v, 8),
                    hour: two_digit_val(v, 11),
                    minute: two_digit_val(v, 14),
                    second: two_digit_val(v, 17),
                };
                proof {
                    assert(f == fields_of(v@));
                }
                if !timestamp_valid(&f) {
                    None
                } else if o == 0 {
                    Some(f)
                } else {
                    proof {
                        lemma_epoch_bounds(f);
                    }
                    let e = to_epoch(&f) as i64;
                    let u = e - o;
                    if u < 0 {
                        None
                    } else {
                        from_epoch(u as u64)
                    }
                }
            },
        }
    } else if n >= 1 && n <= 12 && all_digits(v, 0, n) {
        let mut acc: u64 = 0;
        let mut j: usize = 0;
        proof {
            reveal_with_fuel(pow10, 13);
            assert(v@.subrange(0, 0) =~= Seq::<char>::empty());
        }
        while j < n
            invariant
                0 <= j <= n,
                n == v@.len(),
                1 <= n <= 12,
                digits_at(v@, 0, n as int),
                acc == digits_val(v@.subrange(0, j as int)),
                acc < pow10(j as int),
                pow10(12) == 0xE8D4A51000,
            decreases n - j,
    {
            proof {
                assert(is_digit(v@[j as int]));
                assert(pow10(j as int + 1) == 10 * pow10(j as int));
                assert(pow10(j as int) <= pow10(11)) by {
                    reveal_with_fuel(pow10, 13);
                    lemma_pow10_mono(j as int, 11);
                };
            }
            let d = v[j] as u32 - 48;
            acc = acc * 10 + d as u64;
            j = j + 1;
            proof {
                assert(v@.subrange(0, j as int).drop_last() =~= v@.subrange(0, j as int - 1));
                assert(v@.subrange(0, j as int).last() == v@[j as int - 1]);
            }
        }
        proof {
            assert(v@.subrange(0, n as int) =~= v@);
        }
        from_epoch(acc)
    } else {
        None
    }
}

proof fn lemma_pow10_mono(a: int, b: int)
    requires
        0 <= a <= b,
    ensures
        pow10(a) <= pow10(b),
    decreases b - a,
{
    if a < b {
        lemma_pow10_mono(a, b - 1);
        assert(pow10(b) == 10 * pow10(b - 1));
        lemma_pow10_pos(b - 1);
    }
}

proof fn lemma_pow10_pos(n: int)
    ensures
        pow10(n) >= 1,
    decreases (if n >= 0 { n } else { 0 }),
{
    if n > 0 {
        lemma_pow10_pos(n - 1);
    }
}

proof fn lemma_two_digits_val(n: int)
    requires
        0 <= n < 100,
    ensures
        two_digits(n).len() == 2,
        is_digit(two_digits(n)[0]),
        is_digit(two_digits(n)[1]),
        two_val(two_digits(n), 0) == n,
{
    vstd::arithmetic::div_mod::lemma_fundamental_div_mod(n, 10);
    assert(digit_val(digit(n / 10)) == n / 10);
    assert(digit_val(digit(n % 10)) == n % 10);
}

proof fn lemma_four_digits_val(n: int)
    requires
        0 <= n < 10000,
    ensures
        four_digits(n).len() == 4,
        forall|j: int| 0 <= j < 4 ==> is_digit(four_digits(n)[j]),
        four_val(four_digits(n), 0) == n,
{
    vstd::arithmetic::div_mod::lemma_fundamental_div_mod(n, 10);
    vstd::arithmetic::div_mod::lemma_fundamental_div_mod(n / 10, 10);
    vstd::arithmetic::div_mod::lemma_fundamental_div_mod(n / 100, 10);
    vstd::arithmetic::div_mod::lemma_div_denominator(n, 10, 10);
    vstd::arithmetic::div_mod::lemma_div_denominator(n, 100, 10);
    assert(n == 1000 * (n / 1000) + 100 * ((n / 100) % 10) + 10 * ((n / 10) % 10) + n % 10);
}

proof fn lemma_days_before_month_mono(y: int, m1: int, m2: int)
    requires
        m1 <= m2,
    ensures
        days_before_month(y, m1) <= days_before_month(y, m2),
    decreases m2 - m1,
{
    if m1 < m2 {
        lemma_days_before_month_mono(y, m1, m2 - 1);
    }
}

/// A month's days never run past the end of its year.
proof fn lemma_month_within_year(y: int, m: int)
    requires
        1 <= m <= 12,
    ensures
        days_before_month(y, m) + days_in_month(y, m) <= days_in_year(y),
{
    lemma_days_before_december(y);
    assert(days_before_month(y, 13) == days_before_month(y, 12) + days_in_month(y, 12));
    assert(days_before_month(y, 13) == days_in_year(y));
    lemma_days_before_month_mono(y, m + 1, 13);
}

/// Strictly earlier in field order means strictly earlier in seconds.
proof fn lemma_order_strict(a: Timestamp, b: Timestamp)
    requires
        a.is_valid(),
        b.is_valid(),
        a.spec_le(b),
        a != b,
    ensures
        a.epoch() < b.epoch(),
{
    let da = days_before_year(a.year as int) + days_before_month(a.year as int, a.month as int)
        + a.day - 1;
    let db = days_before_year(b.year as int) + days_before_month(b.year as int, b.month as int)
        + b.day - 1;
    lemma_days_before_month_bounds(a.year as int, a.month as int);
    lemma_days_before_month_bounds(b.year as int, b.month as int);
    if a.year < b.year {
        lemma_month_within_year(a.year as int, a.month as int);
        assert(da < days_before_year(a.year as int) + days_in_year(a.year as int));
        assert(days_before_year(a.year as int) + days_in_year(a.year as int)
            == days_before_year(a.year as int + 1));
        lemma_days_before_year_mono(a.year as int + 1, b.year as int);
        assert(da < db);
    } else if a.month < b.month {
        lemma_month_within_year(a.year as int, a.month as int);
        lemma_days_before_month_mono(a.year as int, a.month as int + 1, b.month as int);
        assert(da < db);
    } else if a.day < b.day {
        assert(da < db);
    } else {
        assert(da == db);
    }
}

/// The chronological field order agrees exactly with epoch seconds on
/// valid timestamps: the later time is the one with the larger count.
pub proof fn lemma_order_matches_epoch(a: Timestamp, b: Timestamp)
    requires
        a.is_valid(),
        b.is_valid(),
    ensures
        a.spec_le(b) <==> a.epoch() <= b.epoch(),
{
    if a.spec_le(b) {
        if a != b {
            lemma_order_strict(a, b);
        }
    } else {
        assert(b.spec_le(a) && a != b);
        lemma_order_strict(b, a);
    }
}

/// The serialized form of a valid timestamp holds no newline, so it fits
/// on one header line.
pub proof fn lemma_format_line_safe(ts: Timestamp)
    requires
        ts.is_valid(),
    ensures
        forall|j: int| 0 <= j < ts_format(ts).len() ==> ts_format(ts)[j] != '\n',
{
    let s = ts_format(ts);
    lemma_four_digits_val(ts.year as int);
    lemma_two_digits_val(ts.month as int);
    lemma_two_digits_val(ts.day as int);
    lemma_two_digits_val(ts.hour as int);
    lemma_two_digits_val(ts.minute as int);
    lemma_two_digits_val(ts.second as int);
    assert(s.len() == 25);
    assert(forall|j: int| 0 <= j < s.len() ==> is_digit(s[j]) || s[j] == '-' || s[j] == ' ' || s[j]
        == ':' || s[j] == '+' || s[j] == '0');
    assert(forall|c: char| is_digit(c) ==> c != '\n') by {
        assert('\n' as u32 == 10);
    }
}

/// A serialized timestamp reads back as itself: the tolerant reader is a
/// left inverse of the writer on valid timestamps.
pub proof fn lemma_timestamp_round_trip(ts: Timestamp)
    requires
        ts.is_valid(),
    ensures
        ts_parse_spec(ts_format(ts)) == Some(ts),
{
    let s = ts_format(ts);
    lemma_four_digits_val(ts.year as int);
    lemma_two_digits_val(ts.month as int);
    lemma_two_digits_val(ts.day as int);
    lemma_two_digits_val(ts.hour as int);
    lemma_two_digits_val(ts.minute as int);
    lemma_two_digits_val(ts.second as int);
    assert(s.len() == 25);
    assert(s =~= four_digits(ts.year as int) + seq!['-'] + two_digits(ts.month as int) + seq!['-']
        + two_digits(ts.day as int) + seq![' '] + two_digits(ts.hour as int) + seq![':']
        + two_digits(ts.minute as int) + seq![':'] + two_digits(ts.second as int) + seq![
        ' ',
        '+',
        '0',
        '0',
        '0',
        '0',
    ]);
    assert(s[0] == four_digits(ts.year as int)[0]);
    assert(s[1] == four_digits(ts.year as int)[1]);
    assert(s[2] == four_digits(ts.year as int)[2]);
    assert(s[3] == four_digits(ts.year as int)[3]);
    assert(s[4] == '-');
    assert(s[5] == two_digits(ts.month as int)[0]);
    assert(s[6] == two_digits(ts.month as int)[1]);
    assert(s[7] == '-');
    assert(s[8] == two_digits(ts.day as int)[0]);
    assert(s[9] == two_digits(ts.day as int)[1]);
    assert(s[10] == ' ');
    assert(s[11] == two_digits(ts.hour as int)[0]);
    assert(s[12] == two_digits(ts.hour as int)[1]);
    assert(s[13] == ':');
    assert(s[14] == two_digits(ts.minute as int)[0]);
    assert(s[15] == two_digits(ts.minute as int)[1]);
    assert(s[16] == ':');
    assert(s[17] == two_digits(ts.second as int)[0]);
    assert(s[18] == two_digits(ts.second as int)[1]);
    assert(s[19] == ' ');
    assert(s[20] == '+');
    assert(s[21] == '0' && s[22] == '0' && s[23] == '0' && s[24] == '0');
    assert(datetime_shape(s));
    assert(digit_val('0') == 0);
    assert(offset_of(s) == Some(0int));
    assert(four_val(s, 0) == ts.year);
    assert(two_val(s, 5) == ts.month);
    assert(two_val(s, 8) == ts.day);
    assert(two_val(s, 11) == ts.hour);
    assert(two_val(s, 14) == ts.minute);
    assert(two_val(s, 17) == ts.second);
    assert(fields_of(s) == ts);
}

} // verus!
