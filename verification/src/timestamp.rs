//! An instant, parsed from the RFC 3339 profile of ISO 8601, and a calendar
//! day, parsed from `YYYY-MM-DD`.
//!
//! The format types `generated.at` and `verified[].at` as "an ISO 8601 datetime",
//! which names a family of formats rather than one. Its week date is the member
//! that bites: `2026-W01-1T00:00:00Z` denotes 2025-12-29, matches the calendar
//! form's length and separator positions, and sorts after every calendar date
//! because `W` exceeds every digit — so comparing the two fields as strings is
//! inverted for input the format permits. The reading here is narrowed to
//! RFC 3339, the profile every example of the format already uses.

use vstd::prelude::*;

use crate::text::{chars_of, is_ascii_digit, is_digit};

verus! {

/// The value of an ASCII digit.
pub open spec fn digit_value(c: char) -> int {
    (c as u32) as int - 48
}

/// Every character of `s` is an ASCII digit.
pub open spec fn all_digits(s: Seq<char>) -> bool {
    forall|i: int| 0 <= i < s.len() ==> is_digit(#[trigger] s[i])
}

/// The base-ten value of a run of digits.
pub open spec fn decimal(s: Seq<char>) -> int
    decreases s.len(),
{
    if s.len() == 0 {
        0
    } else {
        decimal(s.drop_last()) * 10 + digit_value(s.last())
    }
}

/// The value of a non-empty run of ASCII digits; `None` for anything else,
/// signs and whitespace included.
pub open spec fn number(s: Seq<char>) -> Option<int> {
    if s.len() > 0 && all_digits(s) {
        Some(decimal(s))
    } else {
        None
    }
}

/// A year divisible by 4, except centuries not divisible by 400.
pub open spec fn is_leap(year: int) -> bool {
    year % 4 == 0 && (year % 100 != 0 || year % 400 == 0)
}

/// Days in a month of a proleptic-Gregorian year; 0 for a month that is not
/// one.
pub open spec fn month_days(year: int, month: int) -> int {
    if month == 1 || month == 3 || month == 5 || month == 7 || month == 8 || month == 10 || month
        == 12 {
        31
    } else if month == 4 || month == 6 || month == 9 || month == 11 {
        30
    } else if month == 2 {
        if is_leap(year) {
            29
        } else {
            28
        }
    } else {
        0
    }
}

/// Days from 1970-01-01 to a proleptic-Gregorian civil date (Hinnant's
/// `days_from_civil`, with floor division).
pub open spec fn civil_days(year: int, month: int, day: int) -> int {
    let y = if month <= 2 {
        year - 1
    } else {
        year
    };
    let era = y / 400;
    let yoe = y - era * 400;
    let mp = if month > 2 {
        month - 3
    } else {
        month + 9
    };
    let doy = (153 * mp + 2) / 5 + day - 1;
    let doe = yoe * 365 + yoe / 4 - yoe / 100 + doy;
    era * 146097 + doe - 719468
}

/// The `time-offset` in seconds: `Z` (either case) for UTC, or `±hh:mm` with
/// `hh <= 23` and `mm <= 59`.
pub open spec fn offset_value(s: Seq<char>) -> Option<int> {
    if s =~= seq!['Z'] || s =~= seq!['z'] {
        Some(0)
    } else if s.len() == 6 && s[3] == ':' && (s[0] == '+' || s[0] == '-') {
        match (number(s.subrange(1, 3)), number(s.subrange(4, 6))) {
            (Some(h), Some(m)) => if h <= 23 && m <= 59 {
                Some(
                    if s[0] == '+' {
                        h * 3600 + m * 60
                    } else {
                        -(h * 3600 + m * 60)
                    },
                )
            } else {
                None
            },
            _ => None,
        }
    } else {
        None
    }
}

/// How many ASCII digits `s` opens with.
pub open spec fn digit_run(s: Seq<char>) -> nat
    decreases s.len(),
{
    if s.len() > 0 && is_digit(s[0]) {
        1 + digit_run(s.drop_first())
    } else {
        0
    }
}

/// The first `p` fractional digits of `f` as a number, a missing digit
/// reading as zero.
pub open spec fn scaled_fraction(f: Seq<char>, p: int) -> int
    decreases p,
{
    if p <= 0 {
        0
    } else {
        scaled_fraction(f, p - 1) * 10 + if p - 1 < f.len() {
            digit_value(f[p - 1])
        } else {
            0
        }
    }
}

/// What follows the seconds: an optional `.` and at least one fractional digit,
/// then the offset. Gives the nanoseconds (the first nine digits, zero-padded
/// on the right, the rest truncated) and the offset in seconds.
pub open spec fn fraction_and_offset(rest: Seq<char>) -> Option<(int, int)> {
    if rest.len() > 0 && rest[0] == '.' {
        let t = digit_run(rest.skip(1)) as int;
        if t == 0 {
            None
        } else {
            match offset_value(rest.skip(1 + t)) {
                Some(o) => Some((scaled_fraction(rest.subrange(1, 1 + t), 9), o)),
                None => None,
            }
        }
    } else {
        match offset_value(rest) {
            Some(o) => Some((0, o)),
            None => None,
        }
    }
}

/// The date and time fields of an RFC 3339 `date-time` — `YYYY-MM-DD`, `T` in
/// either case, `hh:mm:ss` — when each is present and in range: the month and
/// day must exist in the calendar, hours run to 23, minutes to 59, and seconds
/// to 60 (a leap second).
pub open spec fn date_time_fields(s: Seq<char>) -> Option<(int, int, int, int, int, int)> {
    if s.len() < 20 || s[4] != '-' || s[7] != '-' || s[13] != ':' || s[16] != ':' || !(s[10]
        == 'T' || s[10] == 't') {
        None
    } else {
        match (
            number(s.subrange(0, 4)),
            number(s.subrange(5, 7)),
            number(s.subrange(8, 10)),
            number(s.subrange(11, 13)),
            number(s.subrange(14, 16)),
            number(s.subrange(17, 19)),
        ) {
            (Some(y), Some(mo), Some(d), Some(h), Some(mi), Some(se)) => {
                if mo < 1 || mo > 12 || d < 1 || d > month_days(y, mo) || h > 23 || mi > 59 || se
                    > 60 {
                    None
                } else {
                    Some((y, mo, d, h, mi, se))
                }
            },
            _ => None,
        }
    }
}

/// An RFC 3339 `date-time`, read as `(seconds since the epoch, nanoseconds)`:
/// the date and time fields, an optional fraction, and an offset subtracted so
/// every instant has one value. A leap second lands on the following minute.
pub open spec fn rfc3339(s: Seq<char>) -> Option<(int, int)> {
    match date_time_fields(s) {
        Some((y, mo, d, h, mi, se)) => match fraction_and_offset(s.skip(19)) {
            Some((n, off)) => Some(
                (civil_days(y, mo, d) * 86400 + h * 3600 + mi * 60 + se - off, n),
            ),
            None => None,
        },
        None => None,
    }
}

/// A `YYYY-MM-DD` date naming a day the calendar has, as `(year, month, day)`.
pub open spec fn calendar_date(s: Seq<char>) -> Option<(int, int, int)> {
    if s.len() != 10 || s[4] != '-' || s[7] != '-' {
        None
    } else {
        match (number(s.subrange(0, 4)), number(s.subrange(5, 7)), number(s.subrange(8, 10))) {
            (Some(y), Some(m), Some(d)) => if 1 <= m <= 12 && 1 <= d <= month_days(y, m) {
                Some((y, m, d))
            } else {
                None
            },
            _ => None,
        }
    }
}

/// A point in time, read from an RFC 3339 `date-time`.
///
/// Ordering and equality are by the instant, not by the text: an offset is
/// normalized away, so `2026-01-01T00:00:00Z` and `2026-01-01T02:00:00+02:00`
/// compare equal.
#[derive(Debug, Clone, Copy, PartialEq, Eq, PartialOrd, Ord, Hash)]
pub struct Timestamp {
    /// Seconds from 1970-01-01T00:00:00Z, ignoring leap seconds.
    seconds: i64,
    /// Fractional seconds, truncated to nanoseconds.
    nanoseconds: u32,
}

impl View for Timestamp {
    type V = (int, int);

    closed spec fn view(&self) -> (int, int) {
        (self.seconds as int, self.nanoseconds as int)
    }
}

/// A calendar day, read from `YYYY-MM-DD`. Ordered chronologically.
#[derive(Debug, Clone, Copy, PartialEq, Eq, PartialOrd, Ord, Hash)]
pub struct Date {
    year: u16,
    month: u8,
    day: u8,
}

impl View for Date {
    type V = (int, int, int);

    closed spec fn view(&self) -> (int, int, int) {
        (self.year as int, self.month as int, self.day as int)
    }
}

/// The value of `cs[lo..hi]` when it is a non-empty run of ASCII digits.
pub(crate) fn digits(cs: &[char], lo: usize, hi: usize) -> (r: Option<i64>)
    requires
        lo <= hi <= cs@.len(),
        hi - lo <= 4,
    ensures
        match number(cs@.subrange(lo as int, hi as int)) {
            Some(v) => r == Some(v as i64) && 0 <= v < 10000,
            None => r is None,
        },
{
    if lo == hi {
        return None;
    }
    let mut value: i64 = 0;
    let mut i = lo;
    while i < hi
        invariant
            lo <= i <= hi <= cs@.len(),
            hi - lo <= 4,
            all_digits(cs@.subrange(lo as int, i as int)),
            value == decimal(cs@.subrange(lo as int, i as int)),
            0 <= value < pow10(i - lo),
        decreases hi - i,
    {
        let c = cs[i];
        if !is_ascii_digit(c) {
            assert(!all_digits(cs@.subrange(lo as int, hi as int))) by {
                assert(cs@.subrange(lo as int, hi as int)[i - lo] == c);
            }
            return None;
        }
        let ghost prev = cs@.subrange(lo as int, i as int);
        assert(cs@.subrange(lo as int, i + 1).drop_last() =~= prev);
        value = value * 10 + (c as u32 - 48) as i64;
        i += 1;
    }
    Some(value)
}

/// `10^n` for the small widths the fields use.
spec fn pow10(n: int) -> int {
    if n <= 0 {
        1
    } else if n == 1 {
        10
    } else if n == 2 {
        100
    } else if n == 3 {
        1000
    } else {
        10000
    }
}

/// Days in `month` of `year`.
fn days_in_month(year: i64, month: i64) -> (r: i64)
    ensures
        r == month_days(year as int, month as int),
{
    if month == 1 || month == 3 || month == 5 || month == 7 || month == 8 || month == 10 || month
        == 12 {
        31
    } else if month == 4 || month == 6 || month == 9 || month == 11 {
        30
    } else if month == 2 {
        if year % 4 == 0 && (year % 100 != 0 || year % 400 == 0) {
            29
        } else {
            28
        }
    } else {
        0
    }
}

/// Days from 1970-01-01 to a civil date, by Hinnant's algorithm.
fn days_from_civil(year: i64, month: i64, day: i64) -> (r: i64)
    requires
        0 <= year <= 9999,
        1 <= month <= 12,
        1 <= day <= 31,
    ensures
        r == civil_days(year as int, month as int, day as int),
        -800_000 <= r <= 3_000_000,
{
    let y = if month <= 2 {
        year - 1
    } else {
        year
    };
    let era = if y >= 0 {
        y / 400
    } else {
        -1
    };
    let yoe = y - era * 400;
    let mp = if month > 2 {
        month - 3
    } else {
        month + 9
    };
    let doy = (153 * mp + 2) / 5 + day - 1;
    let doe = yoe * 365 + yoe / 4 - yoe / 100 + doy;
    era * 146097 + doe - 719468
}

/// How many ASCII digits `cs[lo..hi]` opens with.
fn count_digits(cs: &[char], lo: usize, hi: usize) -> (r: usize)
    requires
        lo <= hi <= cs@.len(),
    ensures
        lo + r <= hi,
        r == digit_run(cs@.subrange(lo as int, hi as int)),
{
    let mut i = lo;
    while i < hi && is_ascii_digit(cs[i])
        invariant
            lo <= i <= hi <= cs@.len(),
            digit_run(cs@.subrange(lo as int, hi as int)) == (i - lo) + digit_run(
                cs@.subrange(i as int, hi as int),
            ),
        decreases hi - i,
    {
        assert(cs@.subrange(i as int, hi as int).drop_first() =~= cs@.subrange(i + 1, hi as int));
        i += 1;
    }
    i - lo
}

/// The first nine fractional digits of `cs[lo..hi]` (all digits) as
/// nanoseconds, zero-padded on the right.
fn nanoseconds_from(cs: &[char], lo: usize, hi: usize) -> (r: u32)
    requires
        lo <= hi <= cs@.len(),
        all_digits(cs@.subrange(lo as int, hi as int)),
    ensures
        r == scaled_fraction(cs@.subrange(lo as int, hi as int), 9),
        r < 1_000_000_000,
{
    let ghost f = cs@.subrange(lo as int, hi as int);
    let mut nanoseconds: u32 = 0;
    let mut position: usize = 0;
    while position < 9
        invariant
            position <= 9,
            lo <= hi <= cs@.len(),
            f == cs@.subrange(lo as int, hi as int),
            all_digits(f),
            nanoseconds == scaled_fraction(f, position as int),
            nanoseconds < pow10_9(position as int),
        decreases 9 - position,
    {
        proof {
            lemma_pow10_9(position as int);
        }
        let digit: u32 = if position < hi - lo {
            assert(is_digit(f[position as int]));
            assert(f[position as int] == cs@[lo + position]);
            cs[lo + position] as u32 - 48
        } else {
            0
        };
        nanoseconds = nanoseconds * 10 + digit;
        position += 1;
    }
    proof {
        lemma_pow10_9(8);
    }
    nanoseconds
}

/// `10^n` stays below `10^9` up to `n = 8`.
proof fn lemma_pow10_9(n: int)
    requires
        0 <= n <= 8,
    ensures
        pow10_9(n) <= 100_000_000,
        pow10_9(n + 1) == 10 * pow10_9(n),
{
    reveal_with_fuel(pow10_9, 10);
}

/// `10^n` up to nine digits.
spec fn pow10_9(n: int) -> int
    decreases n,
{
    if n <= 0 {
        1
    } else {
        10 * pow10_9(n - 1)
    }
}

/// The `time-offset` `cs[lo..hi]` in seconds.
fn offset_seconds(cs: &[char], lo: usize, hi: usize) -> (r: Option<i64>)
    requires
        lo <= hi <= cs@.len(),
    ensures
        match offset_value(cs@.subrange(lo as int, hi as int)) {
            Some(v) => r == Some(v as i64) && -86400 < v < 86400,
            None => r is None,
        },
{
    let ghost s = cs@.subrange(lo as int, hi as int);
    if hi - lo == 1 && (cs[lo] == 'Z' || cs[lo] == 'z') {
        assert(s =~= seq![cs@[lo as int]]);
        return Some(0);
    }
    assert(!(s =~= seq!['Z']) && !(s =~= seq!['z'])) by {
        if s.len() == 1 {
            assert(s[0] == cs@[lo as int]);
        }
    }
    if hi - lo != 6 || cs[lo + 3] != ':' {
        return None;
    }
    let sign: i64 = if cs[lo] == '+' {
        1
    } else if cs[lo] == '-' {
        -1
    } else {
        return None;
    };
    assert(s.subrange(1, 3) =~= cs@.subrange(lo + 1, lo + 3));
    assert(s.subrange(4, 6) =~= cs@.subrange(lo + 4, lo + 6));
    let hours = match digits(cs, lo + 1, lo + 3) {
        Some(h) => h,
        None => return None,
    };
    let minutes = match digits(cs, lo + 4, lo + 6) {
        Some(m) => m,
        None => return None,
    };
    if hours > 23 || minutes > 59 {
        return None;
    }
    Some(sign * (hours * 3600 + minutes * 60))
}

impl Timestamp {
    /// Read an RFC 3339 `date-time`, or `None` when `text` is not one.
    ///
    /// `T` and `Z` are accepted in either case, because RFC 3339's ABNF literals
    /// are case-insensitive. The space separator its section 5.6 note allows "by mutual
    /// agreement" is rejected.
    pub fn parse(text: &str) -> (r: Option<Timestamp>)
        ensures
            match rfc3339(text@) {
                Some(v) => r is Some && r->0@ == v,
                None => r is None,
            },
    {
        let cs = chars_of(text);
        let (year, month, day, hour, minute, second) = match date_time(&cs) {
            Some(f) => f,
            None => return None,
        };
        let (nanoseconds, offset) = match fraction_offset(&cs) {
            Some(f) => f,
            None => return None,
        };
        let days = days_from_civil(year, month, day);
        Some(
            Timestamp {
                seconds: days * 86_400 + hour * 3_600 + minute * 60 + second - offset,
                nanoseconds,
            },
        )
    }

    /// Seconds from 1970-01-01T00:00:00Z, leap seconds ignored.
    pub fn seconds(&self) -> (r: i64)
        ensures
            r == self@.0,
    {
        self.seconds
    }

    /// The fractional part, in nanoseconds.
    pub fn nanoseconds(&self) -> (r: u32)
        ensures
            r == self@.1,
    {
        self.nanoseconds
    }
}

/// The date and time fields at the head of `cs`.
fn date_time(cs: &[char]) -> (r: Option<(i64, i64, i64, i64, i64, i64)>)
    ensures
        match date_time_fields(cs@) {
            Some((y, mo, d, h, mi, se)) => r == Some(
                (y as i64, mo as i64, d as i64, h as i64, mi as i64, se as i64),
            ) && 0 <= y <= 9999 && 1 <= d <= 31 && 0 <= h && 0 <= mi && 0 <= se,
            None => r is None,
        },
{
    if cs.len() < 20 {
        return None;
    }
    if cs[4] != '-' || cs[7] != '-' || cs[13] != ':' || cs[16] != ':' {
        return None;
    }
    if !(cs[10] == 'T' || cs[10] == 't') {
        return None;
    }
    let year = match digits(cs, 0, 4) {
        Some(v) => v,
        None => return None,
    };
    let month = match digits(cs, 5, 7) {
        Some(v) => v,
        None => return None,
    };
    let day = match digits(cs, 8, 10) {
        Some(v) => v,
        None => return None,
    };
    let hour = match digits(cs, 11, 13) {
        Some(v) => v,
        None => return None,
    };
    let minute = match digits(cs, 14, 16) {
        Some(v) => v,
        None => return None,
    };
    let second = match digits(cs, 17, 19) {
        Some(v) => v,
        None => return None,
    };
    if month < 1 || month > 12 || day < 1 || day > days_in_month(year, month) {
        return None;
    }
    if hour > 23 || minute > 59 || second > 60 {
        return None;
    }
    Some((year, month, day, hour, minute, second))
}

/// The fraction and offset that follow the seconds of a date-time in `cs`.
fn fraction_offset(cs: &[char]) -> (r: Option<(u32, i64)>)
    requires
        cs@.len() >= 20,
    ensures
        match fraction_and_offset(cs@.skip(19)) {
            Some((nanos, off)) => r == Some((nanos as u32, off as i64)) && -86400 < off < 86400
                && 0 <= nanos < 1_000_000_000,
            None => r is None,
        },
{
    let n = cs.len();
    let ghost rest = cs@.skip(19);
    assert(rest =~= cs@.subrange(19, n as int));
    if cs[19] == '.' {
        let taken = count_digits(cs, 20, n);
        assert(cs@.subrange(20, n as int) =~= rest.skip(1));
        if taken == 0 {
            return None;
        }
        assert(rest.subrange(1, 1 + taken) =~= cs@.subrange(20, 20 + taken));
        assert(rest.skip(1 + taken) =~= cs@.subrange(20 + taken, n as int));
        proof {
            lemma_digit_run(cs@.subrange(20, n as int));
            assert forall|i: int| 0 <= i < taken implies is_digit(
                #[trigger] cs@.subrange(20, 20 + taken)[i],
            ) by {
                assert(cs@.subrange(20, 20 + taken)[i] == cs@.subrange(20, n as int)[i]);
            }
        }
        let nanos = nanoseconds_from(cs, 20, 20 + taken);
        match offset_seconds(cs, 20 + taken, n) {
            Some(o) => Some((nanos, o)),
            None => None,
        }
    } else {
        match offset_seconds(cs, 19, n) {
            Some(o) => Some((0u32, o)),
            None => None,
        }
    }
}

/// The first `digit_run(s)` characters of `s` are digits.
proof fn lemma_digit_run(s: Seq<char>)
    ensures
        digit_run(s) <= s.len(),
        forall|i: int| 0 <= i < digit_run(s) ==> is_digit(#[trigger] s[i]),
    decreases s.len(),
{
    if s.len() > 0 && is_digit(s[0]) {
        lemma_digit_run(s.drop_first());
        assert forall|i: int| 0 <= i < digit_run(s) implies is_digit(#[trigger] s[i]) by {
            if i > 0 {
                assert(s[i] == s.drop_first()[i - 1]);
            }
        }
    }
}

impl Date {
    /// Read a `YYYY-MM-DD` date naming a real calendar day, or `None`.
    pub fn parse(text: &str) -> (r: Option<Date>)
        ensures
            match calendar_date(text@) {
                Some(v) => r is Some && r->0@ == v,
                None => r is None,
            },
    {
        let cs = chars_of(text);
        if cs.len() != 10 || cs[4] != '-' || cs[7] != '-' {
            return None;
        }
        let year = match digits(&cs, 0, 4) {
            Some(v) => v,
            None => return None,
        };
        let month = match digits(&cs, 5, 7) {
            Some(v) => v,
            None => return None,
        };
        let day = match digits(&cs, 8, 10) {
            Some(v) => v,
            None => return None,
        };
        if month < 1 || month > 12 || day < 1 || day > days_in_month(year, month) {
            return None;
        }
        Some(Date { year: year as u16, month: month as u8, day: day as u8 })
    }

    /// The year.
    pub fn year(&self) -> (r: u16)
        ensures
            r == self@.0,
    {
        self.year
    }

    /// The month, 1 to 12.
    pub fn month(&self) -> (r: u8)
        ensures
            r == self@.1,
    {
        self.month
    }

    /// The day of the month.
    pub fn day(&self) -> (r: u8)
        ensures
            r == self@.2,
    {
        self.day
    }
}


// ---------------------------------------------------------------------------
// Text order and time order.
// ---------------------------------------------------------------------------
/// A UTC instant written out in full, `YYYY-MM-DDThh:mm:ssZ`: twenty
/// characters, digits in every field.
pub open spec fn canonical_utc(s: Seq<char>) -> bool {
    &&& s.len() == 20
    &&& s[4] == '-' && s[7] == '-' && s[10] == 'T' && s[13] == ':' && s[16] == ':' && s[19] == 'Z'
    &&& forall|i: int|
        0 <= i < 20 && i != 4 && i != 7 && i != 10 && i != 13 && i != 16 && i != 19 ==> is_digit(
            #[trigger] s[i],
        )
}

/// Two texts of one length differ first at a position where the first is
/// smaller, when the first sorts before the second.
proof fn lemma_first_difference(a: Seq<char>, b: Seq<char>)
    requires
        a.len() == b.len(),
        crate::text::lex_lt(a, b),
    ensures
        exists|k: int| 0 <= k < a.len() && a[k] < b[k] && forall|i: int| 0 <= i < k ==> a[i] == b[i],
    decreases a.len(),
{
    if a[0] < b[0] {
        assert(forall|i: int| 0 <= i < 0 ==> a[i] == b[i]);
    } else {
        lemma_first_difference(a.drop_first(), b.drop_first());
        let k = choose|k: int|
            0 <= k < a.drop_first().len() && a.drop_first()[k] < b.drop_first()[k] && forall|i: int|
                0 <= i < k ==> a.drop_first()[i] == b.drop_first()[i];
        assert forall|i: int| 0 <= i < k + 1 implies a[i] == b[i] by {
            if i > 0 {
                assert(a.drop_first()[i - 1] == a[i]);
                assert(b.drop_first()[i - 1] == b[i]);
            }
        }
        assert(a[k + 1] < b[k + 1]);
    }
}

/// Digit runs of one length compare as numbers the way they compare as text.
proof fn lemma_decimal_lt(p: Seq<char>, q: Seq<char>, k: int)
    requires
        p.len() == q.len(),
        all_digits(p),
        all_digits(q),
        0 <= k < p.len(),
        forall|i: int| 0 <= i < k ==> p[i] == q[i],
        p[k] < q[k],
    ensures
        decimal(p) < decimal(q),
    decreases p.len(),
{
    let n = p.len() as int;
    assert(is_digit(p[n - 1]) && is_digit(q[n - 1]));
    if k == n - 1 {
        assert(p.drop_last() =~= q.drop_last());
    } else {
        assert forall|i: int| 0 <= i < p.drop_last().len() implies is_digit(#[trigger] p.drop_last()[i]) by {
            assert(is_digit(p[i]));
        }
        assert forall|i: int| 0 <= i < q.drop_last().len() implies is_digit(#[trigger] q.drop_last()[i]) by {
            assert(is_digit(q[i]));
        }
        lemma_decimal_lt(p.drop_last(), q.drop_last(), k);
    }
}

/// A field of two texts equal up to their first difference `k`: equal when it
/// ends by `k`, smaller in the first when it holds `k`.
proof fn lemma_field_order(a: Seq<char>, b: Seq<char>, lo: int, hi: int, k: int)
    requires
        0 <= lo < hi <= a.len(),
        a.len() == b.len(),
        all_digits(a.subrange(lo, hi)),
        all_digits(b.subrange(lo, hi)),
        0 <= k < a.len(),
        forall|i: int| 0 <= i < k ==> a[i] == b[i],
        a[k] < b[k],
    ensures
        k >= hi ==> decimal(a.subrange(lo, hi)) == decimal(b.subrange(lo, hi)),
        lo <= k < hi ==> decimal(a.subrange(lo, hi)) < decimal(b.subrange(lo, hi)),
{
    if k >= hi {
        assert(a.subrange(lo, hi) =~= b.subrange(lo, hi));
    } else if lo <= k {
        let p = a.subrange(lo, hi);
        let q = b.subrange(lo, hi);
        assert forall|i: int| 0 <= i < k - lo implies p[i] == q[i] by {
            assert(p[i] == a[lo + i] && q[i] == b[lo + i]);
        }
        lemma_decimal_lt(p, q, k - lo);
    }
}

/// Within a month, each day is one more than the last.
proof fn lemma_civil_day(y: int, m: int, d: int)
    ensures
        civil_days(y, m, d) == civil_days(y, m, 1) + d - 1,
{
}

/// The month after `(y, m)`.
pub open spec fn next_month(y: int, m: int) -> (int, int) {
    if m == 12 {
        (y + 1, 1)
    } else {
        (y, m + 1)
    }
}

/// The days from the March of the year `y` runs on to the following March:
/// what `civil_days` counts up to the first of March of `y`, leaving out the
/// fixed epoch.
pub open spec fn march_days(y: int) -> int {
    let era = y / 400;
    let yoe = y - era * 400;
    era * 146097 + yoe * 365 + yoe / 4 - yoe / 100
}

/// From a year of an era to the next within it: a leap day when the next is
/// divisible by 4 and not by 100.
proof fn lemma_march_within_era(q: int, r: int)
    requires
        0 <= r < 399,
    ensures
        march_days(400 * q + r + 1) - march_days(400 * q + r) == 365 + (if (r + 1) % 4 == 0 && (r + 1)
            % 100 != 0 {
            1int
        } else {
            0int
        }),
{
    vstd::arithmetic::div_mod::lemma_fundamental_div_mod_converse(400 * q + r, 400, q, r);
    vstd::arithmetic::div_mod::lemma_fundamental_div_mod_converse(400 * q + r + 1, 400, q, r + 1);
    let a4 = r / 4;
    let b4 = (r + 1) / 4;
    vstd::arithmetic::div_mod::lemma_fundamental_div_mod(r, 4);
    vstd::arithmetic::div_mod::lemma_fundamental_div_mod(r + 1, 4);
    vstd::arithmetic::div_mod::lemma_fundamental_div_mod(r, 100);
    vstd::arithmetic::div_mod::lemma_fundamental_div_mod(r + 1, 100);
    assert(b4 - a4 == if (r + 1) % 4 == 0 { 1int } else { 0int }) by (nonlinear_arith)
        requires
            0 <= r,
            r == 4 * a4 + r % 4,
            r + 1 == 4 * b4 + (r + 1) % 4,
            0 <= r % 4 < 4,
            0 <= (r + 1) % 4 < 4,
    ;
    assert((r + 1) / 100 - r / 100 == if (r + 1) % 100 == 0 { 1int } else { 0int }) by (nonlinear_arith)
        requires
            0 <= r,
            r == 100 * (r / 100) + r % 100,
            r + 1 == 100 * ((r + 1) / 100) + (r + 1) % 100,
            0 <= r % 100 < 100,
            0 <= (r + 1) % 100 < 100,
    ;
}

/// From the last year of an era to the first of the next: the era's final
/// year ends in a leap day.
proof fn lemma_march_across_era(q: int)
    ensures
        march_days(400 * q + 400) - march_days(400 * q + 399) == 366,
{
    vstd::arithmetic::div_mod::lemma_fundamental_div_mod_converse(400 * q + 399, 400, q, 399);
    vstd::arithmetic::div_mod::lemma_fundamental_div_mod_converse(400 * q + 400, 400, q + 1, 0);
}

/// March the first comes February's days after February the first: the years
/// the day count runs on begin in March, so this is where a leap day falls.
proof fn lemma_march_step(y: int)
    ensures
        civil_days(y, 3, 1) == civil_days(y, 2, 1) + month_days(y, 2),
{
    assert(civil_days(y, 2, 1) == march_days(y - 1) + 337 - 719468);
    assert(civil_days(y, 3, 1) == march_days(y) - 719468);
    let q = (y - 1) / 400;
    let r = (y - 1) % 400;
    vstd::arithmetic::div_mod::lemma_fundamental_div_mod(y - 1, 400);
    assert(y - 1 == 400 * q + r && 0 <= r < 400);
    if r == 399 {
        lemma_march_across_era(q);
        vstd::arithmetic::div_mod::lemma_fundamental_div_mod_converse(y, 400, q + 1, 0);
        vstd::arithmetic::div_mod::lemma_fundamental_div_mod_converse(y, 4, 100 * q + 100, 0);
        assert(is_leap(y));
    } else {
        lemma_march_within_era(q, r);
        vstd::arithmetic::div_mod::lemma_fundamental_div_mod_converse(y, 400, q, r + 1);
        vstd::arithmetic::div_mod::lemma_fundamental_div_mod(r + 1, 4);
        vstd::arithmetic::div_mod::lemma_fundamental_div_mod(r + 1, 100);
        let a = (r + 1) / 4;
        let c = (r + 1) / 100;
        vstd::arithmetic::div_mod::lemma_fundamental_div_mod_converse(y, 4, 100 * q + a, (r + 1) % 4);
        vstd::arithmetic::div_mod::lemma_fundamental_div_mod_converse(y, 100, 4 * q + c, (r + 1) % 100);
        assert(is_leap(y) == ((r + 1) % 4 == 0 && (r + 1) % 100 != 0));
    }
}

/// The first of the next month comes a month's days after the first of this
/// one.
proof fn lemma_month_step(y: int, m: int)
    requires
        1 <= m <= 12,
    ensures
        civil_days(next_month(y, m).0, next_month(y, m).1, 1) == civil_days(y, m, 1) + month_days(y, m),
{
    if m == 2 {
        lemma_march_step(y);
    } else if m == 12 {
        assert(civil_days(y + 1, 1, 1) - civil_days(y, 12, 1) == 306 - 275);
    } else if m == 1 {
        assert(civil_days(y, 2, 1) - civil_days(y, 1, 1) == 337 - 306);
    } else {
        assert(civil_days(y, m + 1, 1) - civil_days(y, m, 1) == (153 * (m - 2) + 2) / 5 - (153 * (m - 3) + 2) / 5);
        assert(m == 3 || m == 4 || m == 5 || m == 6 || m == 7 || m == 8 || m == 9 || m == 10 || m == 11);
    }
}

/// A run of digits is worth at least nothing.
proof fn lemma_decimal_nonneg(s: Seq<char>)
    requires
        all_digits(s),
    ensures
        decimal(s) >= 0,
    decreases s.len(),
{
    if s.len() > 0 {
        assert forall|i: int| 0 <= i < s.drop_last().len() implies is_digit(#[trigger] s.drop_last()[i]) by {
            assert(is_digit(s[i]));
        }
        lemma_decimal_nonneg(s.drop_last());
        assert(is_digit(s.last()));
    }
}

/// Days in a month of the calendar number at least 28.
proof fn lemma_month_days_floor(y: int, m: int)
    requires
        1 <= m <= 12,
    ensures
        month_days(y, m) >= 28,
{
}

/// An earlier month ends no later than a later one begins.
proof fn lemma_months_ordered(y1: int, m1: int, y2: int, m2: int)
    requires
        1 <= m1 <= 12,
        1 <= m2 <= 12,
        y1 * 12 + m1 < y2 * 12 + m2,
    ensures
        civil_days(y1, m1, 1) + month_days(y1, m1) <= civil_days(y2, m2, 1),
    decreases y2 * 12 + m2 - (y1 * 12 + m1),
{
    lemma_month_step(y1, m1);
    let (ny, nm) = next_month(y1, m1);
    assert(ny * 12 + nm == y1 * 12 + m1 + 1);
    if ny * 12 + nm < y2 * 12 + m2 {
        lemma_months_ordered(ny, nm, y2, m2);
        lemma_month_days_floor(ny, nm);
    } else {
        assert(ny == y2 && nm == m2);
    }
}

/// Calendar dates in order fall on days in order.
proof fn lemma_dates_ordered(y1: int, m1: int, d1: int, y2: int, m2: int, d2: int)
    requires
        1 <= m1 <= 12,
        1 <= m2 <= 12,
        1 <= d1 <= month_days(y1, m1),
        1 <= d2 <= month_days(y2, m2),
        y1 < y2 || (y1 == y2 && m1 < m2) || (y1 == y2 && m1 == m2 && d1 < d2),
    ensures
        civil_days(y1, m1, d1) < civil_days(y2, m2, d2),
{
    lemma_civil_day(y1, m1, d1);
    lemma_civil_day(y2, m2, d2);
    if !(y1 == y2 && m1 == m2) {
        lemma_months_ordered(y1, m1, y2, m2);
    }
}

/// The seconds of the instant `s` names, 0 when it names none.
pub open spec fn seconds_of(s: Seq<char>) -> int {
    match rfc3339(s) {
        Some((x, _)) => x,
        None => 0,
    }
}

/// The text order of two UTC instants written out in full never contradicts
/// their time order: a text that sorts no later names no later an instant,
/// and one that sorts strictly earlier names a strictly earlier instant
/// unless it is a leap second, which lands on the following minute.
pub proof fn lemma_text_order_is_time_order(a: Seq<char>, b: Seq<char>)
    requires
        canonical_utc(a),
        canonical_utc(b),
        rfc3339(a) is Some,
        rfc3339(b) is Some,
    ensures
        a == b || crate::text::lex_lt(a, b) ==> seconds_of(a) <= seconds_of(b),
        crate::text::lex_lt(a, b) && !(a[17] == '6' && a[18] == '0') ==> seconds_of(a) < seconds_of(b),
{
    if crate::text::lex_lt(a, b) {
        lemma_first_difference(a, b);
        let k = choose|k: int| 0 <= k < a.len() && a[k] < b[k] && forall|i: int| 0 <= i < k ==> a[i] == b[i];
        assert(k != 4 && k != 7 && k != 10 && k != 13 && k != 16 && k != 19);
        let (ya, moa, da, ha, mia, sea) = date_time_fields(a)->0;
        let (yb, mob, db, hb, mib, seb) = date_time_fields(b)->0;
        let bounds = seq![(0int, 4int), (5int, 7int), (8int, 10int), (11int, 13int), (14int, 16int), (17int, 19int)];
        assert forall|f: int| 0 <= f < 6 implies all_digits(a.subrange(bounds[f].0, bounds[f].1))
            && all_digits(b.subrange(bounds[f].0, bounds[f].1)) by {
            let (lo, hi) = bounds[f];
            assert forall|i: int| 0 <= i < hi - lo implies is_digit(#[trigger] a.subrange(lo, hi)[i]) by {
                assert(a.subrange(lo, hi)[i] == a[lo + i]);
            }
            assert forall|i: int| 0 <= i < hi - lo implies is_digit(#[trigger] b.subrange(lo, hi)[i]) by {
                assert(b.subrange(lo, hi)[i] == b[lo + i]);
            }
        }
        lemma_field_order(a, b, 0, 4, k);
        lemma_field_order(a, b, 5, 7, k);
        lemma_field_order(a, b, 8, 10, k);
        lemma_field_order(a, b, 11, 13, k);
        lemma_field_order(a, b, 14, 16, k);
        lemma_field_order(a, b, 17, 19, k);
        assert(a.skip(19) =~= seq!['Z'] && b.skip(19) =~= seq!['Z']);
        assert(fraction_and_offset(a.skip(19)) == Some((0int, 0int)));
        assert(fraction_and_offset(b.skip(19)) == Some((0int, 0int)));
        let ta = ha * 3600 + mia * 60 + sea;
        let tb = hb * 3600 + mib * 60 + seb;
        let xa = civil_days(ya, moa, da);
        let xb = civil_days(yb, mob, db);
        assert(seconds_of(a) == xa * 86400 + ta);
        assert(seconds_of(b) == xb * 86400 + tb);
        lemma_decimal_nonneg(a.subrange(11, 13));
        lemma_decimal_nonneg(a.subrange(14, 16));
        lemma_decimal_nonneg(a.subrange(17, 19));
        lemma_decimal_nonneg(b.subrange(11, 13));
        lemma_decimal_nonneg(b.subrange(14, 16));
        lemma_decimal_nonneg(b.subrange(17, 19));
        assert(0 <= ta <= 86400 && 0 <= tb <= 86400);
        if !(a[17] == '6' && a[18] == '0') {
            assert(sea != 60) by {
                let p = a.subrange(17, 19);
                let p1 = seq![a[17]];
                assert(p.drop_last() =~= p1);
                assert(p1.drop_last() =~= Seq::<char>::empty());
                assert(decimal(p1) == decimal(Seq::<char>::empty()) * 10 + digit_value(a[17]));
                assert(decimal(p1) == digit_value(a[17]));
                assert(p.last() == a[18]);
                assert(decimal(p) == decimal(p1) * 10 + digit_value(a[18]));
                assert(is_digit(a[17]) && is_digit(a[18]));
            }
        }
        if k < 10 {
            lemma_dates_ordered(ya, moa, da, yb, mob, db);
        } else {
            assert(ya == yb && moa == mob && da == db);
        }
    }
}


/// Two ASCII digits read as a number: ten times the first plus the second.
pub proof fn lemma_two_digits(a: char, b: char)
    requires
        is_digit(a),
        is_digit(b),
    ensures
        number(seq![a, b]) == Some(digit_value(a) * 10 + digit_value(b)),
{
    let p = seq![a, b];
    assert(p.drop_last() =~= seq![a]);
    assert(seq![a].drop_last() =~= Seq::<char>::empty());
    assert(decimal(seq![a]) == decimal(Seq::<char>::empty()) * 10 + digit_value(a));
    assert(decimal(p) == decimal(seq![a]) * 10 + digit_value(b));
    assert(all_digits(p)) by {
        assert forall|i: int| 0 <= i < p.len() implies is_digit(#[trigger] p[i]) by {
            if i == 0 {
                assert(p[i] == a);
            } else {
                assert(p[i] == b);
            }
        }
    }
}

/// A numeric offset moves the instant: a date-time ending in `+hh:mm` or
/// `-hh:mm`, for every hour 00 to 23 and minute 00 to 59, is an instant
/// whenever the same date-time ending in `Z` is one, and it lies
/// `hh * 3600 + mm * 60` seconds before it (`+`) or after it (`-`).
pub proof fn lemma_offset_shifts_the_instant(s0: Seq<char>, sign: char, h1: char, h2: char, m1: char, m2: char)
    requires
        s0.len() == 19,
        rfc3339(s0.push('Z')) is Some,
        sign == '+' || sign == '-',
        is_digit(h1),
        is_digit(h2),
        is_digit(m1),
        is_digit(m2),
        digit_value(h1) * 10 + digit_value(h2) <= 23,
        digit_value(m1) * 10 + digit_value(m2) <= 59,
    ensures
        ({
            let s = s0 + seq![sign, h1, h2, ':', m1, m2];
            let shift = (digit_value(h1) * 10 + digit_value(h2)) * 3600 + (digit_value(m1) * 10
                + digit_value(m2)) * 60;
            &&& rfc3339(s) is Some
            &&& seconds_of(s) == seconds_of(s0.push('Z')) - (if sign == '+' {
                shift
            } else {
                -shift
            })
        }),
{
    let z = s0.push('Z');
    let tail = seq![sign, h1, h2, ':', m1, m2];
    let s = s0 + tail;
    assert forall|i: int| 0 <= i < 19 implies s[i] == z[i] by {
        assert(s[i] == s0[i] && z[i] == s0[i]);
    }
    assert(s.subrange(0, 4) =~= z.subrange(0, 4));
    assert(s.subrange(5, 7) =~= z.subrange(5, 7));
    assert(s.subrange(8, 10) =~= z.subrange(8, 10));
    assert(s.subrange(11, 13) =~= z.subrange(11, 13));
    assert(s.subrange(14, 16) =~= z.subrange(14, 16));
    assert(s.subrange(17, 19) =~= z.subrange(17, 19));
    assert(s[4] == z[4] && s[7] == z[7] && s[10] == z[10] && s[13] == z[13] && s[16] == z[16]);
    assert(date_time_fields(s) == date_time_fields(z));
    assert(z.skip(19) =~= seq!['Z']);
    assert(fraction_and_offset(z.skip(19)) == Some((0int, 0int)));
    assert(s.skip(19) =~= tail);
    lemma_two_digits(h1, h2);
    lemma_two_digits(m1, m2);
    assert(tail.subrange(1, 3) =~= seq![h1, h2]);
    assert(tail.subrange(4, 6) =~= seq![m1, m2]);
    assert(tail[0] != '.');
    assert(!(tail =~= seq!['Z']) && !(tail =~= seq!['z']));
}

} // verus!
