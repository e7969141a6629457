use vstd::prelude::*;

verus! {

/// An instant as read from an RFC 3339 timestamp: whole seconds since the
/// Unix epoch, the nanoseconds within that second, and the offset from UTC
/// (in seconds) that the text carried.
#[derive(Debug, Clone, Copy, PartialEq, Eq, Structural)]
pub struct Timestamp {
    pub secs: i64,
    pub nanos: u32,
    pub offset: i32,
}

impl Timestamp {
    /// Nanoseconds since the Unix epoch.
    pub open spec fn instant(self) -> int {
        self.secs * 1_000_000_000 + self.nanos
    }

    pub fn timestamp(&self) -> (r: i64)
        ensures
            r == self.secs,
    {
        self.secs
    }

    pub fn timestamp_subsec_nanos(&self) -> (r: u32)
        ensures
            r == self.nanos,
    {
        self.nanos
    }

    pub fn offset_seconds(&self) -> (r: i32)
        ensures
            r == self.offset,
    {
        self.offset
    }

    /// Nanoseconds since the Unix epoch, without any loss of range.
    pub fn timestamp_nanos(&self) -> (r: i128)
        ensures
            r == self.instant(),
    {
        self.secs as i128 * 1_000_000_000i128 + self.nanos as i128
    }
}

/// What `DateTime::parse_from_rfc3339` makes of a text: seconds since the
/// epoch, sub-second nanoseconds and UTC offset in seconds, or nothing.
pub uninterp spec fn rfc3339_of(s: Seq<char>) -> Option<(int, int, int)>;

pub open spec fn is_digit(c: char) -> bool {
    '0' <= c && c <= '9'
}

pub open spec fn digit_value(c: char) -> int {
    c as int - '0' as int
}

/// The two-digit number at positions `i` and `i + 1`.
pub open spec fn two_digits(s: Seq<char>, i: int) -> int {
    10 * digit_value(s[i]) + digit_value(s[i + 1])
}

pub open spec fn four_digits(s: Seq<char>, i: int) -> int {
    100 * two_digits(s, i) + two_digits(s, i + 2)
}

/// The decimal number written by a run of digits.
pub open spec fn digits_value(f: Seq<char>) -> int
    decreases f.len(),
{
    if f.len() == 0 {
        0
    } else {
        10 * digits_value(f.drop_last()) + digit_value(f.last())
    }
}

pub open spec fn pow10(n: nat) -> int
    decreases n,
{
    if n == 0 {
        1
    } else {
        10 * pow10((n - 1) as nat)
    }
}

pub open spec fn is_leap_year(y: int) -> bool {
    y % 4 == 0 && (y % 100 != 0 || y % 400 == 0)
}

pub open spec fn days_in_month(y: int, m: int) -> int {
    if m == 2 {
        if is_leap_year(y) { 29 } else { 28 }
    } else if m == 4 || m == 6 || m == 9 || m == 11 {
        30
    } else {
        31
    }
}

/// Days of the months of year `y` that come before month `m`.
pub open spec fn days_before_month(y: int, m: int) -> int
    decreases m,
{
    if m <= 1 {
        0
    } else {
        days_before_month(y, m - 1) + days_in_month(y, m - 1)
    }
}

/// Leap years among the years `0 .. y` of the proleptic Gregorian calendar.
pub open spec fn leap_years_before(y: int) -> int {
    (y + 3) / 4 - (y + 99) / 100 + (y + 399) / 400
}

/// Days from 1970-01-01 to the given date.
pub open spec fn days_from_epoch(y: int, m: int, d: int) -> int {
    365 * (y - 1970) + leap_years_before(y) - leap_years_before(1970) + days_before_month(y, m)
        + d - 1
}

/// How many characters the zone takes at the end: `Z`, or `±HH:MM`.
pub open spec fn zone_len(s: Seq<char>) -> int {
    if s.last() == 'Z' {
        1
    } else {
        6
    }
}

/// `YYYY-MM-DDTHH:MM:SS.f...` followed by `Z` or `±HH:MM`, with one to
/// nine fractional digits and every field in its range (no leap second).
pub open spec fn is_plain_rfc3339(s: Seq<char>) -> bool {
    let n = s.len();
    let z = zone_len(s);
    &&& 22 <= n
    &&& n <= 29 + z
    &&& 21 + z <= n
    &&& forall|k: int|
        0 <= k < 19 && k != 4 && k != 7 && k != 10 && k != 13 && k != 16 ==> is_digit(s[k])
    &&& s[4] == '-' && s[7] == '-' && s[10] == 'T' && s[13] == ':' && s[16] == ':'
    &&& s[19] == '.'
    &&& forall|k: int| 20 <= k < n - z ==> is_digit(s[k])
    &&& (s[n - 1] == 'Z' || ((s[n - 6] == '+' || s[n - 6] == '-') && is_digit(s[n - 5])
        && is_digit(s[n - 4]) && s[n - 3] == ':' && is_digit(s[n - 2]) && is_digit(s[n - 1])
        && two_digits(s, n - 5) <= 23 && two_digits(s, n - 2) <= 59))
    &&& 1 <= two_digits(s, 5) <= 12
    &&& 1 <= two_digits(s, 8) <= days_in_month(four_digits(s, 0), two_digits(s, 5))
    &&& two_digits(s, 11) <= 23 && two_digits(s, 14) <= 59 && two_digits(s, 17) <= 59
}

/// The sub-second part of such a text, in nanoseconds.
pub open spec fn rfc3339_subsec(s: Seq<char>) -> int {
    let f = s.subrange(20, s.len() - zone_len(s));
    digits_value(f) * pow10((9 - f.len()) as nat)
}

/// The offset from UTC of such a text, in seconds.
pub open spec fn rfc3339_offset(s: Seq<char>) -> int {
    let n = s.len();
    if s.last() == 'Z' {
        0
    } else {
        let secs = two_digits(s, n - 5) * 3600 + two_digits(s, n - 2) * 60;
        if s[n - 6] == '-' {
            -secs
        } else {
            secs
        }
    }
}

/// The instant that such a text denotes, in nanoseconds since the epoch:
/// its local date and time, less its offset.
pub open spec fn rfc3339_nanos(s: Seq<char>) -> int {
    let days = days_from_epoch(four_digits(s, 0), two_digits(s, 5), two_digits(s, 8));
    let local = days * 86400 + two_digits(s, 11) * 3600 + two_digits(s, 14) * 60 + two_digits(
        s,
        17,
    );
    (local - rfc3339_offset(s)) * 1_000_000_000 + rfc3339_subsec(s)
}

/// The timestamp that a text parses to, if any.
pub open spec fn timestamp_of(s: Seq<char>) -> Option<Timestamp> {
    match rfc3339_of(s) {
        Some(t) => Some(Timestamp { secs: t.0 as i64, nanos: t.1 as u32, offset: t.2 as i32 }),
        None => None,
    }
}

/// Relies on chrono's `DateTime::parse_from_rfc3339` (with `timestamp`,
/// `timestamp_subsec_nanos` and `offset().local_minus_utc()` to read the
/// result): it accepts a date `YYYY-MM-DD` in range, `T`, a time
/// `HH:MM:SS` in range, a fraction of one or more digits scaled to
/// nanoseconds, and `Z` for offset zero or `±HH:MM` (hours up to 23,
/// minutes up to 59), the instant being the local time less the offset.
#[verifier::external_body]
fn chrono_parse_rfc3339(s: &str) -> (r: Option<(i64, u32, i32)>)
    ensures
        r.is_none() == rfc3339_of(s@).is_none(),
        r.is_some() ==> rfc3339_of(s@) == Some((r.unwrap().0 as int, r.unwrap().1 as int, r.unwrap().2 as int)),
        is_plain_rfc3339(s@) ==> r.is_some(),
        is_plain_rfc3339(s@) ==> r.unwrap().0 * 1_000_000_000 + r.unwrap().1 == rfc3339_nanos(s@),
        is_plain_rfc3339(s@) ==> r.unwrap().1 == rfc3339_subsec(s@),
        is_plain_rfc3339(s@) ==> r.unwrap().2 == rfc3339_offset(s@),
{
    match chrono::DateTime::parse_from_rfc3339(s) {
        Ok(dt) => Some((dt.timestamp(), dt.timestamp_subsec_nanos(), dt.offset().local_minus_utc())),
        Err(_) => None,
    }
}

/// Parses an RFC 3339 timestamp. On the plain form with one to nine
/// fractional digits and `Z` or `±HH:MM`, the result is the exact instant
/// the text denotes, with the offset it carries.
pub fn parse_timestamp(s: &str) -> (r: Option<Timestamp>)
    ensures
        r == timestamp_of(s@),
        is_plain_rfc3339(s@) ==> r.is_some() && r.unwrap().instant() == rfc3339_nanos(s@),
        is_plain_rfc3339(s@) ==> r.is_some() && r.unwrap().offset == rfc3339_offset(s@),
{
    match chrono_parse_rfc3339(s) {
        Some(t) => Some(Timestamp { secs: t.0, nanos: t.1, offset: t.2 }),
        None => None,
    }
}

} // verus!
