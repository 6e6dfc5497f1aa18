use chrono::Datelike;
use vstd::prelude::*;

verus! {

/// A calendar date of the proleptic Gregorian calendar, as year, month and day.
#[derive(Clone, Copy, Debug, PartialEq, Eq, Structural)]
pub struct CalDate {
    pub year: i32,
    pub month: u32,
    pub day: u32,
}

/// Why a last-log date could not be read.
#[derive(Clone, Copy, Debug, PartialEq, Eq, Structural)]
pub enum DateError {
    /// The year, month or day substring is not an integer (or the text is too short).
    Parse,
    /// The three integers do not form a real calendar date.
    InvalidDate,
}

pub open spec fn is_leap_year(y: int) -> bool {
    (y % 4 == 0 && y % 100 != 0) || y % 400 == 0
}

pub open spec fn days_in_month(y: int, m: int) -> int {
    if m == 2 {
        if is_leap_year(y) { 29 } else { 28 }
    } else if m == 4 || m == 6 || m == 9 || m == 11 {
        30
    } else {
        31
    }
}

/// Years that chrono's `NaiveDate` can represent.
pub open spec fn in_chrono_range(y: int) -> bool {
    -262143 <= y <= 262142
}

/// The triple names a real day of the calendar.
pub open spec fn real_date(y: int, m: int, d: int) -> bool {
    1 <= m <= 12 && 1 <= d <= days_in_month(y, m)
}

impl CalDate {
    pub open spec fn wf(&self) -> bool {
        in_chrono_range(self.year as int) && real_date(
            self.year as int,
            self.month as int,
            self.day as int,
        )
    }
}

/// A running count of days: consecutive calendar days get consecutive numbers.
pub open spec fn day_number(d: CalDate) -> int {
    let y = d.year as int;
    let m = d.month as int;
    let yy = if m <= 2 { y - 1 } else { y };
    let mm = if m > 2 { m - 3 } else { m + 9 };
    365 * yy + yy / 4 - yy / 100 + yy / 400 + (153 * mm + 2) / 5 + d.day as int - 1
}

/// Relies on chrono::NaiveDate::from_ymd_opt, which gives `Some` exactly for a real
/// date in chrono's year range.
#[verifier::external_body]
fn chrono_date_exists(year: i32, month: u32, day: u32) -> (r: bool)
    ensures
        r == (in_chrono_range(year as int) && real_date(year as int, month as int, day as int)),
{
    chrono::NaiveDate::from_ymd_opt(year, month, day).is_some()
}

/// Relies on chrono's `NaiveDate - NaiveDate` and `TimeDelta::num_days`: the signed
/// number of days from `earlier` to `later`.
#[verifier::external_body]
fn chrono_days_between(earlier: CalDate, later: CalDate) -> (r: i64)
    requires
        earlier.wf(),
        later.wf(),
    ensures
        r == day_number(later) - day_number(earlier),
{
    let a = chrono::NaiveDate::from_ymd_opt(earlier.year, earlier.month, earlier.day).unwrap();
    let b = chrono::NaiveDate::from_ymd_opt(later.year, later.month, later.day).unwrap();
    (b - a).num_days()
}

/// Relies on chrono::Local::now().date_naive(): the current date in the local time
/// zone, which is some date that chrono can represent.
#[verifier::external_body]
pub fn local_today() -> (r: CalDate)
    ensures
        r.wf(),
{
    let t = chrono::Local::now().date_naive();
    CalDate { year: t.year(), month: t.month(), day: t.day() }
}

pub open spec fn is_digit(c: char) -> bool {
    '0' <= c && c <= '9'
}

pub open spec fn digits_value(s: Seq<char>) -> int
    decreases s.len(),
{
    if s.len() == 0 {
        0
    } else {
        10 * digits_value(s.drop_last()) + (s.last() as int - '0' as int)
    }
}

pub open spec fn all_digits(s: Seq<char>) -> bool {
    s.len() > 0 && forall|i: int| 0 <= i < s.len() ==> is_digit(#[trigger] s[i])
}

/// What Rust's integer `parse` makes of `s`: an optional `+` (or, when `signed`, `-`)
/// followed by at least one decimal digit.
pub open spec fn parse_integer(s: Seq<char>, signed: bool) -> Option<int> {
    if s.len() > 0 && s[0] == '+' && all_digits(s.drop_first()) {
        Some(digits_value(s.drop_first()))
    } else if signed && s.len() > 0 && s[0] == '-' && all_digits(s.drop_first()) {
        Some(-digits_value(s.drop_first()))
    } else if all_digits(s) {
        Some(digits_value(s))
    } else {
        None
    }
}

pub open spec fn pow10(k: nat) -> int
    decreases k,
{
    if k == 0 { 1 } else { 10 * pow10((k - 1) as nat) }
}

/// The digits `s[from..to]` as a number; `None` unless all are digits.
fn digits_at(s: &str, from: usize, to: usize) -> (r: Option<i32>)
    requires
        from <= to <= s@.len(),
        to - from <= 4,
    ensures
        match r {
            Some(v) => all_digits(s@.subrange(from as int, to as int)) && v as int == digits_value(
                s@.subrange(from as int, to as int),
            ) && 0 <= v < 10000,
            None => !all_digits(s@.subrange(from as int, to as int)),
        },
{
    if from == to {
        return None;
    }
    let mut acc: i32 = 0;
    let mut j: usize = from;
    while j < to
        invariant
            from <= j <= to <= s@.len(),
            to - from <= 4,
            forall|k: int| from <= k < j ==> is_digit(#[trigger] s@[k]),
            0 <= acc < pow10((j - from) as nat),
            acc as int == digits_value(s@.subrange(from as int, j as int)),
        decreases to - j,
    {
        let c = s.get_char(j);
        if !('0' <= c && c <= '9') {
            assert(!is_digit(s@.subrange(from as int, to as int)[j - from]));
            return None;
        }
        proof {
            reveal_with_fuel(pow10, 5);
            assert(s@.subrange(from as int, j + 1).drop_last() =~= s@.subrange(from as int, j as int));
        }
        acc = acc * 10 + (c as u32 - '0' as u32) as i32;
        j = j + 1;
    }
    assert(forall|k: int| 0 <= k < to - from ==> s@.subrange(from as int, to as int)[k] == s@[from + k]);
    assert(s@.subrange(from as int, j as int) =~= s@.subrange(from as int, to as int));
    proof {
        reveal_with_fuel(pow10, 5);
    }
    Some(acc)
}

/// `s[from..to]` read as Rust's `parse` reads an integer.
fn integer_at(s: &str, from: usize, to: usize, signed: bool) -> (r: Option<i32>)
    requires
        from < to <= s@.len(),
        to - from <= 4,
    ensures
        match r {
            Some(v) => parse_integer(s@.subrange(from as int, to as int), signed) == Some(v as int)
                && -10000 < v < 10000 && (!signed ==> v >= 0),
            None => parse_integer(s@.subrange(from as int, to as int), signed).is_none(),
        },
{
    let ghost t = s@.subrange(from as int, to as int);
    let c = s.get_char(from);
    assert(t[0] == c);
    assert(t.drop_first() =~= s@.subrange(from + 1, to as int));
    if c == '+' {
        digits_at(s, from + 1, to)
    } else if c == '-' {
        if signed {
            match digits_at(s, from + 1, to) {
                Some(v) => Some(-v),
                None => None,
            }
        } else {
            assert(!is_digit(t[0]));
            None
        }
    } else {
        digits_at(s, from, to)
    }
}

/// What a last-log field says: `None` when it is empty (never logged), otherwise the
/// date read from the fixed positions 0..4 (year), 5..7 (month) and 8..10 (day).
pub open spec fn last_log_date(s: Seq<char>) -> Result<Option<CalDate>, DateError> {
    if s.len() == 0 {
        Ok(None)
    } else if s.len() < 10 {
        Err(DateError::Parse)
    } else {
        let y = parse_integer(s.subrange(0, 4), true);
        let m = parse_integer(s.subrange(5, 7), false);
        let d = parse_integer(s.subrange(8, 10), false);
        if y.is_none() || m.is_none() || d.is_none() {
            Err(DateError::Parse)
        } else if !real_date(y.unwrap(), m.unwrap(), d.unwrap()) {
            Err(DateError::InvalidDate)
        } else {
            Ok(Some(CalDate { year: y.unwrap() as i32, month: m.unwrap() as u32, day: d.unwrap() as u32 }))
        }
    }
}

/// Reads a last-log field; see `last_log_date`.
pub fn parse_last_log(s: &str) -> (r: Result<Option<CalDate>, DateError>)
    ensures
        r == last_log_date(s@),
        r matches Ok(Some(d)) ==> d.wf(),
{
    let n = s.unicode_len();
    if n == 0 {
        return Ok(None);
    }
    if n < 10 {
        return Err(DateError::Parse);
    }
    let y = integer_at(s, 0, 4, true);
    let m = integer_at(s, 5, 7, false);
    let d = integer_at(s, 8, 10, false);
    match (y, m, d) {
        (Some(y), Some(m), Some(d)) => {
            if chrono_date_exists(y, m as u32, d as u32) {
                Ok(Some(CalDate { year: y, month: m as u32, day: d as u32 }))
            } else {
                Err(DateError::InvalidDate)
            }
        },
        _ => Err(DateError::Parse),
    }
}

/// Whether a person must be notified: never logged, or last logged at least fourteen
/// days before `today`.
pub open spec fn stale(last: Option<CalDate>, today: CalDate) -> bool {
    match last {
        None => true,
        Some(d) => day_number(today) - day_number(d) >= 14,
    }
}

/// Classifies one last-log field against `today`.
pub fn needs_notification(last_log: &str, today: CalDate) -> (r: Result<bool, DateError>)
    requires
        today.wf(),
    ensures
        match last_log_date(last_log@) {
            Ok(last) => r == Ok::<bool, DateError>(stale(last, today)),
            Err(e) => r == Err::<bool, DateError>(e),
        },
{
    match parse_last_log(last_log) {
        Ok(None) => Ok(true),
        Ok(Some(d)) => {
            let delta = chrono_days_between(d, today);
            Ok(delta >= 14)
        },
        Err(e) => Err(e),
    }
}


/// A record whose last-log field is empty is always notified, whatever the date.
pub proof fn lemma_never_logged_is_notified(last_log: Seq<char>, today: CalDate)
    requires
        last_log.len() == 0,
    ensures
        last_log_date(last_log) == Ok::<Option<CalDate>, DateError>(None),
        stale(None, today),
{
}

/// Thirteen days since the last log is not yet stale; fourteen days is.
pub proof fn lemma_fourteen_day_boundary(last: CalDate, today: CalDate)
    ensures
        day_number(today) - day_number(last) == 13 ==> !stale(Some(last), today),
        day_number(today) - day_number(last) == 14 ==> stale(Some(last), today),
{
}

} // verus!
