use vstd::prelude::*;

use crate::json::{parse_u64, spec_parse_u64};
use crate::text::slice_to_vec;

verus! {

pub open spec fn is_leap_year(year: int) -> bool {
    year % 4 == 0 && (year % 100 != 0 || year % 400 == 0)
}

/// The leap years of the proleptic Gregorian calendar from year 1 up to,
/// and not including, `year`.
pub open spec fn leap_years_before(year: int) -> int {
    if year <= 0 {
        0
    } else {
        (year - 1) / 4 - (year - 1) / 100 + (year - 1) / 400
    }
}

/// Days in the proleptic Gregorian calendar before the start of `year`,
/// counted from a common origin: the leap day of `year` itself comes after
/// its start.
pub open spec fn days_before_year(year: int) -> int {
    365 * year + leap_years_before(year)
}

/// Each year of the day count is as long as the calendar makes it: 366 days
/// in a leap year, 365 otherwise, so the days of a leap year fall on their
/// calendar dates.
pub proof fn law_year_lengths_follow_the_calendar(year: int)
    requires
        year >= 1,
    ensures
        days_before_year(year + 1) - days_before_year(year) == if is_leap_year(year) { 366int } else { 365int },
{
    let p = year - 1;
    assert(year / 4 - p / 4 == if year % 4 == 0 { 1int } else { 0int });
    assert(year / 100 - p / 100 == if year % 100 == 0 { 1int } else { 0int });
    assert(year / 400 - p / 400 == if year % 400 == 0 { 1int } else { 0int });
}

/// The length of the month with index `i` (0 for January) in a common year.
pub open spec fn common_month_days(i: int) -> int {
    if i == 1 {
        28
    } else if i == 3 || i == 5 || i == 8 || i == 10 {
        30
    } else {
        31
    }
}

pub open spec fn month_days(i: int, leap: bool) -> int {
    common_month_days(i) + if i == 1 && leap { 1int } else { 0int }
}

/// Days in the year before the month with index `m`.
pub open spec fn days_before_month(m: int, leap: bool) -> int
    decreases m,
{
    if m <= 0 {
        0
    } else {
        days_before_month(m - 1, leap) + month_days(m - 1, leap)
    }
}

/// The integer in the characters `v[a..b]`.
pub open spec fn number_at(v: Seq<char>, a: int, b: int) -> Option<u64> {
    spec_parse_u64(v.subrange(a, b))
}

/// The milliseconds of a timestamp: three digits after a `.` at index 19,
/// and 0 where they are missing or unreadable.
pub open spec fn millis_of(v: Seq<char>) -> int {
    if v[19] == '.' && v.len() >= 23 {
        match number_at(v, 20, 23) {
            Some(ms) => ms as int,
            None => 0,
        }
    } else {
        0
    }
}

/// The Unix time in milliseconds of an RFC 3339 timestamp
/// `YYYY-MM-DDThh:mm:ss[.mmm]…` read as UTC; `None` for a malformed date or
/// time, a moment before 1970, or one that 64 bits do not hold.
pub open spec fn spec_rfc3339_ms(v: Seq<char>) -> Option<u64> {
    if v.len() < 20 || v[4] != '-' || v[7] != '-' || v[10] != 'T' {
        None
    } else {
        let year = number_at(v, 0, 4);
        let month = number_at(v, 5, 7);
        let day = number_at(v, 8, 10);
        let hour = number_at(v, 11, 13);
        let minute = number_at(v, 14, 16);
        let second = number_at(v, 17, 19);
        if year is None || month is None || day is None || hour is None || minute is None
            || second is None {
            None
        } else {
            let y = year->0 as int;
            let mo = month->0 as int;
            let d = day->0 as int;
            let h = hour->0 as int;
            let mi = minute->0 as int;
            let s = second->0 as int;
            let leap = is_leap_year(y);
            if !(1 <= mo <= 12) || d == 0 || h > 23 || mi > 59 || s > 59 {
                None
            } else if days_before_year(y) < days_before_year(1970) {
                None
            } else if d > month_days(mo - 1, leap) {
                None
            } else {
                let days = days_before_year(y) - days_before_year(1970) + days_before_month(mo - 1, leap);
                let total = ((days + d - 1) * 86400 + h * 3600 + mi * 60 + s) * 1000 + millis_of(v);
                if total <= u64::MAX {
                    Some(total as u64)
                } else {
                    None
                }
            }
        }
    }
}

fn number_in(v: &[char], a: usize, b: usize) -> (r: Option<u64>)
    requires
        a <= b <= v@.len(),
    ensures
        r == number_at(v@, a as int, b as int),
{
    let part = slice_to_vec(v, a, b);
    parse_u64(part.as_slice())
}

fn month_length(i: u64, leap: bool) -> (d: u64)
    requires
        i < 12,
    ensures
        d as int == month_days(i as int, leap),
{
    if i == 1 {
        if leap { 29 } else { 28 }
    } else if i == 3 || i == 5 || i == 8 || i == 10 {
        30
    } else {
        31
    }
}

fn days_before_year_exec(year: u64) -> (d: u64)
    requires
        year <= 10000,
    ensures
        d as int == days_before_year(year as int),
{
    if year == 0 {
        0
    } else {
        let p = year - 1;
        365 * year + p / 4 + p / 400 - p / 100
    }
}

/// The Unix time in milliseconds of an RFC 3339 timestamp read as UTC.
pub fn rfc3339_ms(value: &[char]) -> (r: Option<u64>)
    ensures
        r == spec_rfc3339_ms(value@),
{
    let v = value;
    if v.len() < 20 || v[4] != '-' || v[7] != '-' || v[10] != 'T' {
        return None;
    }
    let year = match number_in(v, 0, 4) {
        Some(x) => x,
        None => return None,
    };
    let month = match number_in(v, 5, 7) {
        Some(x) => x,
        None => return None,
    };
    let day = match number_in(v, 8, 10) {
        Some(x) => x,
        None => return None,
    };
    let hour = match number_in(v, 11, 13) {
        Some(x) => x,
        None => return None,
    };
    let minute = match number_in(v, 14, 16) {
        Some(x) => x,
        None => return None,
    };
    let second = match number_in(v, 17, 19) {
        Some(x) => x,
        None => return None,
    };
    if !(1 <= month && month <= 12) || day == 0 || hour > 23 || minute > 59 || second > 59 {
        return None;
    }
    proof {
        lemma_four_chars_small(v@.subrange(0, 4));
    }
    let leap = year % 4 == 0 && (year % 100 != 0 || year % 400 == 0);
    let base = days_before_year_exec(year);
    let epoch = days_before_year_exec(1970);
    if base < epoch {
        return None;
    }
    let mut days = base - epoch;
    let mut index: u64 = 0;
    while index < month - 1
        invariant
            1 <= month <= 12,
            0 <= index <= month - 1,
            days as int == days_before_year(year as int) - days_before_year(1970) + days_before_month(index as int, leap),
            days_before_year(year as int) <= 4_000_000,
            days <= 4_000_000 + 31 * index,
        decreases month - 1 - index,
    {
        days = days + month_length(index, leap);
        index = index + 1;
    }
    if day > month_length(month - 1, leap) {
        return None;
    }
    let millis = if v[19] == '.' && v.len() >= 23 {
        match number_in(v, 20, 23) {
            Some(ms) => ms,
            None => 0,
        }
    } else {
        0
    };
    proof {
        lemma_three_chars_small(v@, millis);
    }
    let total = ((days + day - 1) * 86400 + hour * 3600 + minute * 60 + second) * 1000 + millis;
    Some(total)
}

proof fn lemma_four_chars_small(t: Seq<char>)
    requires
        t.len() == 4,
        spec_parse_u64(t) is Some,
    ensures
        spec_parse_u64(t)->0 <= 9999,
{
    let d = crate::json::unsigned_digits(t);
    lemma_decimal_bound(d);
}

proof fn lemma_three_chars_small(v: Seq<char>, millis: u64)
    requires
        v.len() >= 20,
        millis as int == millis_of(v),
    ensures
        millis <= 999,
{
    if v[19] == '.' && v.len() >= 23 {
        if let Some(ms) = number_at(v, 20, 23) {
            lemma_decimal_bound(crate::json::unsigned_digits(v.subrange(20, 23)));
        }
    }
}

/// A run of at most four decimal digits spells a number below 10^len.
proof fn lemma_decimal_bound(d: Seq<char>)
    requires
        d.len() <= 4,
        crate::json::all_digits(d),
    ensures
        0 <= crate::json::decimal_value(d) < if d.len() == 0 { 1int } else if d.len() == 1 { 10int } else if d.len() == 2 { 100int } else if d.len() == 3 { 1000int } else { 10000int },
    decreases d.len(),
{
    if d.len() > 0 {
        let e = d.subrange(0, d.len() - 1);
        assert(crate::json::all_digits(e)) by {
            assert forall|i: int| 0 <= i < e.len() implies crate::json::is_ascii_digit(#[trigger] e[i]) by {
                assert(e[i] == d[i]);
            }
        }
        lemma_decimal_bound(e);
    }
}

} // verus!
