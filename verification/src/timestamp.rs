//! Timestamps of the form `YYYY-MM-DDThh:mm`, and what is derived from them: the hour, the
//! day of the week, and the minutes between two of them.
//!
//! Only the places of the digits are looked at. A byte there counts for its distance from the
//! digit zero, so it has to be a digit or a byte above the digits.
use vstd::prelude::*;
use crate::bytes;

verus! {

/// What the byte at `k` counts for.
pub open spec fn digit_at(ts: Seq<u8>, k: int) -> int {
    ts[k] - 0x30
}

/// The two-digit number at `k`.
pub open spec fn pair_at(ts: Seq<u8>, k: int) -> int {
    digit_at(ts, k) * 10 + digit_at(ts, k + 1)
}

pub open spec fn year_of(ts: Seq<u8>) -> int {
    pair_at(ts, 0) * 100 + pair_at(ts, 2)
}

pub open spec fn month_of(ts: Seq<u8>) -> int {
    pair_at(ts, 5)
}

pub open spec fn day_of(ts: Seq<u8>) -> int {
    pair_at(ts, 8)
}

pub open spec fn hour_of(ts: Seq<u8>) -> int {
    pair_at(ts, 11)
}

pub open spec fn minute_of(ts: Seq<u8>) -> int {
    pair_at(ts, 14)
}

/// The two bytes at `k` are digits, or above the digits.
pub open spec fn counts_at(ts: Seq<u8>, k: int) -> bool {
    ts[k] >= 0x30 && ts[k + 1] >= 0x30
}

/// The places of the year, the month, the day and the hour count for something.
pub open spec fn counts_to_hour(ts: Seq<u8>) -> bool {
    counts_at(ts, 0) && counts_at(ts, 2) && counts_at(ts, 5) && counts_at(ts, 8) && counts_at(
        ts,
        11,
    )
}

/// A timestamp from which the hour and the day of the week can be derived, or which is too
/// short to look at: the hour fits its type.
pub open spec fn hour_in_range(ts: Seq<u8>) -> bool {
    ts.len() >= 13 ==> counts_to_hour(ts) && hour_of(ts) <= 255
}

/// A timestamp from which minutes can be derived, or which is too short to look at: the month
/// is at most one behind December.
pub open spec fn minutes_in_range(ts: Seq<u8>) -> bool {
    ts.len() >= 16 ==> counts_to_hour(ts) && counts_at(ts, 14) && 1 <= month_of(ts) <= 13
}

/// How many leap days the years up to `y` have.
#[verifier::opaque]
pub open spec fn leap_days(y: int) -> int {
    if y < 0 {
        0
    } else {
        y / 4 - y / 100 + y / 400
    }
}

/// By how many days of the week a month is shifted, counted in years that start with March.
pub open spec fn month_shift(month: int) -> int {
    if month == 1 {
        0
    } else if month == 2 {
        3
    } else if month == 3 {
        2
    } else if month == 4 {
        5
    } else if month == 5 {
        0
    } else if month == 6 {
        3
    } else if month == 7 {
        5
    } else if month == 8 {
        1
    } else if month == 9 {
        4
    } else if month == 10 {
        6
    } else if month == 11 {
        2
    } else {
        4
    }
}

/// The number whose remainder by seven is the day of the week, Sunday being zero.
pub open spec fn day_number(year: int, month: int, day: int) -> int {
    let y = if month < 3 {
        year - 1
    } else {
        year
    };
    y + leap_days(y) + month_shift(month) + day
}

/// The day of the week, Monday being zero. The day before the first day of the year zero has
/// none, and is given a number that is none.
pub open spec fn weekday(year: int, month: int, day: int) -> u8 {
    let n = day_number(year, month, day);
    if n < 0 {
        254
    } else {
        ((n + 6) % 7) as u8
    }
}

/// The days of a year before a month, leap days left out; behind December stand them all.
pub open spec fn days_before(month: int) -> int {
    if month <= 1 {
        0
    } else if month == 2 {
        31
    } else if month == 3 {
        59
    } else if month == 4 {
        90
    } else if month == 5 {
        120
    } else if month == 6 {
        151
    } else if month == 7 {
        181
    } else if month == 8 {
        212
    } else if month == 9 {
        243
    } else if month == 10 {
        273
    } else if month == 11 {
        304
    } else if month == 12 {
        334
    } else {
        365
    }
}

/// How many of the years before `year`, from the year zero on, have a leap day.
pub open spec fn leaps_before(year: int) -> int {
    if year <= 0 {
        0
    } else {
        leap_days(year - 1) + 1
    }
}

/// The minutes of a point in time on a scale on which differences are taken.
pub open spec fn minutes_at(year: int, month: int, day: int, hour: int, minute: int) -> int {
    let days = (year - 2000) * 365 + leaps_before(year) + days_before(month) + (if month > 2
        && is_leap(year) {
        1int
    } else {
        0int
    }) + day;
    days * 1440 + hour * 60 + minute
}

/// The minutes of a timestamp.
pub open spec fn minutes_of(ts: Seq<u8>) -> int {
    minutes_at(year_of(ts), month_of(ts), day_of(ts), hour_of(ts), minute_of(ts))
}

/// The two-digit number at `k`.
fn read_pair(ts: &[u8], k: usize) -> (r: i32)
    requires
        k + 1 < ts@.len(),
        counts_at(ts@, k as int),
    ensures
        r == pair_at(ts@, k as int),
        0 <= r <= 2277,
{
    (ts[k] - 0x30) as i32 * 10 + (ts[k + 1] - 0x30) as i32
}

/// The bytes at `k` and behind it count for something.
fn pair_counts(ts: &[u8], k: usize) -> (r: bool)
    requires
        k + 1 < ts@.len(),
    ensures
        r == counts_at(ts@, k as int),
{
    ts[k] >= 0x30 && ts[k + 1] >= 0x30
}

/// Whether the hour and the day of the week can be derived from a timestamp, or it is too
/// short to look at.
pub fn is_hour_in_range(ts: &[u8]) -> (r: bool)
    ensures
        r == hour_in_range(ts@),
{
    ts.len() < 13 || (pair_counts(ts, 0) && pair_counts(ts, 2) && pair_counts(ts, 5)
        && pair_counts(ts, 8) && pair_counts(ts, 11) && read_pair(ts, 11) <= 255)
}

/// Whether minutes can be derived from a timestamp, or it is too short to look at.
pub fn is_minutes_in_range(ts: &[u8]) -> (r: bool)
    ensures
        r == minutes_in_range(ts@),
{
    ts.len() < 16 || (pair_counts(ts, 0) && pair_counts(ts, 2) && pair_counts(ts, 5)
        && pair_counts(ts, 8) && pair_counts(ts, 11) && pair_counts(ts, 14) && read_pair(ts, 5) >= 1
        && read_pair(ts, 5) <= 13)
}

/// The shift of a month.
fn shift_of(month: i32) -> (r: i32)
    requires
        1 <= month <= 12,
    ensures
        r == month_shift(month as int),
{
    let t: [i32; 12] = [0, 3, 2, 5, 0, 3, 5, 1, 4, 6, 2, 4];
    t[(month - 1) as usize]
}

/// The hour and the day of the week of a timestamp. There is none if the timestamp has less
/// than thirteen bytes or its month is not one.
pub fn parse_timestamp(ts: &[u8]) -> (r: Option<(u8, u8)>)
    requires
        hour_in_range(ts@),
    ensures
        r == (if ts@.len() < 13 || !(1 <= month_of(ts@) <= 12) {
            None
        } else {
            Some(
                (hour_of(ts@) as u8, weekday(year_of(ts@), month_of(ts@), day_of(ts@))),
            )
        }),
{
    if ts.len() < 13 {
        return None;
    }
    let hour: i32 = read_pair(ts, 11);
    let year: i32 = read_pair(ts, 0) * 100 + read_pair(ts, 2);
    let month: i32 = read_pair(ts, 5);
    let day: i32 = read_pair(ts, 8);
    if month < 1 || month > 12 {
        return None;
    }
    let y: i32 = if month < 3 {
        year - 1
    } else {
        year
    };
    let leap: i32 = if y < 0 {
        0
    } else {
        y / 4 - y / 100 + y / 400
    };
    proof {
        reveal(leap_days);
    }
    let n: i32 = y + leap + shift_of(month) + day;
    let dow: u8 = if n < 0 {
        254
    } else {
        let sunday_start: i32 = n % 7;
        if sunday_start == 0 {
            6
        } else {
            (sunday_start - 1) as u8
        }
    };
    Some((hour as u8, dow))
}

/// The minutes of a timestamp; none if it has less than sixteen bytes.
fn to_minutes(ts: &[u8]) -> (r: Option<i64>)
    requires
        minutes_in_range(ts@),
    ensures
        r is Some <==> ts@.len() >= 16,
        r is Some ==> r->0 == minutes_of(ts@) && -0x1_0000_0000_0000 <= r->0 <= 0x1_0000_0000_0000,
{
    if ts.len() < 16 {
        return None;
    }
    let year: i64 = read_pair(ts, 0) as i64 * 100 + read_pair(ts, 2) as i64;
    let month: i64 = read_pair(ts, 5) as i64;
    let day: i64 = read_pair(ts, 8) as i64;
    let hour: i64 = read_pair(ts, 11) as i64;
    let min: i64 = read_pair(ts, 14) as i64;
    proof {
        reveal(leap_days);
    }
    let leaps: i64 = if year <= 0 {
        0
    } else {
        (year - 1) / 4 - (year - 1) / 100 + (year - 1) / 400 + 1
    };
    let mut total_days: i64 = (year - 2000) * 365 + leaps;
    let month_days: [i64; 12] = [31, 28, 31, 30, 31, 30, 31, 31, 30, 31, 30, 31];
    let mut m: i64 = 1;
    while m < month
        invariant
            1 <= m <= month <= 13,
            0 <= year <= 230_000,
            total_days == (year - 2000) * 365 + leaps + days_before(m as int),
            0 <= leaps <= 60_000,
            month_days@ =~= seq![31i64, 28, 31, 30, 31, 30, 31, 31, 30, 31, 30, 31],
        decreases month - m,
    {
        total_days = total_days + month_days[(m - 1) as usize];
        m = m + 1;
    }
    if month > 2 && (year % 4 == 0 && (year % 100 != 0 || year % 400 == 0)) {
        total_days = total_days + 1;
    }
    total_days = total_days + day;
    Some(total_days * 1440 + hour * 60 + min)
}

/// The minutes between two timestamps, whichever comes first; none if one of them has less
/// than sixteen bytes.
pub fn parse_minutes_diff(ts1: &[u8], ts2: &[u8]) -> (r: Option<u64>)
    requires
        minutes_in_range(ts1@),
        ts1@.len() >= 16 ==> minutes_in_range(ts2@),
    ensures
        r is Some <==> ts1@.len() >= 16 && ts2@.len() >= 16,
        r is Some ==> r->0 == distance(minutes_of(ts1@), minutes_of(ts2@)),
{
    let m1 = match to_minutes(ts1) {
        Some(m) => m,
        None => {
            return None;
        },
    };
    let m2 = match to_minutes(ts2) {
        Some(m) => m,
        None => {
            return None;
        },
    };
    if m1 >= m2 {
        Some((m1 - m2) as u64)
    } else {
        Some((m2 - m1) as u64)
    }
}

/// How far two numbers are apart.
pub open spec fn distance(a: int, b: int) -> int {
    if a >= b {
        a - b
    } else {
        b - a
    }
}

/// Whether a year of the Gregorian calendar has a leap day.
pub open spec fn is_leap(year: int) -> bool {
    year % 4 == 0 && (year % 100 != 0 || year % 400 == 0)
}

/// How many days a month has in a year with, or without, a leap day.
pub open spec fn month_length(month: int, leap: bool) -> int {
    if month == 2 {
        if leap {
            29
        } else {
            28
        }
    } else if month == 4 || month == 6 || month == 9 || month == 11 {
        30
    } else {
        31
    }
}

/// The day that follows: in the same month, the first of the next one, or of the next year.
spec fn number_of_next(year: int, month: int, day: int, leap: bool) -> int {
    if day < month_length(month, leap) {
        day_number(year, month, day + 1)
    } else if month < 12 {
        day_number(year, month + 1, 1)
    } else {
        day_number(year + 1, 1, 1)
    }
}

/// The number of the next day is one more, but for whole weeks.
proof fn lemma_next_number(year: int, month: int, day: int, leap: bool)
    requires
        1 <= year,
        1 <= month <= 12,
        1 <= day <= month_length(month, leap),
        0 <= leap_days(year - 1),
        leap_days(year) == leap_days(year - 1) + (if leap {
            1int
        } else {
            0int
        }),
    ensures
        ({
            let n = day_number(year, month, day);
            let next = number_of_next(year, month, day, leap);
            &&& n >= 0
            &&& next >= 0
            &&& next == n + 1 || next == n + 1 - 28 || next == n + 1 - 35
        }),
{
}

proof fn lemma_next_weekday(n: int, next: int)
    requires
        n >= 0,
        next == n + 1 || next == n + 1 - 28 || next == n + 1 - 35,
    ensures
        (next + 6) % 7 == ((n + 6) % 7 + 1) % 7,
{
}

/// The days of the week follow each other: the day after a day of the Gregorian calendar has
/// the next weekday, over the end of a month and of a year too.
pub proof fn weekdays_follow_each_other(year: int, month: int, day: int)
    requires
        1 <= year,
        1 <= month <= 12,
        1 <= day <= month_length(month, is_leap(year)),
    ensures
        day < month_length(month, is_leap(year)) ==> weekday(year, month, day + 1) == (weekday(
            year,
            month,
            day,
        ) + 1) % 7,
        day == month_length(month, is_leap(year)) && month < 12 ==> weekday(year, month + 1, 1)
            == (weekday(year, month, day) + 1) % 7,
        day == month_length(month, is_leap(year)) && month == 12 ==> weekday(year + 1, 1, 1)
            == (weekday(year, month, day) + 1) % 7,
{
    let leap = is_leap(year);
    lemma_leap_days(year);
    lemma_next_number(year, month, day, leap);
    lemma_next_weekday(
        day_number(year, month, day),
        number_of_next(year, month, day, leap),
    );
}

/// A leap year adds a leap day.
proof fn lemma_leap_days(year: int)
    requires
        1 <= year,
    ensures
        leap_days(year) == leap_days(year - 1) + (if is_leap(year) {
            1int
        } else {
            0int
        }),
        0 <= leap_days(year - 1),
{
    reveal(leap_days);
    let p = year - 1;
    assert(year / 4 == p / 4 + (if year % 4 == 0 {
        1int
    } else {
        0int
    }));
    assert(year / 100 == p / 100 + (if year % 100 == 0 {
        1int
    } else {
        0int
    }));
    assert(year / 400 == p / 400 + (if year % 400 == 0 {
        1int
    } else {
        0int
    }));
}

/// A leap year adds a leap day to those before the next year.
proof fn lemma_leaps_before(year: int)
    requires
        0 <= year,
    ensures
        leaps_before(year + 1) == leaps_before(year) + (if is_leap(year) {
            1int
        } else {
            0int
        }),
{
    if year > 0 {
        lemma_leap_days(year);
    } else {
        reveal(leap_days);
    }
}

/// A time of a day is as many minutes after that of the day before as a day has, over the end
/// of a month and of a year too.
pub proof fn days_are_a_day_apart(year: int, month: int, day: int, hour: int, minute: int)
    requires
        0 <= year,
        1 <= month <= 12,
        1 <= day <= month_length(month, is_leap(year)),
    ensures
        day < month_length(month, is_leap(year)) ==> minutes_at(
            year,
            month,
            day + 1,
            hour,
            minute,
        ) == minutes_at(year, month, day, hour, minute) + 24 * 60,
        day == month_length(month, is_leap(year)) && month < 12 ==> minutes_at(
            year,
            month + 1,
            1,
            hour,
            minute,
        ) == minutes_at(year, month, day, hour, minute) + 24 * 60,
        day == month_length(month, is_leap(year)) && month == 12 ==> minutes_at(
            year + 1,
            1,
            1,
            hour,
            minute,
        ) == minutes_at(year, month, day, hour, minute) + 24 * 60,
{
    lemma_leaps_before(year);
}

/// The minutes between two timestamps do not depend on which is named first, are none between
/// a timestamp and itself, and are no more than those over a third timestamp.
pub proof fn minutes_are_a_distance(a: Seq<u8>, b: Seq<u8>, c: Seq<u8>)
    ensures
        distance(minutes_of(a), minutes_of(b)) == distance(minutes_of(b), minutes_of(a)),
        distance(minutes_of(a), minutes_of(a)) == 0,
        distance(minutes_of(a), minutes_of(c)) <= distance(minutes_of(a), minutes_of(b)) + distance(
            minutes_of(b),
            minutes_of(c),
        ),
{
}

/// Whether the byte at a place is a digit.
pub open spec fn digit_stands_at(ts: Seq<u8>, k: int) -> bool {
    48 <= ts[k] <= 57
}

/// Whether a text is written as a timestamp: so many digits for the year, the month, the day,
/// the hour and the minute, each at its place.
pub open spec fn is_written(ts: Seq<u8>) -> bool {
    &&& ts.len() >= 16
    &&& digit_stands_at(ts, 0) && digit_stands_at(ts, 1)
    &&& digit_stands_at(ts, 2) && digit_stands_at(ts, 3)
    &&& digit_stands_at(ts, 5) && digit_stands_at(ts, 6)
    &&& digit_stands_at(ts, 8) && digit_stands_at(ts, 9)
    &&& digit_stands_at(ts, 11) && digit_stands_at(ts, 12)
    &&& digit_stands_at(ts, 14) && digit_stands_at(ts, 15)
}

/// What is written in a timestamp is read from it: each number is the one that its digits
/// denote, and every month from the first to the twelfth is in range.
pub proof fn a_written_timestamp_is_read(ts: Seq<u8>)
    requires
        is_written(ts),
    ensures
        year_of(ts) == bytes::decimal(ts.subrange(0, 4)),
        month_of(ts) == bytes::decimal(ts.subrange(5, 7)),
        day_of(ts) == bytes::decimal(ts.subrange(8, 10)),
        hour_of(ts) == bytes::decimal(ts.subrange(11, 13)),
        minute_of(ts) == bytes::decimal(ts.subrange(14, 16)),
        hour_in_range(ts),
        1 <= month_of(ts) <= 12 ==> minutes_in_range(ts),
{
    lemma_pair(ts, 0);
    lemma_pair(ts, 2);
    lemma_pair(ts, 5);
    lemma_pair(ts, 8);
    lemma_pair(ts, 11);
    lemma_pair(ts, 14);
    let y = ts.subrange(0, 4);
    reveal_with_fuel(bytes::decimal, 5);
    assert(y.drop_last() =~= ts.subrange(0, 3));
    assert(ts.subrange(0, 3).drop_last() =~= ts.subrange(0, 2));
}

proof fn lemma_pair(ts: Seq<u8>, k: int)
    requires
        0 <= k,
        k + 2 <= ts.len(),
    ensures
        pair_at(ts, k) == bytes::decimal(ts.subrange(k, k + 2)),
{
    let s = ts.subrange(k, k + 2);
    reveal_with_fuel(bytes::decimal, 3);
    assert(s.drop_last() =~= seq![ts[k]]);
    assert(seq![ts[k]].drop_last() =~= Seq::empty());
}

/// Within a day an hour is sixty minutes, and a minute is one.
pub proof fn hours_have_sixty_minutes(
    year: int,
    month: int,
    day: int,
    hour: int,
    minute: int,
    hour2: int,
    minute2: int,
)
    ensures
        minutes_at(year, month, day, hour2, minute2) - minutes_at(year, month, day, hour, minute)
            == 60 * (hour2 - hour) + (minute2 - minute),
{
}

/// Days of a month follow each other, every month has its days, and every year: 366 in those
/// that four divides, but not a hundred unless four hundred does, and else 365.
pub proof fn months_and_years_have_their_days(year: int, month: int, day: int, more: int)
    requires
        0 <= year,
        1 <= month <= 12,
    ensures
        minutes_at(year, month, day + more, 0, 0) - minutes_at(year, month, day, 0, 0) == 1440
            * more,
        ({
            let leap = year % 4 == 0 && (year % 100 != 0 || year % 400 == 0);
            let first = minutes_at(year, month, 1, 0, 0);
            let next = if month == 12 {
                minutes_at(year + 1, 1, 1, 0, 0)
            } else {
                minutes_at(year, month + 1, 1, 0, 0)
            };
            &&& month == 2 && leap ==> next - first == 29 * 1440
            &&& month == 2 && !leap ==> next - first == 28 * 1440
            &&& month == 4 || month == 6 || month == 9 || month == 11 ==> next - first == 30
                * 1440
            &&& month == 1 || month == 3 || month == 5 || month == 7 || month == 8 || month == 10
                || month == 12 ==> next - first == 31 * 1440
        }),
        minutes_at(year + 1, 1, 1, 0, 0) - minutes_at(year, 1, 1, 0, 0) == 1440 * (if year % 4 == 0
            && (year % 100 != 0 || year % 400 == 0) {
            366int
        } else {
            365int
        }),
{
    lemma_leaps_before(year);
}

/// How far apart two points in time are, whichever comes first.
pub proof fn a_distance_is_what_lies_between(a: int, more: int)
    requires
        0 <= more,
    ensures
        distance(a, a + more) == more,
        distance(a + more, a) == more,
{
}

/// The day of the week goes by the days that have passed: Monday is zero, and the first day of
/// the year 2000 was a Saturday.
pub proof fn the_weekday_goes_by_the_days(year: int, month: int, day: int)
    requires
        1 <= year,
        1 <= month <= 12,
        1 <= day,
    ensures
        weekday(year, month, day) == (5 + (minutes_at(year, month, day, 0, 0) - minutes_at(
            2000,
            1,
            1,
            0,
            0,
        )) / 1440) % 7,
{
    lemma_leap_days(year);
    lemma_leap_days(2000);
    let n = day_number(year, month, day);
    let base = leap_days(1999);
    assert(base == 484) by {
        reveal(leap_days);
    }
    let days = (minutes_at(year, month, day, 0, 0) - minutes_at(2000, 1, 1, 0, 0)) / 1440;
    assert(days == (year - 2000) * 365 + leaps_before(year) + days_before(month) + (if month > 2
        && is_leap(year) {
        1int
    } else {
        0int
    }) + day - (485 + 1));
    if month < 3 {
        if year > 1 {
            lemma_leap_days(year - 1);
        } else {
            reveal(leap_days);
        }
        assert(days == 365 * year - 730000 + leap_days(year - 1) + days_before(month) + day - 485);
        assert(n == year - 1 + leap_days(year - 1) + month_shift(month) + day);
    } else {
        assert(days == 365 * year - 730000 + leap_days(year) + days_before(month) + day - 485);
        assert(n == year + leap_days(year) + month_shift(month) + day);
    }
    assert(n >= 0);
    let shift = days_before(month) - month_shift(month) + (if month < 3 {
        1int
    } else {
        0int
    });
    assert(days + 5 == n + 6 + 364 * year - 730486 + shift);
    assert((shift - 730486) % 7 == 0);
    let k = (shift - 730486) / 7;
    assert(days + 5 == n + 6 + 7 * (52 * year + k));
    lemma_whole_weeks(n + 6, 52 * year + k);
}

proof fn lemma_whole_weeks(n: int, k: int)
    ensures
        (n + 7 * k) % 7 == n % 7,
{
}

/// The hour of a timestamp is the number at its place, and the day of the week that of its
/// date; there is neither for one that is too short, or whose month is none.
pub proof fn the_hour_and_the_weekday_are_read(ts: &[u8], r: Option<(u8, u8)>)
    requires
        is_written(ts@),
        call_ensures(parse_timestamp, (ts,), r),
    ensures
        r is Some <==> 1 <= bytes::decimal(ts@.subrange(5, 7)) <= 12,
        r matches Some((hour, day)) ==> hour == bytes::decimal(ts@.subrange(11, 13)) && day
            == weekday(
            bytes::decimal(ts@.subrange(0, 4)),
            bytes::decimal(ts@.subrange(5, 7)),
            bytes::decimal(ts@.subrange(8, 10)),
        ),
{
    a_written_timestamp_is_read(ts@);
}

/// The minutes between two timestamps are those between the points in time that they denote,
/// whichever comes first; there are none only where a timestamp is too short.
pub proof fn the_minutes_between_are_read(a: &[u8], b: &[u8], r: Option<u64>)
    requires
        minutes_in_range(a@),
        minutes_in_range(b@),
        call_ensures(parse_minutes_diff, (a, b), r),
    ensures
        r is Some <==> a@.len() >= 16 && b@.len() >= 16,
        r matches Some(minutes) ==> minutes == minutes_of(a@) - minutes_of(b@) || minutes
            == minutes_of(b@) - minutes_of(a@),
{
}

} // verus!
