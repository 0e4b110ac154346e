//! The current day, as the local clock shows it.

use vstd::prelude::*;

use crate::number::{
    all_digits, decimal, i32_value, lemma_decimal, lemma_zero_padded, parse_i32, parse_u32,
    u32_value, zero_padded,
};
use crate::text::{chars_of, is_digit, is_text};

verus! {

/// Whether the year has a leap day.
pub open spec fn is_leap_year(year: int) -> bool {
    year % 4 == 0 && (year % 100 != 0 || year % 400 == 0)
}

/// How many days a month has.
pub open spec fn days_in_month(year: int, month: int) -> int {
    if month == 2 {
        if is_leap_year(year) {
            29
        } else {
            28
        }
    } else if month == 4 || month == 6 || month == 9 || month == 11 {
        30
    } else {
        31
    }
}

/// Whether this is a day of the Gregorian calendar.
pub open spec fn is_calendar_day(year: int, month: int, day: int) -> bool {
    &&& i32::MIN <= year <= i32::MAX
    &&& 1 <= month <= 12
    &&& 1 <= day <= days_in_month(year, month)
}

/// A year in at least four digits, with a sign where four would not do.
pub open spec fn year_text(year: int) -> Seq<char> {
    if 0 <= year <= 9999 {
        zero_padded(decimal(year as nat), 4)
    } else if year < 0 {
        seq!['-'] + zero_padded(decimal((-year) as nat), 4)
    } else {
        seq!['+'] + zero_padded(decimal(year as nat), 4)
    }
}

/// A month or a day in two digits.
pub open spec fn two_digits(n: int) -> Seq<char> {
    zero_padded(decimal(n as nat), 2)
}

/// A day as year, month and day, with hyphens between them.
pub open spec fn date_text(year: int, month: int, day: int) -> Seq<char> {
    year_text(year) + seq!['-'] + two_digits(month) + seq!['-'] + two_digits(day)
}

/// Whether the text is that of some day.
pub open spec fn is_date_text(s: Seq<char>) -> bool {
    exists|year: int, month: int, day: int|
        is_calendar_day(year, month, day) && s == #[trigger] date_text(year, month, day)
}

/// What the local clock shows, all of it read at one moment.
struct ClockReading {
    date: String,
    year: String,
    month: String,
    day: String,
}

/// Whether the reading shows this day.
spec fn shows(r: ClockReading, year: int, month: int, day: int) -> bool {
    &&& r.date@ == date_text(year, month, day)
    &&& r.year@ == year_text(year)
    &&& r.month@ == two_digits(month)
    &&& r.day@ == two_digits(day)
}

/// Whether the reading shows some calendar day.
spec fn shows_a_day(r: ClockReading) -> bool {
    exists|year: int, month: int, day: int|
        is_calendar_day(year, month, day) && #[trigger] shows(r, year, month, day)
}

/// Reads the clock with `chrono::Local::now` and writes what it shows with
/// `chrono::DateTime::format`. Claimed: the four texts are those of one and the
/// same calendar day, `%Y` giving the year in at least four digits, with a sign
/// outside 0 to 9999, and `%m` and `%d` giving two digits each. Which day it is
/// depends on the moment and on the time zone, and is left open. The outside
/// function does not return if the clock stands before 1970 or if no offset for
/// the time zone can be had.
#[verifier::external_body]
fn read_clock(
    date_format: &str,
    year_format: &str,
    month_format: &str,
    day_format: &str,
) -> (r: ClockReading)
    requires
        date_format@ == "%Y-%m-%d"@,
        year_format@ == "%Y"@,
        month_format@ == "%m"@,
        day_format@ == "%d"@,
    ensures
        shows_a_day(r),
{
    let now = chrono::Local::now();
    ClockReading {
        date: now.format(date_format).to_string(),
        year: now.format(year_format).to_string(),
        month: now.format(month_format).to_string(),
        day: now.format(day_format).to_string(),
    }
}

/// Whether this is what a reading of the clock has given.
spec fn is_reading(r: ClockReading) -> bool {
    exists|date_format: &str, year_format: &str, month_format: &str, day_format: &str|
        {
            &&& date_format@ == "%Y-%m-%d"@
            &&& year_format@ == "%Y"@
            &&& month_format@ == "%m"@
            &&& day_format@ == "%d"@
            &&& #[trigger] call_ensures(
                read_clock,
                (date_format, year_format, month_format, day_format),
                r,
            )
        }
}

/// Whether a reading of the clock has shown this day. Only a reading can make
/// this so: that a day is in the calendar is not enough.
pub closed spec fn clock_showed(year: int, month: int, day: int) -> bool {
    exists|r: ClockReading| is_reading(r) && #[trigger] shows(r, year, month, day)
}

/// Whether the text is that of a day that a reading of the clock has shown.
pub open spec fn clock_showed_text(s: Seq<char>) -> bool {
    exists|year: int, month: int, day: int|
        clock_showed(year, month, day) && is_calendar_day(year, month, day) && s
            == #[trigger] date_text(year, month, day)
}

fn read_day() -> (r: ClockReading)
    ensures
        shows_a_day(r),
        is_reading(r),
{
    read_clock("%Y-%m-%d", "%Y", "%m", "%d")
}

/// A year's text reads as the year.
pub proof fn year_text_reads_back(year: int)
    requires
        i32::MIN <= year <= i32::MAX,
    ensures
        i32_value(year_text(year)) == Some(year),
{
    let n = if year < 0 {
        (-year) as nat
    } else {
        year as nat
    };
    let digits = zero_padded(decimal(n), 4);
    lemma_decimal(n);
    lemma_zero_padded(decimal(n), 4);
    assert(is_digit(digits[0]));
    if year < 0 {
        assert(year_text(year).drop_first() =~= digits);
    } else if year > 9999 {
        assert(year_text(year).drop_first() =~= digits);
    }
}

/// The text of a month or a day reads as the number.
pub proof fn two_digits_read_back(n: int)
    requires
        0 <= n <= 99,
    ensures
        u32_value(two_digits(n)) == Some(n as nat),
        two_digits(n).len() == 2,
        all_digits(two_digits(n)),
{
    lemma_decimal(n as nat);
    lemma_zero_padded(decimal(n as nat), 2);
    lemma_short_decimal(n as nat);
    assert(is_digit(two_digits(n)[0]));
}

proof fn lemma_short_decimal(n: nat)
    requires
        n <= 99,
    ensures
        decimal(n).len() <= 2,
{
    if n >= 10 {
        assert(decimal(n / 10).len() == 1);
    }
}

/// A day that the clock has shown stands in the texts of a reading: in that of
/// the whole day, and in those of the year, the month and the day.
proof fn shown_days_were_read(year: int, month: int, day: int)
    requires
        clock_showed(year, month, day),
    ensures
        exists|r: ClockReading|
            {
                &&& #[trigger] is_reading(r)
                &&& r.date@ == date_text(year, month, day)
                &&& r.year@ == year_text(year)
                &&& r.month@ == two_digits(month)
                &&& r.day@ == two_digits(day)
            },
{
    let r = choose|r: ClockReading| is_reading(r) && #[trigger] shows(r, year, month, day);
    assert(is_reading(r));
}

/// The text of a day ends in a hyphen, the month in two digits, a hyphen and
/// the day in two digits; what stands before that reads as the year, in four
/// characters from the year 0 to the year 9999.
pub proof fn date_texts_hold_the_day(year: int, month: int, day: int)
    requires
        is_calendar_day(year, month, day),
    ensures
        ({
            let s = date_text(year, month, day);
            let n = s.len() - 6;
            &&& n >= 4
            &&& 0 <= year <= 9999 ==> n == 4
            &&& i32_value(s.take(n)) == Some(year)
            &&& s[n] == '-' && s[n + 3] == '-'
            &&& u32_value(s.subrange(n + 1, n + 3)) == Some(month as nat)
            &&& u32_value(s.subrange(n + 4, n + 6)) == Some(day as nat)
        }),
{
    let s = date_text(year, month, day);
    let n = year_text(year).len() as int;
    year_text_reads_back(year);
    two_digits_read_back(month);
    two_digits_read_back(day);
    let size = (if year < 0 {
        -year
    } else {
        year
    }) as nat;
    lemma_decimal(size);
    lemma_zero_padded(decimal(size), 4);
    if 0 <= year <= 9999 {
        lemma_four_digits(size);
    }
    assert(s.take(n) =~= year_text(year));
    assert(s.subrange(n + 1, n + 3) =~= two_digits(month));
    assert(s.subrange(n + 4, n + 6) =~= two_digits(day));
}

proof fn lemma_four_digits(n: nat)
    requires
        n <= 9999,
    ensures
        decimal(n).len() <= 4,
{
    reveal_with_fuel(decimal, 5);
}

/// Where a request names no day, the day that is asked for is one that
/// `current_date` gives; where it names one, it is that one.
pub proof fn unnamed_days_are_the_current_day(requested: &str, r: String)
    requires
        call_ensures(target_date, (requested,), r),
    ensures
        requested@.len() == 0 ==> clock_showed_text(r@) && exists|today: String| #[trigger]
            call_ensures(current_date, (), today) && r@ == today@,
        requested@.len() > 0 ==> r@ == requested@,
{
}

/// What `current_date` gives is the text of a day that the clock has shown, and
/// so is what `current_day` gives; neither gives another day of the calendar.
pub proof fn current_days_were_shown(date: String, day: (i32, u32, u32))
    requires
        call_ensures(current_date, (), date),
        call_ensures(current_day, (), day),
    ensures
        clock_showed_text(date@),
        clock_showed(day.0 as int, day.1 as int, day.2 as int),
{
}

/// Different days have different texts.
pub proof fn date_texts_differ(y1: int, m1: int, d1: int, y2: int, m2: int, d2: int)
    requires
        is_calendar_day(y1, m1, d1),
        is_calendar_day(y2, m2, d2),
        date_text(y1, m1, d1) == date_text(y2, m2, d2),
    ensures
        y1 == y2 && m1 == m2 && d1 == d2,
{
    two_digits_read_back(m1);
    two_digits_read_back(d1);
    two_digits_read_back(m2);
    two_digits_read_back(d2);
    year_text_reads_back(y1);
    year_text_reads_back(y2);
    let a = date_text(y1, m1, d1);
    let b = date_text(y2, m2, d2);
    let n = year_text(y1).len() as int;
    assert(a.len() == n + 6);
    assert(b.len() == year_text(y2).len() + 6);
    assert(a.take(n) =~= year_text(y1));
    assert(b.take(n) =~= year_text(y2));
    assert(a.subrange(n + 1, n + 3) =~= two_digits(m1));
    assert(b.subrange(n + 1, n + 3) =~= two_digits(m2));
    assert(a.subrange(n + 4, n + 6) =~= two_digits(d1));
    assert(b.subrange(n + 4, n + 6) =~= two_digits(d2));
}

/// The day that the texts of year, month and day stand for; zero takes the
/// place of what cannot be read.
pub fn day_from_texts(year: &str, month: &str, day: &str) -> (r: (i32, u32, u32))
    ensures
        r.0 == match i32_value(year@) {
            Some(n) => n,
            None => 0,
        },
        r.1 == match u32_value(month@) {
            Some(n) => n,
            None => 0,
        },
        r.2 == match u32_value(day@) {
            Some(n) => n,
            None => 0,
        },
{
    let y = chars_of(year);
    let m = chars_of(month);
    let d = chars_of(day);
    let year_number: i32 = match parse_i32(y.as_slice()) {
        Some(n) => n,
        None => 0,
    };
    let month_number: u32 = match parse_u32(m.as_slice()) {
        Some(n) => n,
        None => 0,
    };
    let day_number: u32 = match parse_u32(d.as_slice()) {
        Some(n) => n,
        None => 0,
    };
    (year_number, month_number, day_number)
}

/// The current day as a text.
pub fn current_date() -> (r: String)
    ensures
        is_date_text(r@),
        clock_showed_text(r@),
{
    let now = read_day();
    proof {
        let (year, month, day) = choose|year: int, month: int, day: int|
            is_calendar_day(year, month, day) && #[trigger] shows(now, year, month, day);
        assert(clock_showed(year, month, day));
    }
    now.date
}

/// The current day as year, month and day.
pub fn current_day() -> (r: (i32, u32, u32))
    ensures
        is_calendar_day(r.0 as int, r.1 as int, r.2 as int),
        clock_showed(r.0 as int, r.1 as int, r.2 as int),
{
    let now = read_day();
    proof {
        let (year, month, day) = choose|year: int, month: int, day: int|
            is_calendar_day(year, month, day) && #[trigger] shows(now, year, month, day);
        year_text_reads_back(year);
        two_digits_read_back(month);
        two_digits_read_back(day);
    }
    day_from_texts(now.year.as_str(), now.month.as_str(), now.day.as_str())
}

/// Whether two texts name the same day.
pub fn same_date(date: &str, today: &str) -> (r: bool)
    ensures
        r == (date@ == today@),
{
    let d = chars_of(date);
    is_text(d.as_slice(), today)
}

/// The day that is asked for: the one requested, or `today` where the request
/// names none.
pub fn requested_or(requested: &str, today: &str) -> (r: String)
    ensures
        r@ == if requested@.len() == 0 {
            today@
        } else {
            requested@
        },
{
    if requested.is_empty() {
        String::from_str(today)
    } else {
        String::from_str(requested)
    }
}

/// The day that is asked for: the one requested, or the current one where the
/// request names none.
pub fn target_date(requested: &str) -> (r: String)
    ensures
        requested@.len() > 0 ==> r@ == requested@,
        requested@.len() == 0 ==> is_date_text(r@),
        requested@.len() == 0 ==> clock_showed_text(r@),
        requested@.len() == 0 ==> exists|today: String| #[trigger]
            call_ensures(current_date, (), today) && r@ == today@,
{
    if requested.is_empty() {
        let today = current_date();
        requested_or(requested, today.as_str())
    } else {
        requested_or(requested, "")
    }
}

} // verus!
