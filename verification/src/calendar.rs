//! Times as dates on the calendar, in UTC.
use vstd::arithmetic::power::pow;
use vstd::prelude::*;

use crate::text::{
    all_digits, decimal, decimal_of, digit_char, digits_value, first_smaller, lemma_decimal, lemma_decimal_len,
    lemma_sorts_on, sorts_before, with_zeros, zero_padded,
};

verus! {

/// Whether `year` has a 29th of February.
pub open spec fn is_leap(year: nat) -> bool {
    year % 4 == 0 && (year % 100 != 0 || year % 400 == 0)
}

/// How many days `year` has.
pub open spec fn year_length(year: nat) -> nat {
    if is_leap(year) {
        366
    } else {
        365
    }
}

/// How many days a month has.
pub open spec fn month_length(year: nat, month: nat) -> nat {
    if month == 2 {
        if is_leap(year) {
            29
        } else {
            28
        }
    } else if month == 4 || month == 6 || month == 9 || month == 11 {
        30
    } else {
        31
    }
}

/// How many days there are from the start of 1970 to the start of `year`.
pub open spec fn year_start(year: nat) -> nat
    decreases year,
{
    if year <= 1970 {
        0
    } else {
        year_start((year - 1) as nat) + year_length((year - 1) as nat)
    }
}

/// How many days there are in `year` before a month.
pub open spec fn month_start(year: nat, month: nat) -> nat
    decreases month,
{
    if month <= 1 {
        0
    } else {
        month_start(year, (month - 1) as nat) + month_length(year, (month - 1) as nat)
    }
}

/// A day on the calendar.
#[derive(Debug, Clone, Copy, PartialEq, Eq)]
pub struct Date {
    /// The year.
    pub year: u64,
    /// The month, from 1 to 12.
    pub month: u64,
    /// The day of the month, from 1.
    pub day: u64,
}

impl Date {
    /// Whether there is such a day, from 1970 on.
    pub open spec fn exists_on_calendar(self) -> bool {
        &&& self.year >= 1970
        &&& 1 <= self.month <= 12
        &&& 1 <= self.day <= month_length(self.year as nat, self.month as nat)
    }

    /// How many days after the first of January 1970 this is.
    pub open spec fn days(self) -> nat {
        (year_start(self.year as nat) + month_start(self.year as nat, self.month as nat) + self.day - 1) as nat
    }
}

/// How many of the years up to `year` are leap years.
spec fn leaps(year: int) -> int {
    year / 4 - year / 100 + year / 400
}

/// The years add up: a year's start is 365 days for each year and one for each
/// leap year.
proof fn lemma_year_start(year: nat)
    requires
        year >= 1970,
    ensures
        year_start(year) == 365 * (year - 1970) + leaps(year - 1) - leaps(1969),
    decreases year,
{
    if year > 1970 {
        lemma_year_start((year - 1) as nat);
        let y = (year - 1) as nat;
        assert(leaps(y as int) - leaps(y - 1) == (if is_leap(y) {
            1int
        } else {
            0
        }));
    }
}

/// The months of a year, added up.
proof fn lemma_month_start(year: nat)
    ensures
        month_start(year, 1) == 0,
        month_start(year, 2) == 31,
        month_start(year, 3) == 31 + month_length(year, 2),
        month_start(year, 4) == 62 + month_length(year, 2),
        month_start(year, 5) == 92 + month_length(year, 2),
        month_start(year, 6) == 123 + month_length(year, 2),
        month_start(year, 7) == 153 + month_length(year, 2),
        month_start(year, 8) == 184 + month_length(year, 2),
        month_start(year, 9) == 215 + month_length(year, 2),
        month_start(year, 10) == 245 + month_length(year, 2),
        month_start(year, 11) == 276 + month_length(year, 2),
        month_start(year, 12) == 306 + month_length(year, 2),
{
    reveal_with_fuel(month_start, 13);
}

/// How many days of a 400-year era come before its year number `year`, if years
/// start in March.
spec fn era_days(year: int) -> int {
    365 * year + year / 4 - year / 100
}

/// The year that a day of a 400-year era falls in, if years start in March.
proof fn lemma_year_of_era(day: int, year: int)
    requires
        0 <= day < 146_097,
        year == (day - day / 1460 + day / 36_524 - day / 146_096) / 365,
    ensures
        0 <= year < 400,
        0 <= day - era_days(year) <= 365,
        day - era_days(year) == 365 ==> (year + 1) % 4 == 0 && ((year + 1) % 100 != 0 || (year + 1) % 400 == 0),
{
}

/// The day that is `days` after the first of January 1970.
pub fn date_of(days: u64) -> (date: Date)
    requires
        days <= u64::MAX - 719_468,
    ensures
        date.exists_on_calendar(),
        date.days() == days,
{
    // Howard Hinnant's algorithm: count from the first of March of the year 0,
    // in eras of 400 years, so that a leap day is the last day of a year.
    let z: u64 = days + 719_468;
    let era: u64 = z / 146_097;
    let day_of_era: u64 = z % 146_097;
    let year_of_era: u64 = (day_of_era - day_of_era / 1460 + day_of_era / 36_524 - day_of_era / 146_096) / 365;
    proof {
        lemma_year_of_era(day_of_era as int, year_of_era as int);
    }
    let day_of_year: u64 = day_of_era - (365 * year_of_era + year_of_era / 4 - year_of_era / 100);
    let mp: u64 = (5 * day_of_year + 2) / 153;
    let day: u64 = day_of_year - (153 * mp + 2) / 5 + 1;
    let month: u64 = if mp < 10 {
        mp + 3
    } else {
        mp - 9
    };
    let start: u64 = year_of_era + era * 400;
    let year: u64 = if month <= 2 {
        start + 1
    } else {
        start
    };
    let date = Date { year, month, day };
    proof {
        lemma_days(era as int, year_of_era as int, day_of_year as int, days as int, date);
    }
    date
}

/// The month and the day of a year that starts in March.
proof fn lemma_month_of_year(day_of_year: int, mp: int, day: int)
    requires
        0 <= day_of_year <= 365,
        mp == (5 * day_of_year + 2) / 153,
        day == day_of_year - (153 * mp + 2) / 5 + 1,
    ensures
        0 <= mp < 12,
        1 <= day <= 31,
        mp == 1 || mp == 3 || mp == 6 || mp == 8 ==> day <= 30,
        mp == 11 ==> day <= 29,
        mp == 11 && day == 29 ==> day_of_year == 365,
        day_of_year - day + 1 == (if mp == 0 {
            0int
        } else if mp == 1 {
            31
        } else if mp == 2 {
            61
        } else if mp == 3 {
            92
        } else if mp == 4 {
            122
        } else if mp == 5 {
            153
        } else if mp == 6 {
            184
        } else if mp == 7 {
            214
        } else if mp == 8 {
            245
        } else if mp == 9 {
            275
        } else if mp == 10 {
            306
        } else {
            337
        }),
{
}

/// Leap years repeat every 400 years.
proof fn lemma_leaps_repeat(era: int, year_of_era: int)
    requires
        era >= 0,
        0 <= year_of_era < 400,
    ensures
        leaps(year_of_era + 400 * era) == year_of_era / 4 - year_of_era / 100 + 97 * era,
        is_leap((year_of_era + 400 * era + 1) as nat) == ((year_of_era + 1) % 4 == 0 && ((year_of_era + 1) % 100 != 0
            || (year_of_era + 1) % 400 == 0)),
        leaps(year_of_era + 400 * era) - leaps(year_of_era + 400 * era - 1) == (if is_leap(
            (year_of_era + 400 * era) as nat,
        ) {
            1int
        } else {
            0
        }),
{
}

/// The date found is the right one: `march` is the year that its year, if years
/// start in March, starts in.
proof fn lemma_days(era: int, year_of_era: int, day_of_year: int, days: int, date: Date)
    requires
        era >= 0,
        0 <= year_of_era < 400,
        0 <= day_of_year <= 365,
        day_of_year == 365 ==> (year_of_era + 1) % 4 == 0 && ((year_of_era + 1) % 100 != 0 || (year_of_era + 1) % 400
            == 0),
        days >= 0,
        days + 719_468 == era * 146_097 + era_days(year_of_era) + day_of_year,
        ({
            let mp = (5 * day_of_year + 2) / 153;
            &&& date.day == day_of_year - (153 * mp + 2) / 5 + 1
            &&& date.month == (if mp < 10 {
                mp + 3
            } else {
                mp - 9
            })
            &&& date.year == year_of_era + era * 400 + (if date.month <= 2 {
                1int
            } else {
                0
            })
        }),
    ensures
        date.exists_on_calendar(),
        date.days() == days,
{
    let year = date.year as nat;
    let march = year_of_era + 400 * era;
    lemma_leaps_repeat(era, year_of_era);
    lemma_month_of_year(day_of_year, (5 * day_of_year + 2) / 153, date.day as int);
    let whole = 365 * march + leaps(march);
    assert(era * 146_097 + era_days(year_of_era) == whole);
    // The first of March of `march` is `whole - 719_468` days after the epoch.
    assert(march >= 1969) by {
        if march < 1969 {
            assert(leaps(march) <= 477);
        }
    }
    if date.month <= 2 {
        assert(march >= 1969);
        assert(year == march + 1);
    } else {
        assert(march >= 1970) by {
            assert(leaps(1969) == 477);
        }
    }
    lemma_month_start(year);
    lemma_year_start(year);
    assert(leaps(1969) == 477);
}

/// A later year starts no earlier.
proof fn lemma_years_follow(a: nat, b: nat)
    requires
        a <= b,
    ensures
        year_start(a) <= year_start(b),
    decreases b,
{
    if a < b {
        lemma_years_follow(a, (b - 1) as nat);
    }
}

/// A date lies within its year.
proof fn lemma_date_in_year(date: Date)
    requires
        date.exists_on_calendar(),
    ensures
        year_start(date.year as nat) <= date.days() < year_start((date.year + 1) as nat),
{
    lemma_month_start(date.year as nat);
}

/// No two dates are the same number of days after the epoch.
pub proof fn law_one_date_for_each_day(a: Date, b: Date)
    requires
        a.exists_on_calendar(),
        b.exists_on_calendar(),
        a.days() == b.days(),
    ensures
        a == b,
{
    lemma_date_in_year(a);
    lemma_date_in_year(b);
    if a.year < b.year {
        lemma_years_follow((a.year + 1) as nat, b.year as nat);
    } else if b.year < a.year {
        lemma_years_follow((b.year + 1) as nat, a.year as nat);
    } else {
        lemma_month_start(a.year as nat);
    }
}

/// The date `days` after the first of January 1970.
pub open spec fn date_at(days: nat) -> Date {
    choose|date: Date| #[trigger] date.exists_on_calendar() && date.days() == days
}

/// `n` in decimal, with zeros before it to make `width` digits.
pub open spec fn digits(n: nat, width: nat) -> Seq<char> {
    zero_padded(decimal(n), width)
}

/// A date and a time of day: year, month, day, hour, minute, second and
/// thousandths, in UTC.
pub open spec fn stamp(date: Date, ms_of_day: nat) -> Seq<char> {
    digits(date.year as nat, 4) + "-"@ + digits(date.month as nat, 2) + "-"@ + digits(date.day as nat, 2) + "T"@ + digits(
        ms_of_day / 3_600_000,
        2,
    ) + ":"@ + digits(ms_of_day / 60_000 % 60, 2) + ":"@ + digits(ms_of_day / 1000 % 60, 2) + "."@ + digits(
        ms_of_day % 1000,
        3,
    ) + "Z"@
}

/// Milliseconds since the epoch as `2026-09-26T13:54:07.250Z` (UTC).
pub open spec fn iso_text(ms: u64) -> Seq<char> {
    stamp(date_at((ms / 86_400_000) as nat), (ms % 86_400_000) as nat)
}

fn padded(n: u64, width: usize) -> (r: String)
    ensures
        r@ == digits(n as nat, width as nat),
{
    with_zeros(&decimal_of(n), width)
}

/// A date and a time of day, in UTC.
fn stamped(date: &Date, ms_of_day: u64) -> (r: String)
    ensures
        r@ == stamp(*date, ms_of_day as nat),
{
    let mut r = padded(date.year, 4);
    r.append("-");
    r.append(&padded(date.month, 2));
    r.append("-");
    r.append(&padded(date.day, 2));
    r.append("T");
    r.append(&padded(ms_of_day / 3_600_000, 2));
    r.append(":");
    r.append(&padded(ms_of_day / 60_000 % 60, 2));
    r.append(":");
    r.append(&padded(ms_of_day / 1000 % 60, 2));
    r.append(".");
    r.append(&padded(ms_of_day % 1000, 3));
    r.append("Z");
    r
}

/// Milliseconds since the epoch as `2026-09-26T13:54:07.250Z` (UTC).
#[must_use]
pub fn iso(ms: u64) -> (r: String)
    ensures
        r@ == iso_text(ms),
{
    let days: u64 = ms / 86_400_000;
    let date = date_of(days);
    proof {
        law_one_date_for_each_day(date, date_at(days as nat));
    }
    stamped(&date, ms % 86_400_000)
}

/// There is a date for every day.
proof fn lemma_date_at(days: nat)
    requires
        days <= u64::MAX - 719_468,
    ensures
        date_at(days).exists_on_calendar(),
        date_at(days).days() == days,
{
    let z = days + 719_468;
    let era = z as int / 146_097;
    let day_of_era = z as int % 146_097;
    let year_of_era = (day_of_era - day_of_era / 1460 + day_of_era / 36_524 - day_of_era / 146_096) / 365;
    lemma_year_of_era(day_of_era, year_of_era);
    let day_of_year = day_of_era - era_days(year_of_era);
    let mp = (5 * day_of_year + 2) / 153;
    let day = day_of_year - (153 * mp + 2) / 5 + 1;
    lemma_month_of_year(day_of_year, mp, day);
    let month = if mp < 10 {
        mp + 3
    } else {
        mp - 9
    };
    let year = year_of_era + era * 400 + (if month <= 2 {
        1int
    } else {
        0
    });
    let date = Date { year: year as u64, month: month as u64, day: day as u64 };
    lemma_days(era, year_of_era, day_of_year, days as int, date);
}

/// An earlier date has a smaller year, or the same year and a smaller month, or
/// the same month too and a smaller day.
proof fn lemma_earlier_date(a: Date, b: Date)
    requires
        a.exists_on_calendar(),
        b.exists_on_calendar(),
        a.days() < b.days(),
    ensures
        a.year < b.year || a.year == b.year && (a.month < b.month || a.month == b.month && a.day < b.day),
{
    lemma_date_in_year(a);
    lemma_date_in_year(b);
    if b.year < a.year {
        lemma_years_follow((b.year + 1) as nat, a.year as nat);
    } else if a.year == b.year {
        lemma_month_start(a.year as nat);
    }
}

/// The hours, minutes, seconds and thousandths of a time of day make it up.
proof fn lemma_time_of_day(ms: nat)
    requires
        ms < 86_400_000,
    ensures
        ms / 3_600_000 < 24,
        ms == ms / 3_600_000 * 3_600_000 + ms / 60_000 % 60 * 60_000 + ms / 1000 % 60 * 1000 + ms % 1000,
{
    assert(ms / 60_000 / 60 == ms / 3_600_000);
    assert(ms / 1000 / 60 == ms / 60_000);
}

/// The last digit of a number, and those before it.
proof fn lemma_last_digit(n: nat, width: nat)
    requires
        width > 1,
    ensures
        digits(n, width) == digits(n / 10, (width - 1) as nat).push(digit_char(n % 10)),
{
    lemma_decimal(n / 10);
    if n < 10 {
        assert(decimal(n / 10) =~= seq!['0']);
    }
    assert(digits(n, width) =~= digits(n / 10, (width - 1) as nat).push(digit_char(n % 10)));
}

/// The digits of a number, read again, give the number.
proof fn lemma_digits(n: nat, width: nat)
    ensures
        digits(n, width).len() >= width,
        all_digits(digits(n, width), 10),
        digits_value(digits(n, width), 10) == n,
        width > 0 && n < pow(10, width) ==> digits(n, width).len() == width,
    decreases width,
{
    lemma_decimal(n);
    if width > 1 {
        lemma_digits(n / 10, (width - 1) as nat);
        lemma_last_digit(n, width);
        assert(digits(n, width).drop_last() =~= digits(n / 10, (width - 1) as nat));
    }
    if width > 0 && n < pow(10, width) {
        lemma_decimal_len(n, width);
    }
}

/// Of two numbers written with the same number of digits, the smaller sorts first.
proof fn lemma_digits_sort(m: nat, n: nat, width: nat)
    requires
        m < n < pow(10, width),
        width > 0,
    ensures
        sorts_before(digits(m, width), digits(n, width)),
    decreases width,
{
    lemma_digits(m, width);
    lemma_digits(n, width);
    reveal(pow);
    if width == 1 {
        assert(pow(10, 0) == 1);
        assert(first_smaller(digits(m, 1), digits(n, 1), 0));
    } else {
        let w = (width - 1) as nat;
        let c = seq![digit_char(m % 10)];
        let d = seq![digit_char(n % 10)];
        lemma_last_digit(m, width);
        lemma_last_digit(n, width);
        assert(digits(m, width) =~= digits(m / 10, w) + c);
        assert(digits(n, width) =~= digits(n / 10, w) + d);
        lemma_digits(m / 10, w);
        lemma_digits(n / 10, w);
        lemma_sorts_on(digits(m / 10, w), digits(n / 10, w), c, d);
        if m / 10 < n / 10 {
            lemma_digits_sort(m / 10, n / 10, w);
        } else {
            assert(first_smaller(c, d, 0));
        }
    }
}

/// The last moment of the year 9999, in milliseconds since the epoch.
pub const LAST_OF_FOUR_DIGITS: u64 = 253_402_300_799_999;

/// The number that the digits of `text` from `from` up to `to` spell.
pub open spec fn number_at(text: Seq<char>, from: int, to: int) -> nat {
    digits_value(text.subrange(from, to), 10)
}

/// Whether `text` has the shape of `2026-09-26T13:54:07.250Z`: a year of at least
/// four digits, and a digit or a separator in every other place.
pub open spec fn is_stamp(text: Seq<char>) -> bool {
    let y = text.len() - 20;
    &&& y >= 4
    &&& all_digits(text.subrange(0, y), 10)
    &&& text[y] == '-'
    &&& all_digits(text.subrange(y + 1, y + 3), 10)
    &&& text[y + 3] == '-'
    &&& all_digits(text.subrange(y + 4, y + 6), 10)
    &&& text[y + 6] == 'T'
    &&& all_digits(text.subrange(y + 7, y + 9), 10)
    &&& text[y + 9] == ':'
    &&& all_digits(text.subrange(y + 10, y + 12), 10)
    &&& text[y + 12] == ':'
    &&& all_digits(text.subrange(y + 13, y + 15), 10)
    &&& text[y + 15] == '.'
    &&& all_digits(text.subrange(y + 16, y + 19), 10)
    &&& text[y + 19] == 'Z'
}

/// The date in a text of that shape.
pub open spec fn date_in(text: Seq<char>) -> Date {
    let y = text.len() - 20;
    Date {
        year: number_at(text, 0, y) as u64,
        month: number_at(text, y + 1, y + 3) as u64,
        day: number_at(text, y + 4, y + 6) as u64,
    }
}

/// The time of day in a text of that shape, in milliseconds.
pub open spec fn time_in(text: Seq<char>) -> nat {
    let y = text.len() - 20;
    number_at(text, y + 7, y + 9) * 3_600_000 + number_at(text, y + 10, y + 12) * 60_000 + number_at(
        text,
        y + 13,
        y + 15,
    ) * 1000 + number_at(text, y + 16, y + 19)
}

/// Where the parts of a date and a time of day stand in their text.
proof fn lemma_stamp(date: Date, ms: nat)
    requires
        date.exists_on_calendar(),
        ms < 86_400_000,
    ensures
        stamp(date, ms).len() == digits(date.year as nat, 4).len() + 20,
        is_stamp(stamp(date, ms)),
        date_in(stamp(date, ms)) == date,
        time_in(stamp(date, ms)) == ms,
{
    let year = digits(date.year as nat, 4);
    let month = digits(date.month as nat, 2);
    let day = digits(date.day as nat, 2);
    let hour = digits(ms / 3_600_000, 2);
    let minute = digits(ms / 60_000 % 60, 2);
    let second = digits(ms / 1000 % 60, 2);
    let rest = digits(ms % 1000, 3);
    lemma_time_of_day(ms);
    lemma_powers();
    lemma_digits(date.year as nat, 4);
    lemma_digits(date.month as nat, 2);
    lemma_digits(date.day as nat, 2);
    lemma_digits(ms / 3_600_000, 2);
    lemma_digits(ms / 60_000 % 60, 2);
    lemma_digits(ms / 1000 % 60, 2);
    lemma_digits(ms % 1000, 3);
    reveal_strlit("-");
    reveal_strlit("T");
    reveal_strlit(":");
    reveal_strlit(".");
    reveal_strlit("Z");
    let text = stamp(date, ms);
    let y = year.len() as int;
    assert(text.len() == y + 20);
    assert(text.subrange(0, y) =~= year);
    assert(text.subrange(y + 1, y + 3) =~= month);
    assert(text.subrange(y + 4, y + 6) =~= day);
    assert(text.subrange(y + 7, y + 9) =~= hour);
    assert(text.subrange(y + 10, y + 12) =~= minute);
    assert(text.subrange(y + 13, y + 15) =~= second);
    assert(text.subrange(y + 16, y + 19) =~= rest);
}

proof fn lemma_powers()
    ensures
        pow(10, 2) == 100,
        pow(10, 3) == 1000,
        pow(10, 4) == 10_000,
{
    reveal_with_fuel(pow, 5);
}

/// Up to the end of the year 9999 a year has four digits.
proof fn lemma_four_digits(date: Date)
    requires
        date.exists_on_calendar(),
        date.days() <= LAST_OF_FOUR_DIGITS / 86_400_000,
    ensures
        date.year < 10_000,
        digits(date.year as nat, 4).len() == 4,
{
    lemma_date_in_year(date);
    lemma_year_start(10_000);
    if date.year >= 10_000 {
        lemma_years_follow(10_000, date.year as nat);
    }
    lemma_powers();
    lemma_digits(date.year as nat, 4);
}

/// The text of any time, read as a date and a time of day in UTC, is that many
/// milliseconds after the epoch. Up to the end of the year 9999 it has 24
/// characters.
pub proof fn law_iso_reads_back(ms: u64)
    ensures
        is_stamp(iso_text(ms)),
        date_in(iso_text(ms)).exists_on_calendar(),
        time_in(iso_text(ms)) < 86_400_000,
        date_in(iso_text(ms)).days() * 86_400_000 + time_in(iso_text(ms)) == ms,
        ms <= LAST_OF_FOUR_DIGITS ==> iso_text(ms).len() == 24,
{
    let days = (ms / 86_400_000) as nat;
    lemma_date_at(days);
    lemma_stamp(date_at(days), (ms % 86_400_000) as nat);
    if ms <= LAST_OF_FOUR_DIGITS {
        lemma_four_digits(date_at(days));
    }
}

/// Up to the end of the year 9999 the texts of times sort as the times do. All of
/// their characters are ASCII, so that holds of their bytes too.
pub proof fn law_iso_texts_sort_as_times(a: u64, b: u64)
    requires
        a < b <= LAST_OF_FOUR_DIGITS,
    ensures
        iso_text(a).len() == 24,
        iso_text(b).len() == 24,
        forall|i: int| 0 <= i < 24 ==> #[trigger] iso_text(a)[i] < '\u{80}',
        forall|i: int| 0 <= i < 24 ==> #[trigger] iso_text(b)[i] < '\u{80}',
        sorts_before(iso_text(a), iso_text(b)),
{
    law_iso_reads_back(a);
    law_iso_reads_back(b);
    lemma_stamp_is_ascii(iso_text(a));
    lemma_stamp_is_ascii(iso_text(b));
    let d = date_at((a / 86_400_000) as nat);
    let e = date_at((b / 86_400_000) as nat);
    lemma_date_at((a / 86_400_000) as nat);
    lemma_date_at((b / 86_400_000) as nat);
    lemma_four_digits(d);
    lemma_four_digits(e);
    lemma_stamps_sort(d, (a % 86_400_000) as nat, e, (b % 86_400_000) as nat);
}

/// Digits and separators are ASCII.
proof fn lemma_stamp_is_ascii(text: Seq<char>)
    requires
        is_stamp(text),
        text.len() == 24,
    ensures
        forall|i: int| 0 <= i < 24 ==> #[trigger] text[i] < '\u{80}',
{
    assert forall|i: int| 0 <= i < 24 implies #[trigger] text[i] < '\u{80}' by {
        if i < 4 {
            assert(text[i] == text.subrange(0, 4)[i]);
        } else if 5 <= i < 7 {
            assert(text[i] == text.subrange(5, 7)[i - 5]);
        } else if 8 <= i < 10 {
            assert(text[i] == text.subrange(8, 10)[i - 8]);
        } else if 11 <= i < 13 {
            assert(text[i] == text.subrange(11, 13)[i - 11]);
        } else if 14 <= i < 16 {
            assert(text[i] == text.subrange(14, 16)[i - 14]);
        } else if 17 <= i < 19 {
            assert(text[i] == text.subrange(17, 19)[i - 17]);
        } else if 20 <= i < 23 {
            assert(text[i] == text.subrange(20, 23)[i - 20]);
        }
    }
}

/// One part of a text more: what is appended are the digits of two numbers, and a
/// separator.
proof fn lemma_sorts_on_digits(s: Seq<char>, t: Seq<char>, m: nat, n: nat, width: nat, sep: Seq<char>)
    requires
        s.len() == t.len(),
        width > 0,
        m < pow(10, width),
        n < pow(10, width),
    ensures
        (s + digits(m, width) + sep).len() == (t + digits(n, width) + sep).len(),
        sorts_before(s, t) || s == t && m < n ==> sorts_before(s + digits(m, width) + sep, t + digits(n, width) + sep),
{
    let more = digits(m, width);
    let other = digits(n, width);
    lemma_digits(m, width);
    lemma_digits(n, width);
    if m < n {
        lemma_digits_sort(m, n, width);
    }
    lemma_sorts_on(s, t, more, other);
    lemma_sorts_on(s + more, t + other, sep, sep);
}

/// Where years have four digits, dates and times of day sort as texts.
proof fn lemma_stamps_sort(d: Date, ms: nat, e: Date, other: nat)
    requires
        d.exists_on_calendar(),
        e.exists_on_calendar(),
        d.year < 10_000,
        e.year < 10_000,
        ms < 86_400_000,
        other < 86_400_000,
        d.days() < e.days() || d == e && ms < other,
    ensures
        sorts_before(stamp(d, ms), stamp(e, other)),
{
    lemma_powers();
    lemma_time_of_day(ms);
    lemma_time_of_day(other);
    if d.days() < e.days() {
        lemma_earlier_date(d, e);
    }
    let none = Seq::<char>::empty();
    let s1 = digits(d.year as nat, 4) + "-"@;
    let t1 = digits(e.year as nat, 4) + "-"@;
    lemma_sorts_on_digits(none, none, d.year as nat, e.year as nat, 4, "-"@);
    assert(none + digits(d.year as nat, 4) =~= digits(d.year as nat, 4));
    assert(none + digits(e.year as nat, 4) =~= digits(e.year as nat, 4));
    let s2 = s1 + digits(d.month as nat, 2) + "-"@;
    let t2 = t1 + digits(e.month as nat, 2) + "-"@;
    lemma_sorts_on_digits(s1, t1, d.month as nat, e.month as nat, 2, "-"@);
    let s3 = s2 + digits(d.day as nat, 2) + "T"@;
    let t3 = t2 + digits(e.day as nat, 2) + "T"@;
    lemma_sorts_on_digits(s2, t2, d.day as nat, e.day as nat, 2, "T"@);
    let s4 = s3 + digits(ms / 3_600_000, 2) + ":"@;
    let t4 = t3 + digits(other / 3_600_000, 2) + ":"@;
    lemma_sorts_on_digits(s3, t3, ms / 3_600_000, other / 3_600_000, 2, ":"@);
    let s5 = s4 + digits(ms / 60_000 % 60, 2) + ":"@;
    let t5 = t4 + digits(other / 60_000 % 60, 2) + ":"@;
    lemma_sorts_on_digits(s4, t4, ms / 60_000 % 60, other / 60_000 % 60, 2, ":"@);
    let s6 = s5 + digits(ms / 1000 % 60, 2) + "."@;
    let t6 = t5 + digits(other / 1000 % 60, 2) + "."@;
    lemma_sorts_on_digits(s5, t5, ms / 1000 % 60, other / 1000 % 60, 2, "."@);
    lemma_sorts_on_digits(s6, t6, ms % 1000, other % 1000, 3, "Z"@);
}

/// A year is a leap year if four divides it, but if a hundred does only if four
/// hundred does; a year has 365 days, and a leap year one more. Years follow one
/// another from 1970 on.
pub proof fn law_years(year: nat)
    ensures
        is_leap(year) == ((year % 4 == 0 && year % 100 != 0) || year % 400 == 0),
        year_length(year) == (if is_leap(year) {
            366nat
        } else {
            365
        }),
        year_start(1970) == 0,
        year >= 1970 ==> year_start(year + 1) == year_start(year) + year_length(year),
{
}

/// Each month has its days, February one more in a leap year, and the months follow
/// one another; together they are the year.
pub proof fn law_months(year: nat, month: nat)
    ensures
        month_length(year, 1) == 31 && month_length(year, 3) == 31 && month_length(year, 5) == 31,
        month_length(year, 7) == 31 && month_length(year, 8) == 31 && month_length(year, 10) == 31,
        month_length(year, 12) == 31,
        month_length(year, 4) == 30 && month_length(year, 6) == 30 && month_length(year, 9) == 30,
        month_length(year, 11) == 30,
        month_length(year, 2) == year_length(year) - 337,
        month_start(year, 1) == 0,
        1 <= month < 12 ==> month_start(year, month + 1) == month_start(year, month) + month_length(year, month),
        month_start(year, 12) + 31 == year_length(year),
{
    lemma_month_start(year);
}

/// A date is so many days after the start of its month, that so many after the start
/// of its year; the first of January 1970 is day zero, and a day has a date on the
/// calendar.
pub proof fn law_days(date: Date, days: u64)
    requires
        date.exists_on_calendar(),
        days <= u64::MAX - 719_468,
    ensures
        date.days() == year_start(date.year as nat) + month_start(date.year as nat, date.month as nat) + date.day - 1,
        (Date { year: 1970, month: 1, day: 1 }).days() == 0,
        1970 <= date.year && 1 <= date.month <= 12 && 1 <= date.day <= month_length(date.year as nat, date.month as nat),
        date_at(days as nat).exists_on_calendar() && date_at(days as nat).days() == days,
{
    lemma_date_at(days as nat);
}

}
