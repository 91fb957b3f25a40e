//! Calendar arithmetic for the history tools: a `YYYY-MM-DD` an agent typed to a Unix timestamp
//! and back.
use crate::chars::{cat2, cat5, chars_of, split, split_spec, views};
use crate::numbers::{
    all_digits, decimal, decimal_spec, decimal_u32, digits_value, is_digit, pad_zeros, parse_u32,
    without_plus, zero_padded,
};
use vstd::prelude::*;

verus! {

/// The year is a leap year of the Gregorian calendar.
pub open spec fn is_leap(year: int) -> bool {
    year % 4 == 0 && (year % 100 != 0 || year % 400 == 0)
}

/// The days of a common year that precede a month.
pub open spec fn common_days_before(month: int) -> int {
    if month == 1 {
        0
    } else if month == 2 {
        31
    } else if month == 3 {
        59
    } else if month == 4 {
        90
    } else if month == 5 {
        120
    } else if month == 6 {
        151
    } else if month == 7 {
        181
    } else if month == 8 {
        212
    } else if month == 9 {
        243
    } else if month == 10 {
        273
    } else if month == 11 {
        304
    } else {
        334
    }
}

/// The days of the year that precede a month.
pub open spec fn days_before_month(year: int, month: int) -> int {
    common_days_before(month) + if month > 2 && is_leap(year) {
        1int
    } else {
        0
    }
}

/// The days of a month.
pub open spec fn days_in_month(year: int, month: int) -> int {
    if month == 12 {
        31
    } else {
        days_before_month(year, month + 1) - days_before_month(year, month)
    }
}

/// The days from 1 January of the year 1 to 1 January of this year.
pub open spec fn days_before_year(year: int) -> int {
    365 * (year - 1) + (year - 1) / 4 - (year - 1) / 100 + (year - 1) / 400
}

/// The days from 1 January 1970 to a date. A day past the end of its month counts on into the
/// next.
pub open spec fn day_number(year: int, month: int, day: int) -> int {
    days_before_year(year) + days_before_month(year, month) + (day - 1) - 719_162
}

/// The date exists in the Gregorian calendar.
pub open spec fn valid_date(year: int, month: int, day: int) -> bool {
    1 <= month <= 12 && 1 <= day <= days_in_month(year, month)
}

/// The UTC epoch seconds at midnight of a date.
pub open spec fn epoch_spec(year: int, month: int, day: int) -> int {
    day_number(year, month, day) * 86_400
}

/// The date's midnight fits an `i64`.
pub open spec fn epoch_fits(year: int, month: int, day: int) -> bool {
    i64::MIN <= epoch_spec(year, month, day) <= i64::MAX
}

/// Counting days from 1 March, so the leap day comes last in its year.
proof fn lemma_march_count(year: int, month: int, day: int)
    requires
        1 <= month <= 12,
    ensures
        ({
            let shifted = if month <= 2 { year - 1 } else { year };
            let era = shifted / 400;
            let of_era = shifted % 400;
            let position = if month > 2 { month - 3 } else { month + 9 };
            let of_year = (153 * position + 2) / 5 + day - 1;
            let day_of_era = of_era * 365 + of_era / 4 - of_era / 100 + of_year;
            day_number(year, month, day) == era * 146_097 + day_of_era - 719_468
        }),
{
    let shifted = if month <= 2 { year - 1 } else { year };
    let era = shifted / 400;
    let of_era = shifted % 400;
    assert(shifted == 400 * era + of_era);
    assert(shifted / 4 == 100 * era + of_era / 4);
    assert(shifted / 100 == 4 * era + of_era / 100);
    if month > 2 {
        let before = year - 1;
        assert(is_leap(year) ==> year / 4 == before / 4 + 1);
        assert(year % 4 != 0 ==> year / 4 == before / 4);
        assert(year % 4 == 0 ==> year / 4 == before / 4 + 1);
        assert(year % 100 != 0 ==> year / 100 == before / 100);
        assert(year % 100 == 0 ==> year / 100 == before / 100 + 1);
        assert(year % 400 != 0 ==> year / 400 == before / 400);
        assert(year % 400 == 0 ==> year / 400 == before / 400 + 1);
    }
}

/// The UTC epoch seconds at midnight of a civil date.
pub fn epoch_secs_from_ymd(year: i64, month: i64, day: i64) -> (secs: i64)
    requires
        1 <= month <= 12,
        1 <= day <= 31,
        epoch_fits(year as int, month as int, day as int),
    ensures
        secs == epoch_spec(year as int, month as int, day as int),
{
    proof {
        lemma_march_count(year as int, month as int, day as int);
    }
    let wide: i128 = year as i128;
    let shifted: i128 = if month <= 2 { wide - 1 } else { wide };
    let of_era: i128 = if shifted % 400 >= 0 { shifted % 400 } else { shifted % 400 + 400 };
    let era: i128 = (shifted - of_era) / 400;
    assert(era == shifted as int / 400 && of_era == shifted as int % 400);
    let position: i128 = if month > 2 { month as i128 - 3 } else { month as i128 + 9 };
    let of_year: i128 = (153 * position + 2) / 5 + day as i128 - 1;
    let day_of_era: i128 = of_era * 365 + of_era / 4 - of_era / 100 + of_year;
    let days: i128 = era * 146_097 + day_of_era - 719_468;
    (days * 86_400) as i64
}

/// The number that a run of exactly this many digits stands for.
pub open spec fn digits_of(text: Seq<char>, width: int) -> Option<int> {
    if text.len() == width && all_digits(text) {
        Some(digits_value(text) as int)
    } else {
        None
    }
}

/// The year, month and day of a text that is exactly a `YYYY-MM-DD` date of the calendar.
pub open spec fn ymd_fields(text: Seq<char>) -> Option<(int, int, int)> {
    let parts = split_spec(text, "-"@);
    if parts.len() != 3 {
        None
    } else {
        match (digits_of(parts[0], 4), digits_of(parts[1], 2), digits_of(parts[2], 2)) {
            (Some(year), Some(month), Some(day)) => if valid_date(year, month, day) {
                Some((year, month, day))
            } else {
                None
            },
            _ => None,
        }
    }
}

/// The UTC epoch seconds at the start of a `YYYY-MM-DD` date.
pub open spec fn ymd_epoch(text: Seq<char>) -> Option<int> {
    match ymd_fields(text) {
        Some((year, month, day)) => Some(epoch_spec(year, month, day)),
        None => None,
    }
}

proof fn lemma_digits_bound(text: Seq<char>)
    requires
        forall|i: int| 0 <= i < text.len() ==> is_digit(#[trigger] text[i]),
    ensures
        text.len() <= 4 ==> digits_value(text) < 10_000,
        text.len() <= 2 ==> digits_value(text) < 100,
{
    reveal_with_fuel(digits_value, 5);
}

fn read_digits(text: &str, width: usize) -> (value: Option<i64>)
    requires
        width <= 4,
    ensures
        match value {
            Some(value) => digits_of(text@, width as int) == Some(value as int) && 0 <= value
                < 10_000,
            None => digits_of(text@, width as int) is None,
        },
{
    let chars = chars_of(text);
    if chars.len() != width || width == 0 || chars[0] == '+' {
        assert(text@.len() > 0 && text@[0] == '+' ==> !is_digit(text@[0]));
        return None;
    }
    assert(without_plus(text@) == text@);
    proof {
        if all_digits(text@) {
            lemma_digits_bound(text@);
        }
    }
    match parse_u32(text) {
        Some(value) => Some(value as i64),
        None => None,
    }
}

fn month_days(year: i64, month: i64) -> (days: i64)
    requires
        1 <= month <= 12,
        0 <= year < 10_000,
    ensures
        days == days_in_month(year as int, month as int),
{
    if month == 2 {
        if year % 4 == 0 && (year % 100 != 0 || year % 400 == 0) {
            29
        } else {
            28
        }
    } else if month == 4 || month == 6 || month == 9 || month == 11 {
        30
    } else {
        31
    }
}

fn read_fields(text: &str) -> (fields: Option<(i64, i64, i64)>)
    ensures
        match fields {
            Some((year, month, day)) => ymd_fields(text@) == Some(
                (year as int, month as int, day as int),
            ) && 0 <= year < 10_000,
            None => ymd_fields(text@) is None,
        },
{
    proof {
        reveal_strlit("-");
    }
    let parts = split(text, "-");
    assert(parts@.len() == views(parts@).len());
    if parts.len() != 3 {
        return None;
    }
    assert(views(parts@)[0] == parts@[0]@);
    assert(views(parts@)[1] == parts@[1]@);
    assert(views(parts@)[2] == parts@[2]@);
    let year = read_digits(parts[0].as_str(), 4);
    let month = read_digits(parts[1].as_str(), 2);
    let day = read_digits(parts[2].as_str(), 2);
    match (year, month, day) {
        (Some(year), Some(month), Some(day)) => if 1 <= month && month <= 12 && 1 <= day && day
            <= month_days(year, month) {
            Some((year, month, day))
        } else {
            None
        },
        _ => None,
    }
}

/// The UTC epoch seconds at the start of a `YYYY-MM-DD` date, or `None` when the string is not
/// exactly such a date.
pub fn parse_ymd_to_epoch(text: &str) -> (secs: Option<i64>)
    ensures
        match secs {
            Some(secs) => ymd_epoch(text@) == Some(secs as int),
            None => ymd_epoch(text@) is None,
        },
{
    match read_fields(text) {
        Some((year, month, day)) => Some(epoch_secs_from_ymd(year, month, day)),
        None => None,
    }
}

/// The year of its era that a day of the era falls in, by years that begin on 1 March.
proof fn lemma_year_of_era(day_of_era: int)
    requires
        0 <= day_of_era < 146_097,
    ensures
        ({
            let year = (day_of_era - day_of_era / 1_460 + day_of_era / 36_524 - day_of_era
                / 146_096) / 365;
            let of_year = day_of_era - (365 * year + year / 4 - year / 100);
            &&& 0 <= year < 400
            &&& 0 <= of_year <= 365
            &&& of_year == 365 ==> (year + 1) % 4 == 0 && ((year + 1) % 100 != 0 || (year + 1) % 400
                == 0)
        }),
{
    let century = if day_of_era == 146_096 { 3 } else { day_of_era / 36_524 };
    let in_century = day_of_era - 36_524 * century;
    let cycle = in_century / 1_461;
    let in_cycle = in_century - 1_461 * cycle;
    let in_year = if in_cycle == 1_460 { 3 } else { in_cycle / 365 };
    let year = 100 * century + 4 * cycle + in_year;
    assert(0 <= century <= 3);
    assert(0 <= in_century <= 36_524);
    assert(0 <= cycle <= 24);
    assert(0 <= in_cycle <= 1_460);
    assert(0 <= in_year <= 3);
    let of_year = in_cycle - 365 * in_year;
    assert(0 <= of_year <= 365);
    assert(year / 4 == 25 * century + cycle);
    assert(year / 100 == century);
    assert(day_of_era == 365 * year + year / 4 - year / 100 + of_year);
    let formula = (day_of_era - day_of_era / 1_460 + day_of_era / 36_524 - day_of_era / 146_096)
        / 365;
    assert(formula == year) by {
        let top = day_of_era - day_of_era / 1_460 + day_of_era / 36_524 - day_of_era / 146_096;
        assert(365 * year <= top < 365 * (year + 1));
    }
}

/// The month, counted from March, and the day that a day of the year falls on.
proof fn lemma_month_of_year(of_year: int)
    requires
        0 <= of_year <= 365,
    ensures
        ({
            let position = (5 * of_year + 2) / 153;
            let day = of_year - (153 * position + 2) / 5 + 1;
            let month = if position < 10 { position + 3 } else { position - 9 };
            &&& 0 <= position <= 11
            &&& 1 <= month <= 12
            &&& 1 <= day
            &&& month != 2 ==> day <= common_days_before(month + 1) - common_days_before(month)
                || (month == 12 && day <= 31)
            &&& month == 2 ==> day == of_year - 336
        }),
{
    if of_year < 31 {
    } else if of_year < 61 {
    } else if of_year < 92 {
    } else if of_year < 122 {
    } else if of_year < 153 {
    } else if of_year < 184 {
    } else if of_year < 214 {
    } else if of_year < 245 {
    } else if of_year < 275 {
    } else if of_year < 306 {
    } else if of_year < 337 {
    } else {
    }
}

/// The date that a day of a year that begins on 1 March falls on.
proof fn lemma_date_of_year(era: int, of_era: int, of_year: int)
    requires
        0 <= of_era < 400,
        0 <= of_year <= 365,
        of_year == 365 ==> is_leap(of_era + 1),
    ensures
        ({
            let position = (5 * of_year + 2) / 153;
            let day = of_year - (153 * position + 2) / 5 + 1;
            let month = if position < 10 { position + 3 } else { position - 9 };
            let march_year = of_era + era * 400;
            let year = if month <= 2 { march_year + 1 } else { march_year };
            &&& 0 <= position <= 11
            &&& valid_date(year, month, day)
            &&& day_number(year, month, day) == era * 146_097 + (of_era * 365 + of_era / 4 - of_era
                / 100 + of_year) - 719_468
        }),
{
    let position = (5 * of_year + 2) / 153;
    let day = of_year - (153 * position + 2) / 5 + 1;
    let month = if position < 10 { position + 3 } else { position - 9 };
    let march_year = of_era + era * 400;
    let year = if month <= 2 { march_year + 1 } else { march_year };
    lemma_month_of_year(of_year);
    assert(march_year / 400 == era && march_year % 400 == of_era);
    lemma_march_count(year, month, day);
    assert(valid_date(year, month, day)) by {
        if month == 2 && of_year == 365 {
            assert(is_leap(year)) by {
                assert(year % 4 == (of_era + 1) % 4);
                assert(year % 100 == (of_era + 1) % 100);
                assert(year % 400 == (of_era + 1) % 400);
            }
        }
    }
}

/// The date on which a day falls, counted from 1 January 1970.
pub open spec fn date_on(day: int) -> (int, int, int) {
    choose|date: (int, int, int)|
        valid_date(date.0, date.1, date.2) && #[trigger] day_number(date.0, date.1, date.2) == day
}

/// The civil date of `epoch_secs` UTC: the one date of the Gregorian calendar on which that
/// second falls.
pub fn ymd_from_epoch_secs(epoch_secs: i64) -> (date: (i64, u32, u32))
    ensures
        valid_date(date.0 as int, date.1 as int, date.2 as int),
        day_number(date.0 as int, date.1 as int, date.2 as int) == epoch_secs as int / 86_400,
        (date.0 as int, date.1 as int, date.2 as int) == date_on(epoch_secs as int / 86_400),
{
    let days: i64 = if epoch_secs % 86_400 >= 0 {
        epoch_secs / 86_400
    } else {
        epoch_secs / 86_400 - 1
    };
    assert(days == epoch_secs as int / 86_400);
    let shifted: i64 = days + 719_468;
    let day_of_era: i64 = if shifted % 146_097 >= 0 {
        shifted % 146_097
    } else {
        shifted % 146_097 + 146_097
    };
    let era: i64 = (shifted - day_of_era) / 146_097;
    assert(era * 146_097 + day_of_era == shifted && 0 <= day_of_era < 146_097);
    let date = civil_date(era, day_of_era);
    proof {
        let day = epoch_secs as int / 86_400;
        assert(day_number(date.0 as int, date.1 as int, date.2 as int) == day);
        let named = date_on(day);
        law_dates_are_distinct(
            date.0 as int,
            date.1 as int,
            date.2 as int,
            named.0,
            named.1,
            named.2,
        );
    }
    date
}

fn civil_date(era: i64, day_of_era: i64) -> (date: (i64, u32, u32))
    requires
        0 <= day_of_era < 146_097,
        -1_000_000_000_000 <= era <= 1_000_000_000_000,
    ensures
        valid_date(date.0 as int, date.1 as int, date.2 as int),
        day_number(date.0 as int, date.1 as int, date.2 as int) == era * 146_097 + day_of_era
            - 719_468,
{
    proof {
        lemma_year_of_era(day_of_era as int);
    }
    let year_of_era: i64 = (day_of_era - day_of_era / 1_460 + day_of_era / 36_524 - day_of_era
        / 146_096) / 365;
    let year: i64 = year_of_era + era * 400;
    let day_of_year: i64 = day_of_era - (365 * year_of_era + year_of_era / 4 - year_of_era / 100);
    proof {
        lemma_date_of_year(era as int, year_of_era as int, day_of_year as int);
    }
    let month_position: i64 = (5 * day_of_year + 2) / 153;
    let day: i64 = day_of_year - (153 * month_position + 2) / 5 + 1;
    let month: i64 = if month_position < 10 { month_position + 3 } else { month_position - 9 };
    let civil: i64 = if month <= 2 { year + 1 } else { year };
    (civil, month as u32, day as u32)
}

/// The next year begins as many days later as this one has.
proof fn lemma_year_length(year: int)
    ensures
        days_before_year(year + 1) == days_before_year(year) + 365 + if is_leap(year) {
            1int
        } else {
            0
        },
{
    let before = year - 1;
    assert(year % 4 != 0 ==> year / 4 == before / 4);
    assert(year % 4 == 0 ==> year / 4 == before / 4 + 1);
    assert(year % 100 != 0 ==> year / 100 == before / 100);
    assert(year % 100 == 0 ==> year / 100 == before / 100 + 1);
    assert(year % 400 != 0 ==> year / 400 == before / 400);
    assert(year % 400 == 0 ==> year / 400 == before / 400 + 1);
}

proof fn lemma_years_grow(earlier: int, later: int)
    requires
        earlier < later,
    ensures
        days_before_year(earlier) + 365 + (if is_leap(earlier) {
            1int
        } else {
            0
        }) <= days_before_year(later),
    decreases later - earlier,
{
    lemma_year_length(earlier);
    if earlier + 1 < later {
        lemma_years_grow(earlier + 1, later);
    }
}

/// No two dates have the same day number.
pub proof fn law_dates_are_distinct(
    year: int,
    month: int,
    day: int,
    other_year: int,
    other_month: int,
    other_day: int,
)
    requires
        valid_date(year, month, day),
        valid_date(other_year, other_month, other_day),
        day_number(year, month, day) == day_number(other_year, other_month, other_day),
    ensures
        year == other_year,
        month == other_month,
        day == other_day,
{
    if year < other_year {
        lemma_years_grow(year, other_year);
    } else if other_year < year {
        lemma_years_grow(other_year, year);
    }
}

/// A date's midnight falls on that date: the two conversions invert each other.
pub proof fn law_midnight_falls_on_its_date(
    year: int,
    month: int,
    day: int,
    back_year: int,
    back_month: int,
    back_day: int,
)
    requires
        valid_date(year, month, day),
        valid_date(back_year, back_month, back_day),
        day_number(back_year, back_month, back_day) == epoch_spec(year, month, day) / 86_400,
    ensures
        (back_year, back_month, back_day) == (year, month, day),
{
    law_dates_are_distinct(year, month, day, back_year, back_month, back_day);
}

/// A year with at least four places, the sign among them.
pub open spec fn year_text(year: int) -> Seq<char> {
    if year < 0 {
        "-"@ + zero_padded(decimal_spec((-year) as nat), 3)
    } else {
        zero_padded(decimal_spec(year as nat), 4)
    }
}

/// The `YYYY-MM-DD` of the date on which a second falls.
pub open spec fn date_text_spec(epoch_secs: int) -> Seq<char> {
    let date = date_on(epoch_secs / 86_400);
    year_text(date.0) + "-"@ + zero_padded(decimal_spec(date.1 as nat), 2) + "-"@ + zero_padded(
        decimal_spec(date.2 as nat),
        2,
    )
}

pub fn date_text(epoch_secs: i64) -> (text: String)
    ensures
        text@ == date_text_spec(epoch_secs as int),
{
    let (year, month, day) = ymd_from_epoch_secs(epoch_secs);
    let years = if year < 0 {
        let size: u64 = ((-(year + 1)) as u64) + 1;
        cat2("-", pad_zeros(decimal(size), 3).as_str())
    } else {
        pad_zeros(decimal(year as u64), 4)
    };
    cat5(
        years.as_str(),
        "-",
        pad_zeros(decimal_u32(month), 2).as_str(),
        "-",
        pad_zeros(decimal_u32(day), 2).as_str(),
    )
}

/// How long a month is: thirty days in April, June, September and November, twenty-eight or in a
/// leap year twenty-nine in February, and thirty-one in the others. A leap year is every fourth,
/// but of the centuries only every fourth.
pub open spec fn month_length(year: int, month: int) -> int {
    if month == 4 || month == 6 || month == 9 || month == 11 {
        30
    } else if month != 2 {
        31
    } else if year % 400 == 0 || (year % 4 == 0 && year % 100 != 0) {
        29
    } else {
        28
    }
}

/// The calendar counts every day once: the day after a date is one further, over the ends of months
/// and years, and the first of January 1970 is day zero.
pub proof fn law_days_are_counted_one_by_one(year: int, month: int, day: int)
    requires
        1 <= month <= 12,
        1 <= day <= month_length(year, month),
    ensures
        valid_date(year, month, day),
        day_number(1970, 1, 1) == 0,
        day_number(year, month, day + 1) == day_number(year, month, day) + 1,
        day == month_length(year, month) && month < 12 ==> day_number(year, month + 1, 1)
            == day_number(year, month, day) + 1,
        day == 31 && month == 12 ==> day_number(year + 1, 1, 1) == day_number(year, month, day) + 1,
        day == month_length(year, month) ==> !valid_date(year, month, day + 1),
{
    let before = year - 1;
    assert(year / 4 == before / 4 + if year % 4 == 0 {
        1int
    } else {
        0
    });
    assert(year / 100 == before / 100 + if year % 100 == 0 {
        1int
    } else {
        0
    });
    assert(year / 400 == before / 400 + if year % 400 == 0 {
        1int
    } else {
        0
    });
    assert(year % 400 == 0 ==> year % 100 == 0);
    assert(year % 100 == 0 ==> year % 4 == 0);
}

} // verus!
