use vstd::prelude::*;
use chrono::{Datelike, NaiveDate};
use crate::utils::text::{ascii_upper, digit_char, digit_value, is_digit};

verus! {

/// The first year that a date can have.
pub const MIN_YEAR: i32 = -262143;

/// The last year that a date can have.
pub const MAX_YEAR: i32 = 262142;

/// Whether a year of the proleptic Gregorian calendar has a 29th of February.
pub open spec fn is_leap_year(year: int) -> bool {
    year % 4 == 0 && (year % 100 != 0 || year % 400 == 0)
}

/// The number of days of a month.
pub open spec fn days_in_month(year: int, month: int) -> int {
    if month == 2 {
        if is_leap_year(year) {
            29
        } else {
            28
        }
    } else if month == 4 || month == 6 || month == 9 || month == 11 {
        30
    } else {
        31
    }
}

/// A day of the proleptic Gregorian calendar.
#[derive(PartialEq, Eq, Structural, Debug, Clone, Copy, Hash)]
pub struct CalendarDate {
    pub year: i32,
    pub month: u32,
    pub day: u32,
}

/// The date that `chrono` reads from a text in one of its formats, as year,
/// month and day, or none where the text is not a date of that format.
pub uninterp spec fn parsed_date(text: Seq<char>, format: Seq<char>) -> Option<(i32, u32, u32)>;

/// The expiry format of the four-part dialect: day, month abbreviation, two-digit year.
pub open spec fn day_month_year() -> Seq<char> {
    "%d%h%y"@
}

/// The expiry format of the five-part dialect: two-digit year, month, day.
pub open spec fn year_month_day() -> Seq<char> {
    "%y%m%d"@
}

/// A number below a hundred, written with two digits.
pub open spec fn two_digits(n: int) -> Seq<char> {
    seq![digit_char(n / 10), digit_char(n % 10)]
}

/// The number that two digits write.
pub open spec fn two_digit_value(tens: char, ones: char) -> int {
    digit_value(tens) * 10 + digit_value(ones)
}

/// The three letters that abbreviate a month.
pub open spec fn month_abbreviation(month: int) -> Seq<char> {
    if month == 1 {
        seq!['J', 'a', 'n']
    } else if month == 2 {
        seq!['F', 'e', 'b']
    } else if month == 3 {
        seq!['M', 'a', 'r']
    } else if month == 4 {
        seq!['A', 'p', 'r']
    } else if month == 5 {
        seq!['M', 'a', 'y']
    } else if month == 6 {
        seq!['J', 'u', 'n']
    } else if month == 7 {
        seq!['J', 'u', 'l']
    } else if month == 8 {
        seq!['A', 'u', 'g']
    } else if month == 9 {
        seq!['S', 'e', 'p']
    } else if month == 10 {
        seq!['O', 'c', 't']
    } else if month == 11 {
        seq!['N', 'o', 'v']
    } else {
        seq!['D', 'e', 'c']
    }
}

/// The month that three letters abbreviate, in capitals or in small letters,
/// or zero where they abbreviate none.
pub open spec fn month_number(first: char, second: char, third: char) -> int {
    let a = ascii_upper(first);
    let b = ascii_upper(second);
    let c = ascii_upper(third);
    if a == 'J' && b == 'A' && c == 'N' {
        1
    } else if a == 'F' && b == 'E' && c == 'B' {
        2
    } else if a == 'M' && b == 'A' && c == 'R' {
        3
    } else if a == 'A' && b == 'P' && c == 'R' {
        4
    } else if a == 'M' && b == 'A' && c == 'Y' {
        5
    } else if a == 'J' && b == 'U' && c == 'N' {
        6
    } else if a == 'J' && b == 'U' && c == 'L' {
        7
    } else if a == 'A' && b == 'U' && c == 'G' {
        8
    } else if a == 'S' && b == 'E' && c == 'P' {
        9
    } else if a == 'O' && b == 'C' && c == 'T' {
        10
    } else if a == 'N' && b == 'O' && c == 'V' {
        11
    } else if a == 'D' && b == 'E' && c == 'C' {
        12
    } else {
        0
    }
}

/// The year that a two-digit year stands for: one of 1970 to 2069.
pub open spec fn century_year(two: int) -> int {
    if two < 70 {
        2000 + two
    } else {
        1900 + two
    }
}

/// The date of a year, month and day, where that day exists.
pub open spec fn existing(year: int, month: int, day: int) -> Option<CalendarDate> {
    if MIN_YEAR <= year <= MAX_YEAR && 1 <= month <= 12 && 1 <= day <= days_in_month(
        year,
        month,
    ) {
        Some(CalendarDate { year: year as i32, month: month as u32, day: day as u32 })
    } else {
        None
    }
}

/// A date as the four-part dialect writes it: two digits for the day, the
/// abbreviation of the month, two digits for the year within its century.
pub open spec fn day_month_year_text(date: CalendarDate) -> Seq<char> {
    two_digits(date.day as int) + month_abbreviation(date.month as int) + two_digits(
        (date.year as int) % 100,
    )
}

/// A date as the five-part dialect writes it: two digits each for the year
/// within its century, the month and the day.
pub open spec fn year_month_day_text(date: CalendarDate) -> Seq<char> {
    two_digits((date.year as int) % 100) + two_digits(date.month as int) + two_digits(date.day as int)
}

/// Whether a text has the shape of a date of the four-part dialect: two
/// digits, the abbreviation of a month, two digits.
pub open spec fn is_day_month_year(text: Seq<char>) -> bool {
    &&& text.len() == 7
    &&& is_digit(text[0]) && is_digit(text[1])
    &&& month_number(text[2], text[3], text[4]) != 0
    &&& is_digit(text[5]) && is_digit(text[6])
}

/// The date that a text of that shape writes, where that day exists.
pub open spec fn read_day_month_year(text: Seq<char>) -> Option<CalendarDate> {
    existing(
        century_year(two_digit_value(text[5], text[6])),
        month_number(text[2], text[3], text[4]),
        two_digit_value(text[0], text[1]),
    )
}

/// Whether a text has the shape of a date of the five-part dialect: six digits.
pub open spec fn is_year_month_day(text: Seq<char>) -> bool {
    &&& text.len() == 6
    &&& forall|i: int| 0 <= i < 6 ==> is_digit(#[trigger] text[i])
}

/// The date that six digits write, where that day exists.
pub open spec fn read_year_month_day(text: Seq<char>) -> Option<CalendarDate> {
    existing(
        century_year(two_digit_value(text[0], text[1])),
        two_digit_value(text[2], text[3]),
        two_digit_value(text[4], text[5]),
    )
}

/// The date that a text writes in a format: for a text in the shape of one of
/// the two dialects, read in that dialect's format, it is the date that the
/// digits and letters say; for any other text or format it is what `chrono`
/// reads.
pub open spec fn date_of(text: Seq<char>, format: Seq<char>) -> Option<CalendarDate> {
    if format == day_month_year() && is_day_month_year(text) {
        read_day_month_year(text)
    } else if format == year_month_day() && is_year_month_day(text) {
        read_year_month_day(text)
    } else {
        match parsed_date(text, format) {
            Some(found) => Some(CalendarDate { year: found.0, month: found.1, day: found.2 }),
            None => None,
        }
    }
}

impl CalendarDate {
    /// The day exists: the month is one of twelve, the day one of the month's,
    /// and the year within the range of dates.
    pub open spec fn wf(&self) -> bool {
        &&& MIN_YEAR <= self.year <= MAX_YEAR
        &&& 1 <= self.month <= 12
        &&& 1 <= self.day <= days_in_month(self.year as int, self.month as int)
    }

    /// The date of a year, month and day, where that day exists.
    pub fn from_ymd_opt(year: i32, month: u32, day: u32) -> (r: Option<CalendarDate>)
        ensures
            r == if (CalendarDate { year, month, day }).wf() {
                Some(CalendarDate { year, month, day })
            } else {
                None
            },
    {
        if year < MIN_YEAR || year > MAX_YEAR || month < 1 || month > 12 || day < 1 {
            return None;
        }
        let leap: bool = year % 4 == 0 && (year % 100 != 0 || year % 400 == 0);
        let days: u32 = if month == 2 {
            if leap {
                29
            } else {
                28
            }
        } else if month == 4 || month == 6 || month == 9 || month == 11 {
            30
        } else {
            31
        };
        if day > days {
            None
        } else {
            Some(CalendarDate { year, month, day })
        }
    }

    /// Reads a date that is written in a format of `chrono`.
    pub fn parse_from_str(text: &str, format: &str) -> (r: Option<CalendarDate>)
        ensures
            r == date_of(text@, format@),
            r matches Some(d) ==> d.wf(),
    {
        parse_naive_date(text, format)
    }

    /// Writes the date as the four-part dialect has it.
    pub fn to_day_month_year(&self) -> (r: String)
        requires
            self.wf(),
        ensures
            r@ == day_month_year_text(*self),
    {
        format_naive_date(self, "%d%h%y")
    }

    /// Writes the date as the five-part dialect has it.
    pub fn to_year_month_day(&self) -> (r: String)
        requires
            self.wf(),
        ensures
            r@ == year_month_day_text(*self),
    {
        format_naive_date(self, "%y%m%d")
    }
}

impl Default for CalendarDate {
    fn default() -> (r: Self)
        ensures
            r == (CalendarDate { year: 1970, month: 1, day: 1 }),
            r.wf(),
    {
        CalendarDate { year: 1970, month: 1, day: 1 }
    }
}

/// `NaiveDate::parse_from_str`: the date that `chrono` reads from `text` in
/// `format`, handed out as year, month and day, or none where `chrono`
/// reports an error. The result depends on the two texts alone, and a date
/// that `chrono` hands out exists. For `%d%h%y`, `chrono` reads two digits as
/// the day, three letters in either case as the month and two digits as the
/// year of 1970 to 2069; for `%y%m%d`, two digits each as that year, the
/// month and the day; and it hands out the date where that day exists.
#[verifier::external_body]
pub(crate) fn parse_naive_date(text: &str, format: &str) -> (r: Option<CalendarDate>)
    ensures
        match r {
            Some(d) => parsed_date(text@, format@) == Some((d.year, d.month, d.day)) && d.wf(),
            None => parsed_date(text@, format@).is_none(),
        },
        format@ == day_month_year() && is_day_month_year(text@) ==> r == read_day_month_year(
            text@,
        ),
        format@ == year_month_day() && is_year_month_day(text@) ==> r == read_year_month_day(
            text@,
        ),
{
    match NaiveDate::parse_from_str(text, format) {
        Ok(d) => Some(CalendarDate { year: d.year(), month: d.month(), day: d.day() }),
        Err(_) => None,
    }
}

/// `NaiveDate::format` on the date that `NaiveDate::from_ymd_opt` makes of an
/// existing day, for one of the two expiry formats. `%d`, `%m` and `%y` write
/// the day, the month and the year modulo 100 with two digits each; `%h`
/// writes the three-letter abbreviation of the month.
#[verifier::external_body]
pub(crate) fn format_naive_date(date: &CalendarDate, format: &str) -> (r: String)
    requires
        date.wf(),
        format@ == day_month_year() || format@ == year_month_day(),
    ensures
        format@ == day_month_year() ==> r@ == day_month_year_text(*date),
        format@ == year_month_day() ==> r@ == year_month_day_text(*date),
{
    match NaiveDate::from_ymd_opt(date.year, date.month, date.day) {
        Some(d) => d.format(format).to_string(),
        None => String::new(),
    }
}

} // verus!
