//! The five-month calendar: a year of five great months of 73 days each,
//! projected from seconds since the epoch, with a date sentence and the
//! rows of a month table.

use crate::text::{dec_digits, push_char, u64_to_string};
use vstd::prelude::*;

verus! {

/// Days in one of the five great months.
pub const DAYS_IN_MONTH: u32 = 73;

/// Seconds in a day.
pub const SECONDS_IN_DAY: u64 = 86400;

/// Seconds in a five-month year of 365 days.
pub const SECONDS_IN_YEAR: u64 = 31536000;

/// Seconds in one great month.
pub const SECONDS_IN_MONTH: u64 = 6307200;

/// The year the calendar starts its count at.
pub const INCIPIT_AOK: u64 = 2000;

/// A date: day and month within the five-month year, and the year.
pub struct Curr {
    pub day: u64,
    pub month: u64,
    pub year: u64,
}

impl Curr {
    /// The zero date.
    pub fn new() -> (r: Self)
        ensures
            r.day == 0,
            r.month == 0,
            r.year == 0,
    {
        Curr { day: 0, month: 0, year: 0 }
    }
}

/// The date a count of seconds since the epoch falls on: years of 365
/// days from 1970, months of 73 days five to the year, and the day of the
/// month corrected down by one day per four years.
pub fn current_date(secs: u64) -> (r: Curr)
    requires
        ((secs as int) / (SECONDS_IN_DAY as int)) % 365 >= ((secs as int) / (
        SECONDS_IN_YEAR as int)) / 4,
    ensures
        r.year as int == 1970 + (secs as int) / (SECONDS_IN_YEAR as int),
        r.month as int == ((secs as int) / (SECONDS_IN_MONTH as int)) % 5,
        r.day as int == (((secs as int) / (SECONDS_IN_DAY as int)) % 365 - ((secs as int) / (
        SECONDS_IN_YEAR as int)) / 4) % 73,
{
    let years_since = secs / SECONDS_IN_YEAR;
    let leaps_since = years_since / 4;
    let months_since = secs / SECONDS_IN_MONTH;
    let days_since = secs / SECONDS_IN_DAY;
    let day_number = days_since % 365 - leaps_since;
    Curr {
        year: 1970 + years_since,
        month: months_since % 5,
        day: day_number % (DAYS_IN_MONTH as u64),
    }
}

/// The ordinal suffix a day number takes: `st`, `nd` and `rd` after one,
/// two and three — eleven through thirteen included — and `th` otherwise.
pub open spec fn suffix_m(day: int) -> Seq<char> {
    if day % 10 == 1 {
        "st"@
    } else if day % 10 == 2 {
        "nd"@
    } else if day % 10 == 3 {
        "rd"@
    } else {
        "th"@
    }
}

/// The name of a great month; months outside one through five have none.
pub open spec fn month_name_m(month: int) -> Seq<char> {
    if month == 1 {
        "Uttunul"@
    } else if month == 2 {
        "Murrumur"@
    } else if month == 3 {
        "Oddubb"@
    } else if month == 4 {
        "Djynxx"@
    } else if month == 5 {
        "Khattak"@
    } else {
        ""@
    }
}

/// The sentence a date prints as.
pub open spec fn date_string_m(c: Curr) -> Seq<char> {
    "The "@ + dec_digits(c.day as int) + suffix_m(c.day as int) + " day of "@ + month_name_m(
        c.month as int,
    ) + " in the year "@ + dec_digits(c.year as int - 2000) + " AOK."@ + "\n\n"@
}

/// The ordinal suffix of a day number.
fn suffix_of(day: u64) -> (r: &'static str)
    ensures
        r@ == suffix_m(day as int),
{
    if day % 10 == 1 {
        "st"
    } else if day % 10 == 2 {
        "nd"
    } else if day % 10 == 3 {
        "rd"
    } else {
        "th"
    }
}

/// The name of a great month.
pub fn month_name(month: u64) -> (r: &'static str)
    ensures
        r@ == month_name_m(month as int),
{
    if month == 1 {
        "Uttunul"
    } else if month == 2 {
        "Murrumur"
    } else if month == 3 {
        "Oddubb"
    } else if month == 4 {
        "Djynxx"
    } else if month == 5 {
        "Khattak"
    } else {
        ""
    }
}

/// The sentence a date prints as: the day with its ordinal suffix, the
/// month's name, and the year counted from the calendar's start.
pub fn date_string(curr: &Curr) -> (r: String)
    requires
        curr.year >= 2000,
    ensures
        r@ == date_string_m(*curr),
{
    let mut out = String::from_str("The ");
    let day_text = u64_to_string(curr.day);
    let out = out.concat(day_text.as_str());
    let out = out.concat(suffix_of(curr.day));
    let out = out.concat(" day of ");
    let out = out.concat(month_name(curr.month));
    let out = out.concat(" in the year ");
    let year_text = u64_to_string(curr.year - 2000);
    let out = out.concat(year_text.as_str());
    let out = out.concat(" AOK.");
    let out = out.concat("\n\n");
    proof {
        assert(out@ =~= date_string_m(*curr));
    }
    out
}

/// The rows of a month table: the day numbers one through 73, nine to a
/// row, the last row holding the remainder.
pub open spec fn month_rows_m() -> Seq<Seq<Seq<char>>> {
    Seq::new(
        9,
        |r: int|
            Seq::new(
                if r < 8 {
                    9
                } else {
                    1
                },
                |c: int| dec_digits(r * 9 + c + 1),
            ),
    )
}

/// The table of a month: day numbers one through 73 in rows of nine.
pub fn month_weeks() -> (r: Vec<Vec<String>>)
    ensures
        r.deep_view() == month_rows_m(),
{
    let mut table: Vec<Vec<String>> = Vec::new();
    let mut week: Vec<String> = Vec::new();
    let mut i: u32 = 1;
    while i <= DAYS_IN_MONTH
        invariant
            1 <= i <= DAYS_IN_MONTH + 1,
            table.deep_view() == month_rows_m().take(((i - 1) as int) / 9),
            week.deep_view() == Seq::new(
                (((i - 1) as int) % 9) as nat,
                |c: int| dec_digits((((i - 1) as int) / 9) * 9 + c + 1),
            ),
        decreases DAYS_IN_MONTH + 1 - i,
    {
        let ghost w_before = week.deep_view();
        week.push(u64_to_string(i as u64));
        proof {
            assert(week.deep_view() =~= w_before.push(dec_digits(i as int)));
        }
        if i % 9 == 0 {
            let ghost t_before = table.deep_view();
            let ghost row = week.deep_view();
            let done_week = week;
            week = Vec::new();
            table.push(done_week);
            proof {
                assert(table.deep_view() =~= t_before.push(row));
                assert(week.deep_view() =~= Seq::<Seq<char>>::empty());
                assert(row =~= month_rows_m()[(i as int) / 9 - 1]);
                assert(table.deep_view() =~= month_rows_m().take((i as int) / 9));
            }
        } else {
            proof {
                assert(week.deep_view() =~= Seq::new(
                    ((i as int) % 9) as nat,
                    |c: int| dec_digits(((i as int) / 9) * 9 + c + 1),
                ));
            }
        }
        i = i + 1;
    }
    if week.len() > 0 {
        let ghost t_before = table.deep_view();
        let ghost row = week.deep_view();
        table.push(week);
        proof {
            assert(table.deep_view() =~= t_before.push(row));
            assert(row =~= month_rows_m()[8]);
            assert(table.deep_view() =~= month_rows_m());
        }
    }
    table
}

} // verus!
