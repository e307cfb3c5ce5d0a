//! Calendar dates of log lines, and their canonical `YYYY-MM-DD` text.

use chrono::Datelike;
use vstd::prelude::*;

use crate::text::{padded_digits, push_char, push_padded};

verus! {

/// A calendar day as year, month (1 to 12) and day of month (1 to 31).
#[derive(Clone, Copy, Debug, PartialEq, Eq, Structural)]
pub struct Date {
    pub year: i32,
    pub month: u32,
    pub day: u32,
}

impl Date {
    /// Month and day lie in their calendar ranges.
    pub open spec fn wf(self) -> bool {
        1 <= self.month <= 12 && 1 <= self.day <= 31
    }

    /// The year can be written in four digits.
    pub open spec fn four_digit_year(self) -> bool {
        0 <= self.year <= 9999
    }

    /// The date written as `YYYY-MM-DD`.
    pub open spec fn iso_text(self) -> Seq<char> {
        padded_digits(self.year as nat, 4) + seq!['-'] + padded_digits(self.month as nat, 2)
            + seq!['-'] + padded_digits(self.day as nat, 2)
    }

    /// Writes the date as `YYYY-MM-DD`.
    pub fn to_iso(&self) -> (r: String)
        requires
            self.four_digit_year(),
        ensures
            r@ == self.iso_text(),
    {
        let mut s = String::new();
        push_padded(&mut s, self.year as u32, 4);
        push_char(&mut s, '-');
        push_padded(&mut s, self.month, 2);
        push_char(&mut s, '-');
        push_padded(&mut s, self.day, 2);
        s
    }
}

/// What `chrono::NaiveDate::parse_from_str` makes of a text and a format,
/// as year, month and day.
pub uninterp spec fn parsed_date(s: Seq<char>, fmt: Seq<char>) -> Option<Date>;

/// Relies on `chrono::NaiveDate::parse_from_str`: the outcome depends on the
/// text and the format alone, and a parsed date has its month in 1 to 12 and
/// its day in 1 to 31 (`Datelike::month`, `Datelike::day`).
#[verifier::external_body]
pub(crate) fn parse_date(s: &str, fmt: &str) -> (r: Option<Date>)
    ensures
        r == parsed_date(s@, fmt@),
        r matches Some(d) ==> d.wf(),
{
    match chrono::NaiveDate::parse_from_str(s, fmt) {
        Ok(d) => Some(Date { year: d.year(), month: d.month(), day: d.day() }),
        Err(_) => None,
    }
}

} // verus!
