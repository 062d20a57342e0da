//! Contact timestamps: a UTC calendar date and time of day, to the second.

use crate::text::{
    chars_of, digit_value, lemma_padded_round_trip, lemma_padded_shape, number, padded,
    parse_number, pow10, push_padded,
};
use vstd::prelude::*;

verus! {

/// A calendar date and a time of day, as mathematical integers.
pub struct Moment {
    pub year: int,
    pub month: int,
    pub day: int,
    pub hour: int,
    pub minute: int,
    pub second: int,
}

/// Leap years of the proleptic Gregorian calendar.
pub open spec fn is_leap_year(year: int) -> bool {
    year % 4 == 0 && (year % 100 != 0 || year % 400 == 0)
}

/// The number of days of a month of the proleptic Gregorian calendar.
pub open spec fn days_in_month(year: int, month: int) -> int {
    if month == 2 {
        if is_leap_year(year) {
            29
        } else {
            28
        }
    } else if month == 4 || month == 6 || month == 9 || month == 11 {
        30
    } else {
        31
    }
}

impl Moment {
    /// The date exists in the calendar, its year has at most four digits,
    /// and the time of day is one of the 86 400 seconds of a day.
    pub open spec fn valid(self) -> bool {
        &&& 0 <= self.year <= 9999
        &&& 1 <= self.month <= 12
        &&& 1 <= self.day <= days_in_month(self.year, self.month)
        &&& 0 <= self.hour < 24
        &&& 0 <= self.minute < 60
        &&& 0 <= self.second < 60
    }

    /// The date as `YYYY-MM-DD`.
    pub open spec fn date_text(self) -> Seq<char> {
        padded(self.year as nat, 4).push('-') + padded(self.month as nat, 2).push('-') + padded(
            self.day as nat,
            2,
        )
    }

    /// The time of day as `HH:MM`.
    pub open spec fn time_text(self) -> Seq<char> {
        padded(self.hour as nat, 2).push(':') + padded(self.minute as nat, 2)
    }

    /// The moment as `YYYY-MM-DDTHH:MM:SSZ`, the form it has on the wire.
    pub open spec fn wire_text(self) -> Seq<char> {
        self.date_text().push('T') + self.time_text().push(':') + padded(
            self.second as nat,
            2,
        ).push('Z')
    }
}

/// The moment that a text of the form `YYYY-MM-DDTHH:MM:SSZ` writes. The
/// digits are read as they stand; whether the moment exists is another
/// question.
pub open spec fn parse_moment(s: Seq<char>) -> Option<Moment> {
    if s.len() == 20 && s[4] == '-' && s[7] == '-' && s[10] == 'T' && s[13] == ':' && s[16] == ':'
        && s[19] == 'Z' {
        match (
            number(s.subrange(0, 4)),
            number(s.subrange(5, 7)),
            number(s.subrange(8, 10)),
            number(s.subrange(11, 13)),
            number(s.subrange(14, 16)),
            number(s.subrange(17, 19)),
        ) {
            (Some(year), Some(month), Some(day), Some(hour), Some(minute), Some(second)) => Some(
                Moment {
                    year: year as int,
                    month: month as int,
                    day: day as int,
                    hour: hour as int,
                    minute: minute as int,
                    second: second as int,
                },
            ),
            _ => None,
        }
    } else {
        None
    }
}

/// The valid moment that a text writes, if it writes one.
pub open spec fn parse_valid_moment(s: Seq<char>) -> Option<Moment> {
    match parse_moment(s) {
        Some(m) => if m.valid() {
            Some(m)
        } else {
            None
        },
        None => None,
    }
}

/// The wire form of a valid moment reads back as that moment, and holds no
/// space.
pub proof fn lemma_wire_round_trip(m: Moment)
    requires
        m.valid(),
    ensures
        parse_valid_moment(m.wire_text()) == Some(m),
        !m.wire_text().contains(' '),
{
    let w = m.wire_text();
    let year = padded(m.year as nat, 4);
    let month = padded(m.month as nat, 2);
    let day = padded(m.day as nat, 2);
    let hour = padded(m.hour as nat, 2);
    let minute = padded(m.minute as nat, 2);
    let second = padded(m.second as nat, 2);
    reveal_with_fuel(pow10, 5);
    lemma_padded_shape(m.year as nat, 4);
    lemma_padded_shape(m.month as nat, 2);
    lemma_padded_shape(m.day as nat, 2);
    lemma_padded_shape(m.hour as nat, 2);
    lemma_padded_shape(m.minute as nat, 2);
    lemma_padded_shape(m.second as nat, 2);
    lemma_padded_round_trip(m.year as nat, 4);
    lemma_padded_round_trip(m.month as nat, 2);
    lemma_padded_round_trip(m.day as nat, 2);
    lemma_padded_round_trip(m.hour as nat, 2);
    lemma_padded_round_trip(m.minute as nat, 2);
    lemma_padded_round_trip(m.second as nat, 2);
    assert(w.subrange(0, 4) =~= year);
    assert(w.subrange(5, 7) =~= month);
    assert(w.subrange(8, 10) =~= day);
    assert(w.subrange(11, 13) =~= hour);
    assert(w.subrange(14, 16) =~= minute);
    assert(w.subrange(17, 19) =~= second);
    assert forall|i: int| 0 <= i < w.len() implies w[i] != ' ' by {
        if i < 4 {
            assert(digit_value(year[i]) is Some);
        } else if 5 <= i < 7 {
            assert(digit_value(month[i - 5]) is Some);
        } else if 8 <= i < 10 {
            assert(digit_value(day[i - 8]) is Some);
        } else if 11 <= i < 13 {
            assert(digit_value(hour[i - 11]) is Some);
        } else if 14 <= i < 16 {
            assert(digit_value(minute[i - 14]) is Some);
        } else if 17 <= i < 19 {
            assert(digit_value(second[i - 17]) is Some);
        }
    }
}

/// A UTC timestamp with second precision. Every value is a valid moment.
#[derive(Clone, Copy, Debug, PartialEq, Eq)]
pub struct Timestamp {
    year: i32,
    month: u32,
    day: u32,
    hour: u32,
    minute: u32,
    second: u32,
}

impl View for Timestamp {
    type V = Moment;

    closed spec fn view(&self) -> Moment {
        Moment {
            year: self.year as int,
            month: self.month as int,
            day: self.day as int,
            hour: self.hour as int,
            minute: self.minute as int,
            second: self.second as int,
        }
    }
}

/// Formats a UTC date and time with chrono's `DateTime::<Utc>::format`.
///
/// The contract covers the two patterns that the logsheet uses. It claims
/// what chrono documents for them: `%Y` writes a year from 0 to 9999 as four
/// zero-padded digits, `%m`, `%d`, `%H` and `%M` write two zero-padded
/// digits each, other characters stand for themselves, and a date and time
/// that exist are accepted by `NaiveDate::from_ymd_opt` and `and_hms_opt`.
#[verifier::external_body]
fn format_utc(stamp: &Timestamp, pattern: &str) -> (text: Option<String>)
    requires
        stamp@.valid(),
        pattern@ == "%Y-%m-%d"@ || pattern@ == "%H:%M"@,
    ensures
        text is Some,
        pattern@ == "%Y-%m-%d"@ ==> text.unwrap()@ == stamp@.date_text(),
        pattern@ == "%H:%M"@ ==> text.unwrap()@ == stamp@.time_text(),
{
    let date = chrono::NaiveDate::from_ymd_opt(stamp.year, stamp.month, stamp.day)?;
    let moment = date.and_hms_opt(stamp.hour, stamp.minute, stamp.second)?;
    Some(moment.and_utc().format(pattern).to_string())
}

impl Timestamp {
    #[verifier::type_invariant]
    pub open spec fn well_formed(&self) -> bool {
        self@.valid()
    }

    /// Makes a timestamp from calendar fields, if they name a moment that
    /// exists.
    pub fn new(year: i32, month: u32, day: u32, hour: u32, minute: u32, second: u32) -> (stamp:
        Option<Timestamp>)
        ensures
            match stamp {
                Some(t) => t@ == (Moment {
                    year: year as int,
                    month: month as int,
                    day: day as int,
                    hour: hour as int,
                    minute: minute as int,
                    second: second as int,
                }) && t@.valid(),
                None => !(Moment {
                    year: year as int,
                    month: month as int,
                    day: day as int,
                    hour: hour as int,
                    minute: minute as int,
                    second: second as int,
                }).valid(),
            },
    {
        if year < 0 || year > 9999 || month < 1 || month > 12 || day < 1 || hour >= 24 || minute
            >= 60 || second >= 60 {
            return None;
        }
        let leap = year % 4 == 0 && (year % 100 != 0 || year % 400 == 0);
        let days: u32 = if month == 2 {
            if leap {
                29
            } else {
                28
            }
        } else if month == 4 || month == 6 || month == 9 || month == 11 {
            30
        } else {
            31
        };
        if day > days {
            return None;
        }
        Some(Timestamp { year, month, day, hour, minute, second })
    }

    /// Reads a timestamp of the form `YYYY-MM-DDTHH:MM:SSZ`.
    pub fn parse(text: &str) -> (stamp: Option<Timestamp>)
        ensures
            match stamp {
                Some(t) => parse_valid_moment(text@) == Some(t@),
                None => parse_valid_moment(text@) is None,
            },
    {
        let chars = chars_of(text);
        if chars.len() != 20 {
            return None;
        }
        if chars[4] != '-' || chars[7] != '-' || chars[10] != 'T' || chars[13] != ':' || chars[16]
            != ':' || chars[19] != 'Z' {
            return None;
        }
        let year = parse_number(&chars, 0, 4, 9999);
        let month = parse_number(&chars, 5, 7, 99);
        let day = parse_number(&chars, 8, 10, 99);
        let hour = parse_number(&chars, 11, 13, 99);
        let minute = parse_number(&chars, 14, 16, 99);
        let second = parse_number(&chars, 17, 19, 99);
        match (year, month, day, hour, minute, second) {
            (Some(y), Some(mo), Some(d), Some(h), Some(mi), Some(s)) => Timestamp::new(
                y as i32,
                mo as u32,
                d as u32,
                h as u32,
                mi as u32,
                s as u32,
            ),
            _ => None,
        }
    }

    /// The year, from 0 to 9999.
    pub fn year(&self) -> (year: i32)
        ensures
            year == self@.year,
    {
        self.year
    }

    /// The month, from 1 to 12.
    pub fn month(&self) -> (month: u32)
        ensures
            month == self@.month,
    {
        self.month
    }

    /// The day of the month, from 1.
    pub fn day(&self) -> (day: u32)
        ensures
            day == self@.day,
    {
        self.day
    }

    /// The hour, from 0 to 23.
    pub fn hour(&self) -> (hour: u32)
        ensures
            hour == self@.hour,
    {
        self.hour
    }

    /// The minute, from 0 to 59.
    pub fn minute(&self) -> (minute: u32)
        ensures
            minute == self@.minute,
    {
        self.minute
    }

    /// The second, from 0 to 59.
    pub fn second(&self) -> (second: u32)
        ensures
            second == self@.second,
    {
        self.second
    }

    /// The date as `YYYY-MM-DD`.
    pub fn date_text(&self) -> (text: String)
        ensures
            text@ == self@.date_text(),
    {
        proof {
            use_type_invariant(self);
        }
        format_utc(self, "%Y-%m-%d").unwrap()
    }

    /// The time of day as `HH:MM`.
    pub fn time_text(&self) -> (text: String)
        ensures
            text@ == self@.time_text(),
    {
        proof {
            use_type_invariant(self);
        }
        format_utc(self, "%H:%M").unwrap()
    }

    /// Appends the timestamp to `out` as `YYYY-MM-DDTHH:MM:SSZ`.
    pub fn push_wire_text(&self, out: &mut String)
        ensures
            final(out)@ == old(out)@ + self@.wire_text(),
    {
        proof {
            use_type_invariant(self);
        }
        push_padded(out, self.year as u64, 4);
        out.push('-');
        push_padded(out, self.month as u64, 2);
        out.push('-');
        push_padded(out, self.day as u64, 2);
        out.push('T');
        push_padded(out, self.hour as u64, 2);
        out.push(':');
        push_padded(out, self.minute as u64, 2);
        out.push(':');
        push_padded(out, self.second as u64, 2);
        out.push('Z');
    }
}

} // verus!
