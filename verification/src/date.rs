use crate::text::{
    chars_of, decimal, parse_number, parse_unsigned, push_decimal, split, split_ranges, stretch,
    trim_end, trimmed_end,
};
use std::cmp::Ordering;
use vstd::prelude::*;
use vstd::string::StringExecFns;

verus! {

/// A calendar date as written in a post's header. No calendar validity is
/// checked: the thirty-first of February is a value like any other, and takes
/// its place in the order by its three numbers alone.
#[derive(Clone, Copy, Debug, PartialEq, Eq, Structural)]
pub struct Date {
    pub day: u8,
    pub month: u8,
    pub year: usize,
}

/// A text that does not write a date: a field is missing, is no number, or
/// is too large a number for its place.
#[derive(Clone, Copy, Debug, PartialEq, Eq, Structural)]
pub struct DateParseError;

/// The date that `s` writes, where it writes one: a year, a month and a day,
/// in that order, each a number and each followed by a hyphen but the day,
/// after which white space may stand. What follows a third hyphen counts for
/// nothing. The month and the day are not held to the calendar.
pub open spec fn parse_date(s: Seq<char>) -> Option<Date> {
    let fields = split(s, '-');
    if fields.len() < 3 {
        None
    } else {
        match (
            parse_unsigned(fields[0], usize::MAX as nat),
            parse_unsigned(fields[1], u8::MAX as nat),
            parse_unsigned(trim_end(fields[2]), u8::MAX as nat),
        ) {
            (Some(year), Some(month), Some(day)) => Some(
                Date { day: day as u8, month: month as u8, year: year as usize },
            ),
            _ => None,
        }
    }
}

/// The English name of the month numbered `month`, with the space that
/// parts it from the day; nothing for a number that names no month.
pub open spec fn month_prefix(month: u8) -> Seq<char> {
    if month == 1 {
        "January "@
    } else if month == 2 {
        "February "@
    } else if month == 3 {
        "March "@
    } else if month == 4 {
        "April "@
    } else if month == 5 {
        "May "@
    } else if month == 6 {
        "June "@
    } else if month == 7 {
        "July "@
    } else if month == 8 {
        "August "@
    } else if month == 9 {
        "September "@
    } else if month == 10 {
        "October "@
    } else if month == 11 {
        "November "@
    } else if month == 12 {
        "December "@
    } else {
        ""@
    }
}

/// The text of the moment `hour:minute:second` on the given day, at
/// `offset` seconds east of Greenwich, as RFC 2822 writes a date and time;
/// nothing where the numbers name no such moment.
pub uninterp spec fn rfc2822_text(
    year: int,
    month: int,
    day: int,
    hour: int,
    minute: int,
    second: int,
    offset: int,
) -> Option<Seq<char>>;

/// Calls `chrono`: `FixedOffset::east_opt` for the zone, the zone's
/// `with_ymd_and_hms` for the moment and `DateTime::to_rfc2822` for the
/// text. The text depends on the seven numbers alone, which is all that is
/// claimed of it here. `to_rfc2822` panics on a year outside 0 to 9999, so
/// such years are kept out.
#[verifier::external_body]
fn chrono_rfc2822(
    year: i32,
    month: u32,
    day: u32,
    hour: u32,
    minute: u32,
    second: u32,
    offset: i32,
) -> (r: Option<String>)
    requires
        0 <= year <= 9999,
    ensures
        match r {
            Some(text) => rfc2822_text(
                year as int,
                month as int,
                day as int,
                hour as int,
                minute as int,
                second as int,
                offset as int,
            ) == Some(text@),
            None => rfc2822_text(
                year as int,
                month as int,
                day as int,
                hour as int,
                minute as int,
                second as int,
                offset as int,
            ) is None,
        },
{
    let zone = chrono::FixedOffset::east_opt(offset)?;
    let moment = chrono::TimeZone::with_ymd_and_hms(&zone, year, month, day, hour, minute, second)
        .single()?;
    Some(moment.to_rfc2822())
}

impl Date {
    /// The long form of the date: the month's name, the day, a comma and the
    /// year, as in "March 5, 2024". Neither number is padded.
    pub open spec fn long_form(self) -> Seq<char> {
        month_prefix(self.month) + decimal(self.day as nat) + ", "@ + decimal(self.year as nat)
    }

    /// The date's midnight as a feed writes it, at `offset` seconds east of
    /// Greenwich. There is none for a year of more than four digits, nor
    /// where `rfc2822_text` has none.
    pub open spec fn feed_form(self, offset: i32) -> Option<Seq<char>> {
        if self.year <= 9999 {
            rfc2822_text(self.year as int, self.month as int, self.day as int, 0, 0, 0, offset as int)
        } else {
            None
        }
    }

    /// Reads a date written as year, month and day with hyphens between.
    pub fn from_str(date_str: &str) -> (r: Result<Date, DateParseError>)
        ensures
            match r {
                Ok(date) => parse_date(date_str@) == Some(date),
                Err(_) => parse_date(date_str@) is None,
            },
    {
        let chars = chars_of(date_str);
        let fields = split_ranges(&chars, '-');
        if fields.len() < 3 {
            return Err(DateParseError);
        }
        let ghost parts = split(chars@, '-');
        let (year_from, year_to) = fields[0];
        let (month_from, month_to) = fields[1];
        let (day_from, day_to) = fields[2];
        proof {
            assert(stretch(chars@, fields@[0]) == parts[0]);
            assert(stretch(chars@, fields@[1]) == parts[1]);
            assert(stretch(chars@, fields@[2]) == parts[2]);
        }
        let day_end = trimmed_end(&chars, day_from, day_to);
        let year = parse_number(&chars, year_from, year_to, usize::MAX);
        let month = parse_number(&chars, month_from, month_to, 255);
        let day = parse_number(&chars, day_from, day_end, 255);
        match (year, month, day) {
            (Some(year), Some(month), Some(day)) => Ok(
                Date { day: day as u8, month: month as u8, year },
            ),
            _ => Err(DateParseError),
        }
    }

    /// Writes the date in its long form.
    pub fn to_string(&self) -> (r: String)
        ensures
            r@ == self.long_form(),
    {
        let name = if self.month == 1 {
            "January "
        } else if self.month == 2 {
            "February "
        } else if self.month == 3 {
            "March "
        } else if self.month == 4 {
            "April "
        } else if self.month == 5 {
            "May "
        } else if self.month == 6 {
            "June "
        } else if self.month == 7 {
            "July "
        } else if self.month == 8 {
            "August "
        } else if self.month == 9 {
            "September "
        } else if self.month == 10 {
            "October "
        } else if self.month == 11 {
            "November "
        } else if self.month == 12 {
            "December "
        } else {
            ""
        };
        let mut out = String::from_str(name);
        push_decimal(&mut out, self.day as usize);
        out.append(", ");
        push_decimal(&mut out, self.year);
        out
    }

    /// Writes the date's midnight as a feed does, for the zone that lies
    /// `offset` seconds east of Greenwich.
    pub fn to_rfc2822(&self, offset: i32) -> (r: Option<String>)
        ensures
            match r {
                Some(text) => self.feed_form(offset) == Some(text@),
                None => self.feed_form(offset) is None,
            },
    {
        if self.year > 9999 {
            return None;
        }
        chrono_rfc2822(self.year as i32, self.month as u32, self.day as u32, 0, 0, 0, offset)
    }

    /// `self` lies strictly before `other`: an earlier year, or the same year
    /// and an earlier month, or the same year and month and an earlier day.
    pub open spec fn before(self, other: Date) -> bool {
        ||| self.year < other.year
        ||| self.year == other.year && self.month < other.month
        ||| self.year == other.year && self.month == other.month && self.day < other.day
    }

    /// `self` lies before `other` or is the same date.
    pub open spec fn not_after(self, other: Date) -> bool {
        self.before(other) || self == other
    }

    /// The place of `self` relative to `other`.
    pub open spec fn order(self, other: Date) -> Ordering {
        if self.before(other) {
            Ordering::Less
        } else if other.before(self) {
            Ordering::Greater
        } else {
            Ordering::Equal
        }
    }

    /// Compares year, then month, then day.
    pub fn compare(&self, other: &Date) -> (r: Ordering)
        ensures
            r == self.order(*other),
            r == Ordering::Equal <==> *self == *other,
    {
        if self.year > other.year {
            Ordering::Greater
        } else if self.year < other.year {
            Ordering::Less
        } else if self.month > other.month {
            Ordering::Greater
        } else if self.month < other.month {
            Ordering::Less
        } else if self.day > other.day {
            Ordering::Greater
        } else if self.day < other.day {
            Ordering::Less
        } else {
            Ordering::Equal
        }
    }

    /// Whether `self` lies strictly before `other`.
    pub fn is_before(&self, other: &Date) -> (r: bool)
        ensures
            r == self.before(*other),
    {
        self.year < other.year || (self.year == other.year && (self.month < other.month || (
        self.month == other.month && self.day < other.day)))
    }
}

impl PartialOrd for Date {
    fn partial_cmp(&self, other: &Date) -> (r: Option<Ordering>) {
        Some(self.compare(other))
    }
}

impl vstd::std_specs::cmp::PartialOrdSpecImpl for Date {
    open spec fn obeys_partial_cmp_spec() -> bool {
        true
    }

    open spec fn partial_cmp_spec(&self, other: &Date) -> Option<Ordering> {
        Some(self.order(*other))
    }
}

/// Of two dates exactly one holds: the first is before the second, they are
/// the same date, or the second is before the first.
pub proof fn lemma_order_trichotomy(a: Date, b: Date)
    ensures
        a.before(b) || a == b || b.before(a),
        !(a.before(b) && a == b),
        !(a.before(b) && b.before(a)),
        !(a == b && b.before(a)),
{
}

/// If `a` is before `b` and `b` is before `c`, then `a` is before `c`.
pub proof fn lemma_order_transitive(a: Date, b: Date, c: Date)
    requires
        a.before(b),
        b.before(c),
    ensures
        a.before(c),
{
}

/// If `a` is not after `b` and `b` is not after `c`, then `a` is not after `c`.
pub proof fn lemma_not_after_transitive(a: Date, b: Date, c: Date)
    requires
        a.not_after(b),
        b.not_after(c),
    ensures
        a.not_after(c),
{
}

/// No date is before itself; a date is not after itself; and two dates each
/// not after the other are the same date.
pub proof fn lemma_order_reflexive_antisymmetric(a: Date, b: Date)
    ensures
        !a.before(a),
        a.not_after(a),
        a.not_after(b) && b.not_after(a) ==> a == b,
{
}

} // verus!
