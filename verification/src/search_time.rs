use time::format_description::well_known::Rfc3339;
use time::{Date, Month, OffsetDateTime, Time, UtcOffset};
use vstd::prelude::*;

verus! {

/// A point in time, as a calendar and a clock show it at a distance from UTC.
pub struct SearchTime {
    year: i32,
    month: u8,
    day: u8,
    hour: u8,
    minute: u8,
    second: u8,
    nanosecond: u32,
    offset: (i8, i8, i8),
}

/// What a calendar and a clock show: the date, the time of day, and the distance from UTC in
/// hours, minutes and seconds.
pub struct Moment {
    pub year: int,
    pub month: int,
    pub day: int,
    pub hour: int,
    pub minute: int,
    pub second: int,
    pub nanosecond: int,
    pub offset_hours: int,
    pub offset_minutes: int,
    pub offset_seconds: int,
}

/// The Gregorian calendar has a 29th of February in `year`.
pub open spec fn is_leap_year(year: int) -> bool {
    year % 4 == 0 && (year % 100 != 0 || year % 400 == 0)
}

pub open spec fn days_in_month(year: int, month: int) -> int {
    if month == 2 {
        if is_leap_year(year) {
            29
        } else {
            28
        }
    } else if month == 4 || month == 6 || month == 9 || month == 11 {
        30
    } else {
        31
    }
}

/// The date exists, the time of day exists, and the parts of the distance from UTC share a sign.
pub open spec fn is_moment(m: Moment) -> bool {
    &&& -9999 <= m.year <= 9999
    &&& 1 <= m.month <= 12
    &&& 1 <= m.day <= days_in_month(m.year, m.month)
    &&& 0 <= m.hour < 24
    &&& 0 <= m.minute < 60
    &&& 0 <= m.second < 60
    &&& 0 <= m.nanosecond < 1_000_000_000
    &&& -25 <= m.offset_hours <= 25
    &&& -59 <= m.offset_minutes <= 59
    &&& -59 <= m.offset_seconds <= 59
    &&& {
        ||| m.offset_hours >= 0 && m.offset_minutes >= 0 && m.offset_seconds >= 0
        ||| m.offset_hours <= 0 && m.offset_minutes <= 0 && m.offset_seconds <= 0
    }
}

/// Which dates and times of day exist: months have the days of the Gregorian calendar, with a 29th
/// of February in years that four divides, out of which hundreds are left out unless four hundred
/// divides them; and the parts of the distance from UTC do not point both ways.
pub proof fn law_moments_that_exist(m: Moment)
    ensures
        is_moment(m) <==> {
            &&& -9999 <= m.year <= 9999
            &&& 1 <= m.month <= 12
            &&& m.day >= 1
            &&& m.month == 1 || m.month == 3 || m.month == 5 || m.month == 7 || m.month == 8
                || m.month == 10 || m.month == 12 ==> m.day <= 31
            &&& m.month == 4 || m.month == 6 || m.month == 9 || m.month == 11 ==> m.day <= 30
            &&& m.month == 2 ==> m.day <= 29
            &&& m.month == 2 && m.day == 29 ==> m.year % 4 == 0 && (m.year % 100 == 0 ==> m.year
                % 400 == 0)
            &&& 0 <= m.hour <= 23
            &&& 0 <= m.minute <= 59
            &&& 0 <= m.second <= 59
            &&& 0 <= m.nanosecond <= 999_999_999
            &&& -25 <= m.offset_hours <= 25
            &&& -59 <= m.offset_minutes <= 59
            &&& -59 <= m.offset_seconds <= 59
            &&& m.offset_hours > 0 || m.offset_minutes > 0 || m.offset_seconds > 0
                ==> m.offset_hours >= 0 && m.offset_minutes >= 0 && m.offset_seconds >= 0
        },
{
}

/// Which moments RFC 3339 can write: those of the years 0 to 9999, less than 24 hours away from UTC
/// and whole minutes away from it.
pub proof fn law_moments_that_can_be_written(m: Moment)
    ensures
        has_rfc3339(m) <==> 0 <= m.year <= 9999 && -23 <= m.offset_hours <= 23 && m.offset_seconds
            == 0,
{
}

/// The last `width` decimal digits of `n`.
pub open spec fn digits(n: nat, width: nat) -> Seq<char>
    decreases width,
{
    if width == 0 {
        Seq::empty()
    } else {
        digits(n / 10, (width - 1) as nat).push((48 + n % 10) as char)
    }
}

/// The last `width` decimal digits of `n`, without the zeros at their end.
pub open spec fn trimmed_digits(n: nat, width: nat) -> Seq<char>
    decreases width,
{
    if width > 0 && n % 10 == 0 {
        trimmed_digits(n / 10, (width - 1) as nat)
    } else {
        digits(n, width)
    }
}

pub open spec fn magnitude(n: int) -> nat {
    if n < 0 {
        (-n) as nat
    } else {
        n as nat
    }
}

/// RFC 3339 can write a moment: its year has four digits, and its distance from UTC is less than
/// a day and made of whole minutes.
pub open spec fn has_rfc3339(m: Moment) -> bool {
    &&& 0 <= m.year <= 9999
    &&& magnitude(m.offset_hours) <= 23
    &&& m.offset_seconds == 0
}

/// A moment as RFC 3339 writes it: `1985-04-12T23:20:50.52Z`.
pub open spec fn rfc3339(m: Moment) -> Seq<char> {
    let date = digits(m.year as nat, 4) + seq!['-'] + digits(m.month as nat, 2) + seq!['-']
        + digits(m.day as nat, 2);
    let clock = digits(m.hour as nat, 2) + seq![':'] + digits(m.minute as nat, 2) + seq![':']
        + digits(m.second as nat, 2);
    let fraction = if m.nanosecond == 0 {
        Seq::empty()
    } else {
        seq!['.'] + trimmed_digits(m.nanosecond as nat, 9)
    };
    let offset = if m.offset_hours == 0 && m.offset_minutes == 0 {
        seq!['Z']
    } else {
        seq![
            if m.offset_hours < 0 || m.offset_minutes < 0 {
                '-'
            } else {
                '+'
            },
        ] + digits(magnitude(m.offset_hours), 2) + seq![':'] + digits(
            magnitude(m.offset_minutes),
            2,
        )
    };
    date + seq!['T'] + clock + fraction + offset
}

impl View for SearchTime {
    type V = Moment;

    closed spec fn view(&self) -> Moment {
        Moment {
            year: self.year as int,
            month: self.month as int,
            day: self.day as int,
            hour: self.hour as int,
            minute: self.minute as int,
            second: self.second as int,
            nanosecond: self.nanosecond as int,
            offset_hours: self.offset.0 as int,
            offset_minutes: self.offset.1 as int,
            offset_seconds: self.offset.2 as int,
        }
    }
}

/// `OffsetDateTime::format` of `time` with `Rfc3339`, on the `OffsetDateTime` that `Date`, `Time`
/// and `UtcOffset` make of the parts of a moment: the text of RFC 3339 where it can write the
/// moment, and an error elsewhere.
#[verifier::external_body]
fn format_rfc3339(time: &SearchTime) -> (text: Option<String>)
    requires
        is_moment(time@),
    ensures
        match text {
            Some(text) => has_rfc3339(time@) && text@ == rfc3339(time@),
            None => !has_rfc3339(time@),
        },
{
    let month = Month::try_from(time.month).ok()?;
    let date = Date::from_calendar_date(time.year, month, time.day).ok()?;
    let clock = Time::from_hms_nano(time.hour, time.minute, time.second, time.nanosecond).ok()?;
    let offset = UtcOffset::from_hms(time.offset.0, time.offset.1, time.offset.2).ok()?;
    OffsetDateTime::new_in_offset(date, clock, offset).format(&Rfc3339).ok()
}

impl SearchTime {
    #[verifier::type_invariant]
    spec fn exists_on_calendar(&self) -> bool {
        is_moment(self@)
    }

    /// A point in time out of its parts; `None` where no calendar or clock shows them.
    pub fn new(
        date: (i32, u8, u8),
        clock: (u8, u8, u8),
        nanosecond: u32,
        offset: (i8, i8, i8),
    ) -> (time: Option<SearchTime>)
        ensures
            ({
                let m = Moment {
                    year: date.0 as int,
                    month: date.1 as int,
                    day: date.2 as int,
                    hour: clock.0 as int,
                    minute: clock.1 as int,
                    second: clock.2 as int,
                    nanosecond: nanosecond as int,
                    offset_hours: offset.0 as int,
                    offset_minutes: offset.1 as int,
                    offset_seconds: offset.2 as int,
                };
                match time {
                    Some(time) => is_moment(m) && time@ == m,
                    None => !is_moment(m),
                }
            }),
    {
        let (year, month, day) = date;
        if year < -9999 || year > 9999 || month < 1 || month > 12 {
            return None;
        }
        let leap: bool = year % 4 == 0 && (year % 100 != 0 || year % 400 == 0);
        let days: u8 = if month == 2 {
            if leap {
                29
            } else {
                28
            }
        } else if month == 4 || month == 6 || month == 9 || month == 11 {
            30
        } else {
            31
        };
        if day < 1 || day > days || clock.0 >= 24 || clock.1 >= 60 || clock.2 >= 60 || nanosecond
            >= 1_000_000_000 {
            return None;
        }
        if offset.0 < -25 || offset.0 > 25 || offset.1 < -59 || offset.1 > 59 || offset.2 < -59
            || offset.2 > 59 {
            return None;
        }
        let ahead: bool = offset.0 >= 0 && offset.1 >= 0 && offset.2 >= 0;
        let behind: bool = offset.0 <= 0 && offset.1 <= 0 && offset.2 <= 0;
        if !ahead && !behind {
            return None;
        }
        Some(
            SearchTime {
                year,
                month,
                day,
                hour: clock.0,
                minute: clock.1,
                second: clock.2,
                nanosecond,
                offset,
            },
        )
    }

    /// The text of the moment in RFC 3339, where it has one.
    pub fn to_rfc3339(&self) -> (text: Option<String>)
        ensures
            match text {
                Some(text) => has_rfc3339(self@) && text@ == rfc3339(self@),
                None => !has_rfc3339(self@),
            },
    {
        proof {
            use_type_invariant(self);
        }
        format_rfc3339(self)
    }
}

} // verus!
