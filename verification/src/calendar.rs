//! Calendar arithmetic on instants given as nanoseconds since the Unix epoch.
use vstd::prelude::*;

verus! {

/// An instant: nanoseconds since 1970-01-01T00:00:00Z.
pub type Time = i128;

/// Nanoseconds in one civil day.
pub const NANOS_PER_DAY: i128 = 86_400_000_000_000;

/// Nanoseconds in one second.
pub const NANOS_PER_SEC: i128 = 1_000_000_000;

/// The fixed offset (UTC-7) in which game days are counted.
pub const CALIFORNIA_OFFSET_NANOS: i128 = -25_200_000_000_000;

/// Days of the week.
#[derive(Clone, Copy, PartialEq, Eq, Structural, Debug)]
pub enum Weekday {
    Mon,
    Tue,
    Wed,
    Thu,
    Fri,
    Sat,
    Sun,
}

/// Position of a weekday, Monday being 0.
pub open spec fn weekday_index(w: Weekday) -> int {
    match w {
        Weekday::Mon => 0,
        Weekday::Tue => 1,
        Weekday::Wed => 2,
        Weekday::Thu => 3,
        Weekday::Fri => 4,
        Weekday::Sat => 5,
        Weekday::Sun => 6,
    }
}

/// The weekday at position `i` (Monday being 0), for `0 <= i < 7`.
pub open spec fn weekday_at(i: int) -> Weekday {
    if i == 0 {
        Weekday::Mon
    } else if i == 1 {
        Weekday::Tue
    } else if i == 2 {
        Weekday::Wed
    } else if i == 3 {
        Weekday::Thu
    } else if i == 4 {
        Weekday::Fri
    } else if i == 5 {
        Weekday::Sat
    } else {
        Weekday::Sun
    }
}

/// English name of a weekday.
pub open spec fn weekday_name_spec(w: Weekday) -> Seq<char> {
    match w {
        Weekday::Mon => "Monday"@,
        Weekday::Tue => "Tuesday"@,
        Weekday::Wed => "Wednesday"@,
        Weekday::Thu => "Thursday"@,
        Weekday::Fri => "Friday"@,
        Weekday::Sat => "Saturday"@,
        Weekday::Sun => "Sunday"@,
    }
}

/// The English name of a weekday.
pub fn weekday_name(w: Weekday) -> (name: String)
    ensures
        name@ == weekday_name_spec(w),
{
    let name = match w {
        Weekday::Mon => "Monday",
        Weekday::Tue => "Tuesday",
        Weekday::Wed => "Wednesday",
        Weekday::Thu => "Thursday",
        Weekday::Fri => "Friday",
        Weekday::Sat => "Saturday",
        Weekday::Sun => "Sunday",
    };
    name.to_owned()
}

/// The weekday at position `i`, Monday being 0.
pub fn weekday_from_index(i: u32) -> (w: Weekday)
    requires
        i < 7,
    ensures
        w == weekday_at(i as int),
        weekday_index(w) == i,
{
    if i == 0 {
        Weekday::Mon
    } else if i == 1 {
        Weekday::Tue
    } else if i == 2 {
        Weekday::Wed
    } else if i == 3 {
        Weekday::Thu
    } else if i == 4 {
        Weekday::Fri
    } else if i == 5 {
        Weekday::Sat
    } else {
        Weekday::Sun
    }
}

/// Day number (days since 1970-01-01) of the civil date at which instant `t`
/// falls in a zone whose offset from UTC is `offset` nanoseconds.
pub open spec fn day_at_offset(t: int, offset: int) -> int {
    (t + offset) / (NANOS_PER_DAY as int)
}

/// Day number of instant `t` in California (UTC-7).
pub open spec fn california_day_spec(t: int) -> int {
    day_at_offset(t, CALIFORNIA_OFFSET_NANOS as int)
}

/// Weekday of a day number; day 0 (1970-01-01) was a Thursday.
pub open spec fn weekday_of_day_spec(d: int) -> Weekday {
    weekday_at((d + 3) % 7)
}

/// The instants that this library can place on a calendar: those
/// whose day numbers stay far inside the range of `i128`.
pub open spec fn time_in_range(t: int) -> bool {
    -1_000_000_000_000_000_000_000_000_000_000 < t < 1_000_000_000_000_000_000_000_000_000_000
}

/// The day numbers of instants in range.
pub open spec fn day_in_range(d: int) -> bool {
    -100_000_000_000_000_000 < d < 100_000_000_000_000_000
}

/// Day number in California of instant `t`.
pub fn california_day(t: Time) -> (d: i128)
    requires
        time_in_range(t as int),
    ensures
        d == california_day_spec(t as int),
        day_in_range(d as int),
{
    let shifted = t + CALIFORNIA_OFFSET_NANOS;
    let q = shifted.checked_div_euclid(NANOS_PER_DAY);
    match q {
        Some(d) => {
            assert(day_in_range(d as int)) by (nonlinear_arith)
                requires
                    d == shifted as int / 86_400_000_000_000int,
                    -2_000_000_000_000_000_000_000_000_000_000 < shifted < 2_000_000_000_000_000_000_000_000_000_000,
            ;
            d
        },
        None => {
            assert(false);
            0
        },
    }
}

/// Weekday of day number `d`.
pub fn weekday_of_day(d: i128) -> (w: Weekday)
    requires
        day_in_range(d as int),
    ensures
        w == weekday_of_day_spec(d as int),
{
    let r = (d + 3).checked_rem_euclid(7);
    match r {
        Some(i) => {
            assert(0 <= i < 7);
            weekday_from_index(i as u32)
        },
        None => {
            assert(false);
            Weekday::Mon
        },
    }
}

/// Weekday positions and weekdays correspond one to one.
pub proof fn law_weekday_index_roundtrip(w: Weekday, i: int)
    ensures
        weekday_at(weekday_index(w)) == w,
        0 <= i < 7 ==> weekday_index(weekday_at(i)) == i,
        0 <= weekday_index(w) < 7,
{
}

/// The day after a given day falls on the next weekday, Sunday being
/// followed by Monday.
pub proof fn law_next_day_next_weekday(d: int)
    ensures
        weekday_index(weekday_of_day_spec(d + 1)) == (weekday_index(weekday_of_day_spec(d)) + 1) % 7,
{
    assert((d + 1 + 3) % 7 == ((d + 3) % 7 + 1) % 7) by (nonlinear_arith);
}

/// Days a week apart fall on the same weekday.
pub proof fn law_weekday_weekly(d: int)
    ensures
        weekday_of_day_spec(d + 7) == weekday_of_day_spec(d),
{
    assert((d + 7 + 3) % 7 == (d + 3) % 7) by (nonlinear_arith);
}

} // verus!
