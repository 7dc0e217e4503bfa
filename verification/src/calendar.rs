//! The date for which the geomagnetic model is asked: the date that the
//! clock gives, or a fixed day where that cannot be one of the model's dates.
//! The clock itself is read outside the library.

use vstd::prelude::*;

verus! {

/// The year of the day that stands in for today.
pub const FALLBACK_YEAR: i32 = 2025;

/// The day of the year that stands in for today.
pub const FALLBACK_ORDINAL: u16 = 180;

/// Whether a year has 366 days in the Gregorian calendar.
pub open spec fn is_leap_year(year: int) -> bool {
    year % 4 == 0 && (year % 100 != 0 || year % 400 == 0)
}

/// Whether a year and a day of the year name a date that the geomagnetic
/// model can be asked for: the year has at most four digits, and the day is
/// one of the year's days, counted from 1.
pub open spec fn is_ordinal_date(year: int, ordinal: int) -> bool {
    &&& -9999 <= year <= 9999
    &&& 1 <= ordinal
    &&& ordinal <= if is_leap_year(year) {
        366int
    } else {
        365int
    }
}

/// Whether `time::Date::from_ordinal_date` accepts a year and a day of the
/// year. It accepts the years from -9999 to 9999 and, of each, the days
/// from 1 to 365, and 366 in a leap year of the Gregorian calendar.
#[verifier::external_body]
fn date_exists(year: i32, ordinal: u16) -> (r: bool)
    ensures
        r == is_ordinal_date(year as int, ordinal as int),
{
    world_magnetic_model::time::Date::from_ordinal_date(year, ordinal).is_ok()
}

/// The date to ask the geomagnetic model for, given what the clock says:
/// the clock's date where it is one of the model's dates, and else day 180
/// of the year 2025.
pub fn model_date_from(year: i32, ordinal: u32) -> (d: (i32, u16))
    ensures
        is_ordinal_date(d.0 as int, d.1 as int),
        d == if is_ordinal_date(year as int, ordinal as int) {
            (year, ordinal as u16)
        } else {
            (FALLBACK_YEAR, FALLBACK_ORDINAL)
        },
{
    if ordinal <= 366 && date_exists(year, ordinal as u16) {
        (year, ordinal as u16)
    } else {
        (FALLBACK_YEAR, FALLBACK_ORDINAL)
    }
}

} // verus!
