//! Ride records as the store hands them over, and the decision whether, and
//! under which month, a record counts.
use vstd::prelude::*;
use crate::calendar::{month_label, month_label_of, report_year_month, year_month_of};
use crate::decimal::{integer_value, parse_integer, ParsedInteger};

verus! {

/// The three fields of a stored ride that the aggregation reads; `None` where
/// the field is absent or not of the expected kind.
pub struct RideRecord {
    /// The type tag; only `"trip"` counts.
    pub ride_type: Option<String>,
    /// The start time, as the text of an integer number of seconds since the
    /// epoch.
    pub ride_start: Option<String>,
    /// The distance text held in the ride's statistics.
    pub ride_distance: Option<String>,
}

/// A qualifying record whose data cannot be read; it aborts the whole run.
#[derive(Clone, Copy, Debug, PartialEq, Eq, Structural)]
pub enum RecordError {
    /// A trip without a numeric start time.
    MissingStart,
    /// A trip whose start time is no decimal integer.
    MalformedStart,
    /// A trip in the window without statistics or without a distance in them.
    MissingDistance,
}

/// What one record adds: its month label and its distance text.
pub struct Contribution {
    pub ride_month: String,
    pub distance: String,
}

/// The first and last years whose rides count.
pub const FIRST_YEAR: i32 = 2023;
pub const LAST_YEAR: i32 = 2024;

pub open spec fn opt_view(o: Option<String>) -> Option<Seq<char>> {
    match o {
        Some(s) => Some(s@),
        None => None,
    }
}

pub open spec fn is_trip(r: RideRecord) -> bool {
    r.ride_type matches Some(t) && t@ == "trip"@
}

pub open spec fn in_year_window(year: int) -> bool {
    FIRST_YEAR <= year <= LAST_YEAR
}

/// The start time of a record in seconds, or why it cannot be read.
pub open spec fn start_seconds(r: RideRecord) -> Result<int, RecordError> {
    match r.ride_start {
        None => Err(RecordError::MissingStart),
        Some(t) => match integer_value(t@) {
            Some(v) => Ok(v),
            None => Err(RecordError::MalformedStart),
        },
    }
}

/// What a trip whose start falls in `year` and `month` adds, given the month
/// filter: nothing outside the year window or off the filter's month, else
/// its month label and distance.
pub open spec fn dated_outcome(r: RideRecord, filter: Option<Seq<char>>, year: int, month: int) -> Result<
    Option<(Seq<char>, Seq<char>)>,
    RecordError,
> {
    if !in_year_window(year) {
        Ok(None)
    } else if filter matches Some(f) && f != month_label(year, month) {
        Ok(None)
    } else {
        match r.ride_distance {
            None => Err(RecordError::MissingDistance),
            Some(d) => Ok(Some((month_label(year, month), d@))),
        }
    }
}

/// What a record adds under the month filter: nothing for a record that is
/// no trip; for a trip, its start time read, then nothing where the calendar
/// cannot place that instant (it lies far outside the year window), else the
/// dated decision.
pub open spec fn record_outcome(r: RideRecord, filter: Option<Seq<char>>) -> Result<
    Option<(Seq<char>, Seq<char>)>,
    RecordError,
> {
    if !is_trip(r) {
        Ok(None)
    } else {
        match start_seconds(r) {
            Err(e) => Err(e),
            Ok(secs) => match report_year_month(secs) {
                None => Ok(None),
                Some((y, m)) => dated_outcome(r, filter, y, m),
            },
        }
    }
}

pub open spec fn outcome_view(r: Result<Option<Contribution>, RecordError>) -> Result<
    Option<(Seq<char>, Seq<char>)>,
    RecordError,
> {
    match r {
        Ok(Some(c)) => Ok(Some((c.ride_month@, c.distance@))),
        Ok(None) => Ok(None),
        Err(e) => Err(e),
    }
}

/// Decides what a trip adds once its start is placed in `year` and `month`.
pub fn classify_dated(record: &RideRecord, filter: &Option<String>, year: i32, month: u32) -> (r:
    Result<Option<Contribution>, RecordError>)
    requires
        1 <= month <= 12,
    ensures
        outcome_view(r) == dated_outcome(*record, opt_view(*filter), year as int, month as int),
{
    if year < FIRST_YEAR || year > LAST_YEAR {
        return Ok(None);
    }
    let label = month_label_of(year, month);
    if let Some(f) = filter {
        if label != *f {
            return Ok(None);
        }
    }
    match &record.ride_distance {
        None => Err(RecordError::MissingDistance),
        Some(d) => Ok(Some(Contribution { ride_month: label, distance: d.clone() })),
    }
}

/// Decides what a record adds under the month filter.
pub fn classify_record(record: &RideRecord, filter: &Option<String>) -> (r: Result<
    Option<Contribution>,
    RecordError,
>)
    ensures
        outcome_view(r) == record_outcome(*record, opt_view(*filter)),
{
    let trip = String::from_str("trip");
    match &record.ride_type {
        Some(t) => if *t != trip {
            return Ok(None);
        },
        None => {
            return Ok(None);
        },
    }
    let secs = match &record.ride_start {
        None => {
            return Err(RecordError::MissingStart);
        },
        Some(t) => match parse_integer(t.as_str()) {
            ParsedInteger::NotInteger => {
                return Err(RecordError::MalformedStart);
            },
            ParsedInteger::OutOfRange => {
                return Ok(None);
            },
            ParsedInteger::Fits(v) => v,
        },
    };
    match year_month_of(secs) {
        None => Ok(None),
        Some((y, m)) => classify_dated(record, filter, y, m),
    }
}

} // verus!
