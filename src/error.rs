//! Error types of the library.
use vstd::prelude::*;

verus! {

/// Why a piece of text could not be read.
#[derive(Debug, Clone, Copy, PartialEq, Eq, Structural)]
pub enum ParseError {
    /// Not a decimal integer in range.
    BadNumber,
    /// A time of day whose hour does not fit in a byte.
    HoursOutOfRange,
    /// A `yyyymmdd` text that names no calendar day.
    BadDate,
    /// A trip identifier without both `_` and `.`.
    MissingDelimiter,
    /// A trip identifier whose first `.` comes before its first `_`.
    DelimitersOutOfOrder,
    /// A trip identifier whose tail holds neither `.N` nor `.S`.
    NoDirection,
    /// Text longer than the short-string type holds.
    TooLong,
}

/// A field of the feed's schema that decoding needs.
#[derive(Debug, Clone, Copy, PartialEq, Eq, Structural)]
pub enum FieldName {
    Header,
    Timestamp,
    Trip,
    TripId,
    StartDate,
    StopId,
    Time,
}

/// Why a feed message, or one entity of it, could not be decoded.
#[derive(Debug, Clone, Copy, PartialEq, Eq, Structural)]
pub enum DecodeError {
    /// Bytes that do not follow the wire format.
    Malformed,
    /// A required field is absent.
    Missing(FieldName),
    /// An entity that is none of trip update, vehicle position and alert.
    NoKind,
    /// An entity that claims more than one kind.
    MultipleKinds { trip: bool, vehicle: bool, alert: bool },
    /// A trip identifier that does not parse.
    BadTrip(ParseError),
    /// A start date that does not parse.
    BadStartDate(ParseError),
    /// A stop id that does not parse.
    BadStopId(ParseError),
    /// A vehicle stop status code outside the schema.
    BadStatus(u64),
    /// A number too large for its field.
    OutOfRange,
    /// An instant outside the calendar.
    TimeOutOfRange,
    /// A stop with neither an arrival nor a departure.
    NoTimes,
}

} // verus!
