use subpar::datetime::{Date, Time, Timestamp};
use subpar::error::ParseError;

#[test]
fn parse_origin_time() {
    let p = Time::from_trip_origin;
    let t = Time::new_with_offset;
    assert_eq!(p("021150").unwrap(), t(3, 31, 30, 0));
    assert_eq!(p("-0000200").unwrap(), t(23, 58, 0, -1));
    assert_eq!(p("00145000").unwrap(), t(0, 10, 0, 1));
    assert_eq!(p("134200").unwrap(), t(22, 22, 0, 0));
}

#[test]
fn origin_time_is_deterministic() {
    for s in ["021150", "-0000200", "00145000", "134200", "0", "143999"] {
        assert_eq!(Time::from_trip_origin(s), Time::from_trip_origin(s));
    }
}

#[test]
fn origin_time_edges() {
    assert_eq!(Time::from_trip_origin("0").unwrap(), Time::new(0, 0, 0));
    assert_eq!(Time::from_trip_origin("143999").unwrap(), Time::new(23, 59, 59));
    assert_eq!(Time::from_trip_origin("144000").unwrap(), Time::new_with_offset(0, 0, 0, 1));
    assert_eq!(Time::from_trip_origin("+105").unwrap(), Time::new(0, 1, 3));
    assert_eq!(Time::from_trip_origin("-300000").unwrap(), Time::new_with_offset(0, 0, 0, -1));
}

#[test]
fn origin_time_errors() {
    assert_eq!(Time::from_trip_origin(""), Err(ParseError::BadNumber));
    assert_eq!(Time::from_trip_origin("12a"), Err(ParseError::BadNumber));
    assert_eq!(Time::from_trip_origin("-"), Err(ParseError::BadNumber));
    assert_eq!(Time::from_trip_origin("99999999999"), Err(ParseError::BadNumber));
    assert_eq!(Time::from_trip_origin("99999999"), Err(ParseError::HoursOutOfRange));
}

#[test]
fn seconds_since_last_midnight() {
    assert_eq!(Time::new(0, 0, 0).secs_since_last_mid(), 86400);
    assert_eq!(Time::new_with_offset(23, 58, 0, -1).secs_since_last_mid(), 86280);
    assert_eq!(Time::new(1, 2, 3).elapsed_until(Time::new(1, 3, 3)), 60);
}

#[test]
fn calendar_days() {
    assert_eq!(Date::make(1970, 1, 1), Some(Date { days: 0 }));
    assert_eq!(Date::make(2024, 1, 1), Some(Date { days: 19723 }));
    assert_eq!(Date::make(2024, 2, 30), None);
    assert_eq!(Timestamp::from_yyyymmdd("20240101"), Ok(Timestamp { secs: 1704067200 }));
    assert_eq!(Timestamp::from_yyyymmdd("20241301"), Err(ParseError::BadDate));
    assert_eq!(Timestamp::from_yyyymmdd("2024"), Err(ParseError::BadDate));
    assert_eq!(Timestamp { secs: 1704067200 + 3600 }.date(), Date { days: 19723 });
    assert_eq!(Timestamp { secs: -1 }.date(), Date { days: -1 });
}
