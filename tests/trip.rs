use subpar::datetime::{Date, Time};
use subpar::error::ParseError;
use subpar::ids::{Route, StopId};
use subpar::trip::{TripDir, TripId, TripParts};

#[test]
fn tokenize_trip_parts() {
    fn tp(r: &str, d: char, t: u32) -> TripParts {
        let dir = match d {
            'N' => TripDir::North,
            'S' => TripDir::South,
            _ => panic!("invalid direction indicator {d}"),
        };
        let time = Time::from_trip_origin(&t.to_string()).unwrap();
        TripParts { rt: Route::parse(r).unwrap(), dir, time }
    }
    let p = |s: &str| TripParts::from_str(s);
    assert_eq!(p("134200_L..N").unwrap(), tp("L", 'N', 134200));
    assert_eq!(p("134200_GS.S").unwrap(), tp("GS", 'S', 134200));
    assert_eq!(p("101200_GS.S04R").unwrap(), tp("GS", 'S', 101200));
}

#[test]
fn trip_parts_errors() {
    assert_eq!(TripParts::from_str("134200L.N"), Err(ParseError::MissingDelimiter));
    assert_eq!(TripParts::from_str("134200_LN"), Err(ParseError::MissingDelimiter));
    assert_eq!(TripParts::from_str("1.34_L"), Err(ParseError::DelimitersOutOfOrder));
    assert_eq!(TripParts::from_str("134200_L..X"), Err(ParseError::NoDirection));
    assert_eq!(TripParts::from_str("134200_ABCD..N"), Err(ParseError::TooLong));
    assert_eq!(TripParts::from_str("1x_L..N"), Err(ParseError::BadNumber));
}

#[test]
fn trip_ids_compare_by_parts_and_day() {
    let day = Date::make(2024, 1, 1).unwrap();
    let a = TripId::parse("134200_L..N", day).unwrap();
    let b = TripId::parse("134200_L..N01R", day).unwrap();
    assert_eq!(a, b);
    assert_ne!(a.as_bytes(), b.as_bytes());
    let c = TripId::parse("134200_L..N", Date::make(2024, 1, 2).unwrap()).unwrap();
    assert_ne!(a, c);
    assert_eq!(TripId::parse("134200_L..N0123456789AB", day).err(), Some(ParseError::TooLong));
}

#[test]
fn trip_origin_instant() {
    let day = Date::make(2024, 1, 1).unwrap();
    let t = TripId::parse("-0000200_L..N", day).unwrap();
    assert_eq!(t.origin().secs, 1704067200 - 120);
    assert_eq!(t.departed().secs, 1704067200 - 120);
    assert_eq!(t.dir(), TripDir::North);
    assert_eq!(t.route().as_bytes(), b"L");
    assert_eq!(t.date(), day);
}

#[test]
fn stop_parent() {
    assert!(!StopId::make("101N").is_parent());
    assert!(StopId::make("101").is_parent());
    assert_eq!(StopId::make("101N").parent(), StopId::make("101"));
    assert_eq!(StopId::make("L06S").parent(), StopId::make("L06"));
    assert_eq!(StopId::make("101").parent(), StopId::make("101"));
    assert!(StopId::parse("10100").is_err());
    assert!(StopId::make("").is_parent());
}
