use subpar::decode::get_checked;
use subpar::error::{DecodeError, FieldName, ParseError};
use subpar::msg::{Batch, PositionStatus, Times, Update};

fn varint(mut v: u64) -> Vec<u8> {
    let mut out = Vec::new();
    loop {
        let b = (v & 0x7f) as u8;
        v >>= 7;
        if v == 0 {
            out.push(b);
            return out;
        }
        out.push(b | 0x80);
    }
}

fn field_varint(n: u64, v: u64) -> Vec<u8> {
    let mut out = varint(n << 3);
    out.extend(varint(v));
    out
}

fn field_bytes(n: u64, b: &[u8]) -> Vec<u8> {
    let mut out = varint((n << 3) | 2);
    out.extend(varint(b.len() as u64));
    out.extend_from_slice(b);
    out
}

fn cat(parts: &[Vec<u8>]) -> Vec<u8> {
    parts.concat()
}

fn trip_descriptor(id: &str, date: &str) -> Vec<u8> {
    cat(&[field_bytes(1, id.as_bytes()), field_bytes(3, date.as_bytes())])
}

fn stop_time(stop: &str, arr: Option<u64>, dep: Option<u64>) -> Vec<u8> {
    let mut parts = vec![field_bytes(4, stop.as_bytes())];
    if let Some(a) = arr {
        parts.push(field_bytes(2, &field_varint(2, a)));
    }
    if let Some(d) = dep {
        parts.push(field_bytes(3, &field_varint(2, d)));
    }
    cat(&parts)
}

fn trip_update_entity(id: &str, stops: &[Vec<u8>]) -> Vec<u8> {
    let mut tu = field_bytes(1, &trip_descriptor(id, "20240101"));
    for s in stops {
        tu.extend(field_bytes(2, s));
    }
    cat(&[field_bytes(1, b"e1"), field_bytes(3, &tu)])
}

fn vehicle_entity(status: Option<u64>) -> Vec<u8> {
    let mut vp = vec![
        field_bytes(1, &trip_descriptor("134200_L..N", "20240101")),
        field_varint(3, 7),
        field_varint(5, 1704096000),
        field_bytes(7, b"L06N"),
    ];
    if let Some(s) = status {
        vp.push(field_varint(4, s));
    }
    cat(&[field_bytes(1, b"e2"), field_bytes(4, &cat(&vp))])
}

fn feed(time: u64, entities: &[Vec<u8>]) -> Vec<u8> {
    let header = cat(&[field_bytes(1, b"2.0"), field_varint(3, time)]);
    let mut out = field_bytes(1, &header);
    for e in entities {
        out.extend(field_bytes(2, e));
    }
    out
}

#[test]
fn getter_a() {
    let a = get_checked(&[42 > 10, true != false, 4 == 4, true], 1 + 2 + 3, FieldName::Header).unwrap();
    assert_eq!(a, 6);
}

#[test]
fn checked_getter_names_the_field() {
    assert_eq!(get_checked(&[true, 1 > 2], 5, FieldName::StopId), Err(DecodeError::Missing(FieldName::StopId)));
}

#[test]
fn decodes_schedule_position_and_alert() {
    let entities = vec![
        trip_update_entity("134200_L..N", &[stop_time("L06N", Some(1704096000), Some(1704096030)), stop_time("L08N", Some(1704096300), None)]),
        vehicle_entity(Some(1)),
        cat(&[field_bytes(1, b"e3"), field_bytes(5, b"")]),
    ];
    let batch = Batch::parse(&feed(1704095990, &entities)).unwrap();
    assert_eq!(batch.time.secs, 1704095990);
    assert_eq!(batch.msgs.len(), 3);
    match &batch.msgs[0] {
        Ok(Update::Schedule(s)) => {
            assert_eq!(s.trip().as_bytes(), b"134200_L..N");
            assert_eq!(s.asof().secs, 0);
            let stops = s.stops();
            assert_eq!(stops.len(), 2);
            assert_eq!(stops[0].id.as_bytes(), b"L06N");
            assert!(matches!(stops[0].times, Times::Mid { .. }));
            assert_eq!(stops[0].times.t0().secs, 1704096000);
            assert_eq!(stops[1].times.dep(), None);
            assert!(matches!(stops[1].times, Times::Last { .. }));
        }
        other => panic!("unexpected {other:?}"),
    }
    match &batch.msgs[1] {
        Ok(Update::Position(p)) => {
            assert_eq!(p.stop.as_bytes(), b"L06N");
            assert_eq!(p.stop_n, Some(7));
            assert_eq!(p.status, PositionStatus::At);
            assert_eq!(p.time.secs, 1704096000);
        }
        other => panic!("unexpected {other:?}"),
    }
    assert!(matches!(batch.msgs[2], Ok(Update::Alert)));
}

#[test]
fn bad_entity_does_not_spoil_the_batch() {
    let good = trip_update_entity("134200_L..N", &[stop_time("L06N", Some(1704096000), None)]);
    let garbage = vec![0xff, 0xff, 0xff];
    let batch = Batch::parse(&feed(1704095990, &[good.clone(), garbage, good])).unwrap();
    assert_eq!(batch.msgs.len(), 3);
    assert!(matches!(batch.msgs[0], Ok(Update::Schedule(_))));
    assert_eq!(batch.msgs[1].as_ref().err(), Some(&DecodeError::Malformed));
    assert!(matches!(batch.msgs[2], Ok(Update::Schedule(_))));
}

#[test]
fn entity_kind_errors() {
    let none = cat(&[field_bytes(1, b"e")]);
    assert_eq!(Update::parse(&none, 0, none.len()).err(), Some(DecodeError::NoKind));
    let both = cat(&[field_bytes(3, b""), field_bytes(5, b"")]);
    assert_eq!(
        Update::parse(&both, 0, both.len()).err(),
        Some(DecodeError::MultipleKinds { trip: true, vehicle: false, alert: true })
    );
}

#[test]
fn schedule_fails_whole_on_one_bad_stop() {
    let e = trip_update_entity("134200_L..N", &[stop_time("L06N", Some(1), None), stop_time("L08N", None, None)]);
    assert_eq!(Update::parse(&e, 0, e.len()).err(), Some(DecodeError::NoTimes));
    let e = trip_update_entity("134200_L..N", &[stop_time("L06NXX", Some(1), None)]);
    assert_eq!(Update::parse(&e, 0, e.len()).err(), Some(DecodeError::BadStopId(ParseError::TooLong)));
    let e = trip_update_entity("134200L..N", &[]);
    assert_eq!(Update::parse(&e, 0, e.len()).err(), Some(DecodeError::BadTrip(ParseError::MissingDelimiter)));
}

#[test]
fn missing_fields_are_named() {
    let tu = field_bytes(1, &field_bytes(1, b"134200_L..N"));
    let e = field_bytes(3, &tu);
    assert_eq!(Update::parse(&e, 0, e.len()).err(), Some(DecodeError::Missing(FieldName::StartDate)));
    let e = field_bytes(3, b"");
    assert_eq!(Update::parse(&e, 0, e.len()).err(), Some(DecodeError::Missing(FieldName::Trip)));
    let tu = cat(&[field_bytes(1, &trip_descriptor("134200_L..N", "2024xx01"))]);
    let e = field_bytes(3, &tu);
    assert_eq!(Update::parse(&e, 0, e.len()).err(), Some(DecodeError::BadStartDate(ParseError::BadDate)));
    let ev = field_bytes(2, &field_varint(1, 5));
    let st = cat(&[field_bytes(4, b"L06N"), ev]);
    let tu = cat(&[field_bytes(1, &trip_descriptor("134200_L..N", "20240101")), field_bytes(2, &st)]);
    let e = field_bytes(3, &tu);
    assert_eq!(Update::parse(&e, 0, e.len()).err(), Some(DecodeError::Missing(FieldName::Time)));
}

#[test]
fn vehicle_status_codes() {
    let code = |s: Option<u64>| {
        let e = vehicle_entity(s);
        match Update::parse(&e, 0, e.len()) {
            Ok(Update::Position(p)) => Ok(p.status),
            Ok(other) => panic!("unexpected {other:?}"),
            Err(e) => Err(e),
        }
    };
    assert_eq!(code(None), Ok(PositionStatus::Nothing));
    assert_eq!(code(Some(0)), Ok(PositionStatus::Near));
    assert_eq!(code(Some(1)), Ok(PositionStatus::At));
    assert_eq!(code(Some(2)), Ok(PositionStatus::EnRoute));
    assert_eq!(code(Some(9)), Err(DecodeError::BadStatus(9)));
    assert_eq!(PositionStatus::try_from(3), Ok(PositionStatus::EnRoute));
    assert_eq!(PositionStatus::try_from(4), Err(DecodeError::BadStatus(4)));
}

#[test]
fn whole_message_errors() {
    assert_eq!(Batch::parse(&[0x0a]).err(), Some(DecodeError::Malformed));
    assert_eq!(Batch::parse(&field_bytes(2, b"")).err(), Some(DecodeError::Missing(FieldName::Header)));
    let no_time = field_bytes(1, &field_bytes(1, b"2.0"));
    assert_eq!(Batch::parse(&no_time).err(), Some(DecodeError::Missing(FieldName::Timestamp)));
    assert_eq!(Batch::parse(&feed(u64::MAX, &[])).err(), Some(DecodeError::TimeOutOfRange));
    let empty = Batch::parse(&feed(5, &[])).unwrap();
    assert_eq!(empty.msgs.len(), 0);
}

#[test]
fn negative_event_time() {
    let e = trip_update_entity("134200_L..N", &[stop_time("L06N", Some((-60i64) as u64), None)]);
    match Update::parse(&e, 0, e.len()) {
        Ok(Update::Schedule(s)) => assert_eq!(s.stops()[0].times.t0().secs, -60),
        other => panic!("unexpected {other:?}"),
    }
}
