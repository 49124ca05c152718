//! Decoding GTFS-realtime feed messages into typed events.
//!
//! Each message of the schema is read from a byte range of the payload. A feed
//! message's entities are decoded one by one: a bad entity yields an error in its
//! own place and leaves the others alone.
use vstd::prelude::*;
use crate::datetime::{unix_in_range, ymd_date, Date, Timestamp};
use crate::error::{DecodeError, FieldName};
use crate::ids::StopId;
use crate::msg::{
    msgs_view, plans_view, result_view, times_of, Batch, BatchView, Position, PositionStatus,
    PositionView, Schedule, ScheduleView, StopPlan, StopPlanView, Times, Update, UpdateView,
};
use crate::text::copy_range;
use crate::trip::{trip_id_of, TripId, TripIdView};
use crate::wire::{
    all_bytes, collect_bytes, find_last_bytes, find_last_varint, last_bytes, last_varint,
    message_fields, read_fields, WireField,
};

verus! {

// Field numbers of the schema.
pub const FEED_HEADER: u64 = 1;
pub const FEED_ENTITY: u64 = 2;
pub const HEADER_TIMESTAMP: u64 = 3;
pub const ENTITY_TRIP_UPDATE: u64 = 3;
pub const ENTITY_VEHICLE: u64 = 4;
pub const ENTITY_ALERT: u64 = 5;
pub const UPDATE_TRIP: u64 = 1;
pub const UPDATE_STOP_TIME: u64 = 2;
pub const TRIP_ID: u64 = 1;
pub const TRIP_START_DATE: u64 = 3;
pub const STOP_TIME_ARRIVAL: u64 = 2;
pub const STOP_TIME_DEPARTURE: u64 = 3;
pub const STOP_TIME_STOP_ID: u64 = 4;
pub const EVENT_TIME: u64 = 2;
pub const VEHICLE_TRIP: u64 = 1;
pub const VEHICLE_STOP_SEQUENCE: u64 = 3;
pub const VEHICLE_STATUS: u64 = 4;
pub const VEHICLE_TIMESTAMP: u64 = 5;
pub const VEHICLE_STOP_ID: u64 = 7;

// Codes of the vehicle stop status.
pub const INCOMING_AT: u64 = 0;
pub const STOPPED_AT: u64 = 1;
pub const IN_TRANSIT_TO: u64 = 2;

/// The bytes `b[s..e]`, when that range lies in `b`.
pub open spec fn bytes_in(b: Seq<u8>, s: int, e: int) -> Option<Seq<u8>> {
    if 0 <= s <= e <= b.len() {
        Some(b.subrange(s, e))
    } else {
        None
    }
}

fn copy_bytes(b: &[u8], s: usize, e: usize) -> (r: Result<Vec<u8>, DecodeError>)
    ensures
        r matches Ok(v) ==> bytes_in(b@, s as int, e as int) == Some(v@),
        r matches Err(x) ==> bytes_in(b@, s as int, e as int) is None && x == DecodeError::Malformed,
{
    if s <= e && e <= b.len() {
        Ok(copy_range(b, s, e))
    } else {
        Err(DecodeError::Malformed)
    }
}

/// A signed 64-bit wire value as seconds since 1970.
pub open spec fn signed_time(v: u64) -> Result<Timestamp, DecodeError> {
    let t: int = if v < 0x8000_0000_0000_0000 {
        v as int
    } else {
        v - 0x1_0000_0000_0000_0000
    };
    if unix_in_range(t) {
        Ok(Timestamp { secs: t as i64 })
    } else {
        Err(DecodeError::TimeOutOfRange)
    }
}

/// An unsigned 64-bit wire value as seconds since 1970.
pub open spec fn unsigned_time(v: u64) -> Result<Timestamp, DecodeError> {
    if unix_in_range(v as int) {
        Ok(Timestamp { secs: v as i64 })
    } else {
        Err(DecodeError::TimeOutOfRange)
    }
}

fn to_signed_time(v: u64) -> (r: Result<Timestamp, DecodeError>)
    ensures
        r == signed_time(v),
{
    let t: i64 = if v < 0x8000_0000_0000_0000 {
        v as i64
    } else {
        -((u64::MAX - v) as i64) - 1
    };
    if crate::datetime::MIN_UNIX_SECS <= t && t <= crate::datetime::MAX_UNIX_SECS {
        Ok(Timestamp { secs: t })
    } else {
        Err(DecodeError::TimeOutOfRange)
    }
}

fn to_unsigned_time(v: u64) -> (r: Result<Timestamp, DecodeError>)
    ensures
        r == unsigned_time(v),
{
    if v <= crate::datetime::MAX_UNIX_SECS as u64 {
        Ok(Timestamp { secs: v as i64 })
    } else {
        Err(DecodeError::TimeOutOfRange)
    }
}

/// A stop-time event: the instant it gives.
pub open spec fn event_of(b: Seq<u8>, s: int, e: int) -> Result<Timestamp, DecodeError> {
    match message_fields(b, s, e) {
        None => Err(DecodeError::Malformed),
        Some(fs) => match last_varint(fs, EVENT_TIME) {
            None => Err(DecodeError::Missing(FieldName::Time)),
            Some(v) => signed_time(v),
        },
    }
}

/// The event in field `n` of `fs`, if there is one.
pub open spec fn opt_event_of(b: Seq<u8>, fs: Seq<WireField>, n: u64) -> Result<
    Option<Timestamp>,
    DecodeError,
> {
    match last_bytes(fs, n) {
        None => Ok(None),
        Some((s, e)) => match event_of(b, s as int, e as int) {
            Ok(t) => Ok(Some(t)),
            Err(x) => Err(x),
        },
    }
}

/// A stop id read from field `n` of `fs`.
pub open spec fn stop_id_of(b: Seq<u8>, fs: Seq<WireField>, n: u64) -> Result<Seq<u8>, DecodeError> {
    match last_bytes(fs, n) {
        None => Err(DecodeError::Missing(FieldName::StopId)),
        Some((s, e)) => match bytes_in(b, s as int, e as int) {
            None => Err(DecodeError::Malformed),
            Some(id) => if id.len() <= 4 {
                Ok(id)
            } else {
                Err(DecodeError::BadStopId(crate::error::ParseError::TooLong))
            },
        },
    }
}

/// A stop-time update: one stop of a schedule.
pub open spec fn stop_plan_of(b: Seq<u8>, s: int, e: int) -> Result<StopPlanView, DecodeError> {
    match message_fields(b, s, e) {
        None => Err(DecodeError::Malformed),
        Some(fs) => match stop_id_of(b, fs, STOP_TIME_STOP_ID) {
            Err(x) => Err(x),
            Ok(id) => match opt_event_of(b, fs, STOP_TIME_ARRIVAL) {
                Err(x) => Err(x),
                Ok(arr) => match opt_event_of(b, fs, STOP_TIME_DEPARTURE) {
                    Err(x) => Err(x),
                    Ok(dep) => match times_of(arr, dep) {
                        Err(x) => Err(x),
                        Ok(times) => Ok(StopPlanView { times, id }),
                    },
                },
            },
        },
    }
}

/// A trip descriptor: the trip its identifier and start date name.
pub open spec fn trip_of(b: Seq<u8>, s: int, e: int) -> Result<TripIdView, DecodeError> {
    match message_fields(b, s, e) {
        None => Err(DecodeError::Malformed),
        Some(fs) => match last_bytes(fs, TRIP_ID) {
            None => Err(DecodeError::Missing(FieldName::TripId)),
            Some((is, ie)) => match last_bytes(fs, TRIP_START_DATE) {
                None => Err(DecodeError::Missing(FieldName::StartDate)),
                Some((ds, de)) => match (bytes_in(b, is as int, ie as int), bytes_in(b, ds as int, de as int)) {
                    (Some(id), Some(date)) => match ymd_date(date) {
                        Err(x) => Err(DecodeError::BadStartDate(x)),
                        Ok(day) => match trip_id_of(id, day) {
                            Err(x) => Err(DecodeError::BadTrip(x)),
                            Ok(t) => Ok(t),
                        },
                    },
                    _ => Err(DecodeError::Malformed),
                },
            },
        },
    }
}

/// The trip in field `n` of `fs`.
pub open spec fn trip_field_of(b: Seq<u8>, fs: Seq<WireField>, n: u64) -> Result<TripIdView, DecodeError> {
    match last_bytes(fs, n) {
        None => Err(DecodeError::Missing(FieldName::Trip)),
        Some((s, e)) => trip_of(b, s as int, e as int),
    }
}

/// Every stop-time update of a list, or the first that fails.
pub open spec fn plans_of(b: Seq<u8>, rs: Seq<(usize, usize)>) -> Result<Seq<StopPlanView>, DecodeError>
    decreases rs.len(),
{
    if rs.len() == 0 {
        Ok(Seq::empty())
    } else {
        match stop_plan_of(b, rs[0].0 as int, rs[0].1 as int) {
            Err(x) => Err(x),
            Ok(p) => match plans_of(b, rs.drop_first()) {
                Err(x) => Err(x),
                Ok(rest) => Ok(seq![p] + rest),
            },
        }
    }
}

/// A trip update: the schedule of one trip.
pub open spec fn schedule_of(b: Seq<u8>, s: int, e: int) -> Result<ScheduleView, DecodeError> {
    match message_fields(b, s, e) {
        None => Err(DecodeError::Malformed),
        Some(fs) => match trip_field_of(b, fs, UPDATE_TRIP) {
            Err(x) => Err(x),
            Ok(trip) => match plans_of(b, all_bytes(fs, UPDATE_STOP_TIME)) {
                Err(x) => Err(x),
                Ok(stops) => Ok(ScheduleView { trip, stops, asof: Timestamp { secs: 0 } }),
            },
        },
    }
}

pub open spec fn status_of(v: Option<u64>) -> Result<PositionStatus, DecodeError> {
    match v {
        None => Ok(PositionStatus::Nothing),
        Some(c) => if c == INCOMING_AT {
            Ok(PositionStatus::Near)
        } else if c == STOPPED_AT {
            Ok(PositionStatus::At)
        } else if c == IN_TRANSIT_TO {
            Ok(PositionStatus::EnRoute)
        } else {
            Err(DecodeError::BadStatus(c))
        },
    }
}

pub open spec fn stop_n_of(v: Option<u64>) -> Result<Option<u32>, DecodeError> {
    match v {
        None => Ok(None),
        Some(n) => if n <= u32::MAX {
            Ok(Some(n as u32))
        } else {
            Err(DecodeError::OutOfRange)
        },
    }
}

/// A vehicle position.
pub open spec fn position_of(b: Seq<u8>, s: int, e: int) -> Result<PositionView, DecodeError> {
    match message_fields(b, s, e) {
        None => Err(DecodeError::Malformed),
        Some(fs) => match trip_field_of(b, fs, VEHICLE_TRIP) {
            Err(x) => Err(x),
            Ok(trip) => match stop_n_of(last_varint(fs, VEHICLE_STOP_SEQUENCE)) {
                Err(x) => Err(x),
                Ok(stop_n) => match stop_id_of(b, fs, VEHICLE_STOP_ID) {
                    Err(x) => Err(x),
                    Ok(stop) => match last_varint(fs, VEHICLE_TIMESTAMP) {
                        None => Err(DecodeError::Missing(FieldName::Timestamp)),
                        Some(v) => match unsigned_time(v) {
                            Err(x) => Err(x),
                            Ok(time) => match status_of(last_varint(fs, VEHICLE_STATUS)) {
                                Err(x) => Err(x),
                                Ok(status) => Ok(PositionView { trip, time, stop, stop_n, status }),
                            },
                        },
                    },
                },
            },
        },
    }
}

/// A feed entity: exactly one of a trip update, a vehicle position and an alert.
pub open spec fn entity_of(b: Seq<u8>, s: int, e: int) -> Result<UpdateView, DecodeError> {
    match message_fields(b, s, e) {
        None => Err(DecodeError::Malformed),
        Some(fs) => {
            let t = last_bytes(fs, ENTITY_TRIP_UPDATE);
            let v = last_bytes(fs, ENTITY_VEHICLE);
            let a = last_bytes(fs, ENTITY_ALERT);
            match (t, v, a) {
                (Some((ts, te)), None, None) => match schedule_of(b, ts as int, te as int) {
                    Ok(x) => Ok(UpdateView::Schedule(x)),
                    Err(x) => Err(x),
                },
                (None, Some((vs, ve)), None) => match position_of(b, vs as int, ve as int) {
                    Ok(x) => Ok(UpdateView::Position(x)),
                    Err(x) => Err(x),
                },
                (None, None, Some(_)) => Ok(UpdateView::Alert),
                (None, None, None) => Err(DecodeError::NoKind),
                _ => Err(
                    DecodeError::MultipleKinds { trip: t is Some, vehicle: v is Some, alert: a is Some },
                ),
            }
        },
    }
}

/// Each entity of a list, decoded on its own.
pub open spec fn entities_of(b: Seq<u8>, rs: Seq<(usize, usize)>) -> Seq<Result<UpdateView, DecodeError>> {
    rs.map_values(|r: (usize, usize)| entity_of(b, r.0 as int, r.1 as int))
}

/// A feed message: the header's time and every entity.
pub open spec fn batch_of(b: Seq<u8>) -> Result<BatchView, DecodeError> {
    match message_fields(b, 0, b.len() as int) {
        None => Err(DecodeError::Malformed),
        Some(fs) => match last_bytes(fs, FEED_HEADER) {
            None => Err(DecodeError::Missing(FieldName::Header)),
            Some((hs, he)) => match message_fields(b, hs as int, he as int) {
                None => Err(DecodeError::Malformed),
                Some(hfs) => match last_varint(hfs, HEADER_TIMESTAMP) {
                    None => Err(DecodeError::Missing(FieldName::Timestamp)),
                    Some(v) => match unsigned_time(v) {
                        Err(x) => Err(x),
                        Ok(time) => Ok(
                            BatchView { time, msgs: entities_of(b, all_bytes(fs, FEED_ENTITY)) },
                        ),
                    },
                },
            },
        },
    }
}

/// The value `val` when every presence check holds; otherwise an error naming `field`.
pub fn get_checked<T>(checks: &[bool], val: T, field: FieldName) -> (r: Result<T, DecodeError>)
    ensures
        (forall|i: int| 0 <= i < checks@.len() ==> checks@[i]) ==> r == Ok::<T, DecodeError>(val),
        !(forall|i: int| 0 <= i < checks@.len() ==> checks@[i]) ==> r == Err::<T, DecodeError>(
            DecodeError::Missing(field),
        ),
{
    let mut i: usize = 0;
    while i < checks.len()
        invariant
            i <= checks@.len(),
            forall|k: int| 0 <= k < i ==> checks@[k],
        decreases checks@.len() - i,
    {
        if !checks[i] {
            return Err(DecodeError::Missing(field));
        }
        i = i + 1;
    }
    Ok(val)
}

/// A feed message's entities are decoded each on its own: the batch holds one result per
/// entity field, in order, and each result is what decoding that entity's bytes alone gives.
/// An entity whose bytes do not follow the wire format yields `Malformed` in its own place.
pub proof fn lemma_entities_decoded_independently(b: Seq<u8>)
    requires
        batch_of(b) is Ok,
    ensures
        ({
            let rs = all_bytes(message_fields(b, 0, b.len() as int)->Some_0, FEED_ENTITY);
            let msgs = batch_of(b)->Ok_0.msgs;
            &&& msgs.len() == rs.len()
            &&& forall|i: int| 0 <= i < rs.len() ==> #[trigger] msgs[i] == entity_of(b, rs[i].0 as int, rs[i].1 as int)
            &&& forall|i: int| 0 <= i < rs.len() && message_fields(b, rs[i].0 as int, rs[i].1 as int) is None
                ==> #[trigger] msgs[i] == Err::<UpdateView, DecodeError>(DecodeError::Malformed)
        }),
{
}

fn fields_or_malformed(b: &[u8], s: usize, e: usize) -> (r: Result<Vec<WireField>, DecodeError>)
    ensures
        r matches Ok(v) ==> message_fields(b@, s as int, e as int) == Some(v@),
        r matches Err(x) ==> message_fields(b@, s as int, e as int) is None && x == DecodeError::Malformed,
{
    match read_fields(b, s, e) {
        Some(v) => Ok(v),
        None => Err(DecodeError::Malformed),
    }
}

fn read_event(b: &[u8], s: usize, e: usize) -> (r: Result<Timestamp, DecodeError>)
    ensures
        r == event_of(b@, s as int, e as int),
{
    let fs = fields_or_malformed(b, s, e)?;
    match find_last_varint(&fs, EVENT_TIME) {
        None => Err(DecodeError::Missing(FieldName::Time)),
        Some(v) => to_signed_time(v),
    }
}

fn read_opt_event(b: &[u8], fs: &Vec<WireField>, n: u64) -> (r: Result<Option<Timestamp>, DecodeError>)
    ensures
        r == opt_event_of(b@, fs@, n),
{
    match find_last_bytes(fs, n) {
        None => Ok(None),
        Some((s, e)) => match read_event(b, s, e) {
            Ok(t) => Ok(Some(t)),
            Err(x) => Err(x),
        },
    }
}

fn read_stop_id(b: &[u8], fs: &Vec<WireField>, n: u64) -> (r: Result<StopId, DecodeError>)
    ensures
        r matches Ok(id) ==> stop_id_of(b@, fs@, n) == Ok::<Seq<u8>, DecodeError>(id@),
        r matches Err(x) ==> stop_id_of(b@, fs@, n) == Err::<Seq<u8>, DecodeError>(x),
{
    match find_last_bytes(fs, n) {
        None => Err(DecodeError::Missing(FieldName::StopId)),
        Some((s, e)) => {
            let raw = copy_bytes(b, s, e)?;
            match StopId::from_bytes(raw.as_slice()) {
                Ok(id) => Ok(id),
                Err(x) => Err(DecodeError::BadStopId(x)),
            }
        },
    }
}

impl StopPlan {
    /// Decodes the stop-time update stored in `b[s..e]`.
    pub fn parse(b: &[u8], s: usize, e: usize) -> (r: Result<StopPlan, DecodeError>)
        ensures
            r matches Ok(p) ==> stop_plan_of(b@, s as int, e as int) == Ok::<StopPlanView, DecodeError>(p@),
            r matches Err(x) ==> stop_plan_of(b@, s as int, e as int) == Err::<StopPlanView, DecodeError>(x),
    {
        let fs = fields_or_malformed(b, s, e)?;
        let id = read_stop_id(b, &fs, STOP_TIME_STOP_ID)?;
        let arr = read_opt_event(b, &fs, STOP_TIME_ARRIVAL)?;
        let dep = read_opt_event(b, &fs, STOP_TIME_DEPARTURE)?;
        let times = Times::new(arr, dep)?;
        Ok(StopPlan::new(id, times))
    }
}

impl TripId {
    /// Decodes the trip descriptor stored in `b[s..e]`.
    pub fn decode(b: &[u8], s: usize, e: usize) -> (r: Result<TripId, DecodeError>)
        ensures
            r matches Ok(t) ==> trip_of(b@, s as int, e as int) == Ok::<TripIdView, DecodeError>(t@),
            r matches Err(x) ==> trip_of(b@, s as int, e as int) == Err::<TripIdView, DecodeError>(x),
    {
        let fs = fields_or_malformed(b, s, e)?;
        let (is, ie) = match find_last_bytes(&fs, TRIP_ID) {
            None => return Err(DecodeError::Missing(FieldName::TripId)),
            Some(r) => r,
        };
        let (ds, de) = match find_last_bytes(&fs, TRIP_START_DATE) {
            None => return Err(DecodeError::Missing(FieldName::StartDate)),
            Some(r) => r,
        };
        let id = copy_bytes(b, is, ie)?;
        let date = copy_bytes(b, ds, de)?;
        let day = match Date::from_yyyymmdd_bytes(date.as_slice()) {
            Ok(d) => d,
            Err(x) => return Err(DecodeError::BadStartDate(x)),
        };
        match TripId::parse_bytes(id.as_slice(), day) {
            Ok(t) => Ok(t),
            Err(x) => Err(DecodeError::BadTrip(x)),
        }
    }
}

fn read_trip_field(b: &[u8], fs: &Vec<WireField>, n: u64) -> (r: Result<TripId, DecodeError>)
    ensures
        r matches Ok(t) ==> trip_field_of(b@, fs@, n) == Ok::<TripIdView, DecodeError>(t@),
        r matches Err(x) ==> trip_field_of(b@, fs@, n) == Err::<TripIdView, DecodeError>(x),
{
    match find_last_bytes(fs, n) {
        None => Err(DecodeError::Missing(FieldName::Trip)),
        Some((s, e)) => TripId::decode(b, s, e),
    }
}

fn read_plans(b: &[u8], rs: &Vec<(usize, usize)>) -> (r: Result<Vec<StopPlan>, DecodeError>)
    ensures
        r matches Ok(v) ==> plans_of(b@, rs@) == Ok::<Seq<StopPlanView>, DecodeError>(plans_view(v@)),
        r matches Err(x) ==> plans_of(b@, rs@) == Err::<Seq<StopPlanView>, DecodeError>(x),
{
    let mut acc: Vec<StopPlan> = Vec::new();
    let mut i: usize = 0;
    assert(rs@.subrange(0, rs@.len() as int) =~= rs@);
    assert(plans_view(acc@) =~= Seq::<StopPlanView>::empty());
    while i < rs.len()
        invariant
            i <= rs@.len(),
            plans_of(b@, rs@) == (match plans_of(b@, rs@.subrange(i as int, rs@.len() as int)) {
                Ok(rest) => Ok(plans_view(acc@) + rest),
                Err(x) => Err(x),
            }),
        decreases rs@.len() - i,
    {
        let (s, e) = rs[i];
        let ghost tail = rs@.subrange(i as int, rs@.len() as int);
        assert(tail.drop_first() =~= rs@.subrange(i + 1, rs@.len() as int));
        assert(tail[0] == (s, e));
        match StopPlan::parse(b, s, e) {
            Ok(p) => {
                proof {
                    if let Ok(rest) = plans_of(b@, rs@.subrange(i + 1, rs@.len() as int)) {
                        assert(plans_view(acc@.push(p)) =~= plans_view(acc@).push(p@));
                        assert(plans_view(acc@) + (seq![p@] + rest) =~= plans_view(acc@).push(p@)
                            + rest);
                    }
                }
                acc.push(p);
            },
            Err(x) => return Err(x),
        }
        i = i + 1;
    }
    assert(rs@.subrange(i as int, rs@.len() as int) =~= Seq::<(usize, usize)>::empty());
    assert(plans_view(acc@) + Seq::<StopPlanView>::empty() =~= plans_view(acc@));
    Ok(acc)
}

impl Schedule {
    /// Decodes the trip update stored in `b[s..e]`. Any bad stop fails the whole schedule.
    pub fn parse(b: &[u8], s: usize, e: usize) -> (r: Result<Schedule, DecodeError>)
        ensures
            r matches Ok(x) ==> schedule_of(b@, s as int, e as int) == Ok::<ScheduleView, DecodeError>(x@),
            r matches Err(x) ==> schedule_of(b@, s as int, e as int) == Err::<ScheduleView, DecodeError>(x),
    {
        let fs = fields_or_malformed(b, s, e)?;
        let trip = read_trip_field(b, &fs, UPDATE_TRIP)?;
        let rs = collect_bytes(&fs, UPDATE_STOP_TIME);
        let stops = read_plans(b, &rs)?;
        Ok(Schedule::new(trip, Timestamp::epoch(), stops))
    }
}

fn read_status(v: Option<u64>) -> (r: Result<PositionStatus, DecodeError>)
    ensures
        r == status_of(v),
{
    match v {
        None => Ok(PositionStatus::Nothing),
        Some(c) => if c == INCOMING_AT {
            Ok(PositionStatus::Near)
        } else if c == STOPPED_AT {
            Ok(PositionStatus::At)
        } else if c == IN_TRANSIT_TO {
            Ok(PositionStatus::EnRoute)
        } else {
            Err(DecodeError::BadStatus(c))
        },
    }
}

impl Position {
    /// Decodes the vehicle position stored in `b[s..e]`.
    pub fn parse(b: &[u8], s: usize, e: usize) -> (r: Result<Position, DecodeError>)
        ensures
            r matches Ok(x) ==> position_of(b@, s as int, e as int) == Ok::<PositionView, DecodeError>(x@),
            r matches Err(x) ==> position_of(b@, s as int, e as int) == Err::<PositionView, DecodeError>(x),
    {
        let fs = fields_or_malformed(b, s, e)?;
        let trip = read_trip_field(b, &fs, VEHICLE_TRIP)?;
        let stop_n = match find_last_varint(&fs, VEHICLE_STOP_SEQUENCE) {
            None => None,
            Some(n) => if n <= u32::MAX as u64 {
                Some(n as u32)
            } else {
                return Err(DecodeError::OutOfRange);
            },
        };
        let stop = read_stop_id(b, &fs, VEHICLE_STOP_ID)?;
        let time = match find_last_varint(&fs, VEHICLE_TIMESTAMP) {
            None => return Err(DecodeError::Missing(FieldName::Timestamp)),
            Some(v) => to_unsigned_time(v)?,
        };
        let status = read_status(find_last_varint(&fs, VEHICLE_STATUS))?;
        Ok(Position::new(trip, stop, stop_n, status, time))
    }
}

impl Update {
    /// Decodes the feed entity stored in `b[s..e]`.
    pub fn parse(b: &[u8], s: usize, e: usize) -> (r: Result<Update, DecodeError>)
        ensures
            result_view(r) == entity_of(b@, s as int, e as int),
    {
        let fs = fields_or_malformed(b, s, e)?;
        let t = find_last_bytes(&fs, ENTITY_TRIP_UPDATE);
        let v = find_last_bytes(&fs, ENTITY_VEHICLE);
        let a = find_last_bytes(&fs, ENTITY_ALERT);
        match (t, v, a) {
            (Some((ts, te)), None, None) => match Schedule::parse(b, ts, te) {
                Ok(x) => Ok(Update::Schedule(x)),
                Err(x) => Err(x),
            },
            (None, Some((vs, ve)), None) => match Position::parse(b, vs, ve) {
                Ok(x) => Ok(Update::Position(x)),
                Err(x) => Err(x),
            },
            (None, None, Some(_)) => Ok(Update::Alert),
            (None, None, None) => Err(DecodeError::NoKind),
            _ => Err(
                DecodeError::MultipleKinds { trip: t.is_some(), vehicle: v.is_some(), alert: a.is_some() },
            ),
        }
    }
}

impl Batch {
    /// Decodes a whole feed message.
    pub fn parse(b: &[u8]) -> (r: Result<Batch, DecodeError>)
        ensures
            r matches Ok(x) ==> batch_of(b@) == Ok::<BatchView, DecodeError>(x@),
            r matches Err(x) ==> batch_of(b@) == Err::<BatchView, DecodeError>(x),
    {
        let fs = fields_or_malformed(b, 0, b.len())?;
        let (hs, he) = match find_last_bytes(&fs, FEED_HEADER) {
            None => return Err(DecodeError::Missing(FieldName::Header)),
            Some(r) => r,
        };
        let hfs = fields_or_malformed(b, hs, he)?;
        let time = match find_last_varint(&hfs, HEADER_TIMESTAMP) {
            None => return Err(DecodeError::Missing(FieldName::Timestamp)),
            Some(v) => to_unsigned_time(v)?,
        };
        let rs = collect_bytes(&fs, FEED_ENTITY);
        let mut msgs: Vec<Result<Update, DecodeError>> = Vec::new();
        let mut i: usize = 0;
        while i < rs.len()
            invariant
                i <= rs@.len(),
                msgs_view(msgs@) == entities_of(b@, rs@.subrange(0, i as int)),
            decreases rs@.len() - i,
        {
            let (s, e) = rs[i];
            let u = Update::parse(b, s, e);
            proof {
                assert(rs@.subrange(0, i + 1) =~= rs@.subrange(0, i as int).push((s, e)));
                assert(msgs_view(msgs@.push(u)) =~= msgs_view(msgs@).push(result_view(u)));
                assert(entities_of(b@, rs@.subrange(0, i + 1)) =~= entities_of(
                    b@,
                    rs@.subrange(0, i as int),
                ).push(entity_of(b@, s as int, e as int)));
            }
            msgs.push(u);
            i = i + 1;
        }
        assert(rs@.subrange(0, rs@.len() as int) =~= rs@);
        Ok(Batch { time, msgs })
    }
}

} // verus!
