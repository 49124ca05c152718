//! The typed events that one feed poll decodes into.
use vstd::prelude::*;
use crate::datetime::Timestamp;
use crate::error::DecodeError;
use crate::ids::StopId;
use crate::trip::{TripId, TripIdView};

verus! {

/// When a train reaches and leaves a stop: a first stop has only a departure,
/// a last stop only an arrival, any other stop both.
#[derive(Debug, Clone, Copy, PartialEq, Eq, Structural)]
pub enum Times {
    Last { arr: Timestamp },
    First { dep: Timestamp },
    Mid { arr: Timestamp, dep: Timestamp },
}

pub open spec fn times_of(arr: Option<Timestamp>, dep: Option<Timestamp>) -> Result<Times, DecodeError> {
    match (arr, dep) {
        (Some(a), Some(d)) => Ok(Times::Mid { arr: a, dep: d }),
        (Some(a), None) => Ok(Times::Last { arr: a }),
        (None, Some(d)) => Ok(Times::First { dep: d }),
        (None, None) => Err(DecodeError::NoTimes),
    }
}

impl Times {
    pub fn new(arr: Option<Timestamp>, dep: Option<Timestamp>) -> (r: Result<Times, DecodeError>)
        ensures
            r == times_of(arr, dep),
    {
        match (arr, dep) {
            (Some(a), Some(d)) => Ok(Times::Mid { arr: a, dep: d }),
            (Some(a), None) => Ok(Times::Last { arr: a }),
            (None, Some(d)) => Ok(Times::First { dep: d }),
            (None, None) => Err(DecodeError::NoTimes),
        }
    }

    pub open spec fn t0_spec(self) -> Timestamp {
        match self {
            Times::Last { arr } => arr,
            Times::First { dep } => dep,
            Times::Mid { arr, .. } => arr,
        }
    }

    /// The arrival, or for a first stop the departure.
    pub fn t0(&self) -> (r: Timestamp)
        ensures
            r == self.t0_spec(),
    {
        match self {
            Times::Last { arr } => *arr,
            Times::First { dep } => *dep,
            Times::Mid { arr, .. } => *arr,
        }
    }

    pub fn arr(&self) -> (r: Option<Timestamp>)
        ensures
            r == (match *self {
                Times::Last { arr } => Some(arr),
                Times::Mid { arr, .. } => Some(arr),
                Times::First { .. } => None,
            }),
    {
        match self {
            Times::Last { arr } => Some(*arr),
            Times::Mid { arr, .. } => Some(*arr),
            Times::First { .. } => None,
        }
    }

    pub fn dep(&self) -> (r: Option<Timestamp>)
        ensures
            r == (match *self {
                Times::First { dep } => Some(dep),
                Times::Mid { dep, .. } => Some(dep),
                Times::Last { .. } => None,
            }),
    {
        match self {
            Times::First { dep } => Some(*dep),
            Times::Mid { dep, .. } => Some(*dep),
            Times::Last { .. } => None,
        }
    }
}

/// One stop of a schedule.
#[derive(Debug, Clone)]
pub struct StopPlan {
    pub times: Times,
    pub id: StopId,
}

pub struct StopPlanView {
    pub times: Times,
    pub id: Seq<u8>,
}

impl View for StopPlan {
    type V = StopPlanView;

    open spec fn view(&self) -> StopPlanView {
        StopPlanView { times: self.times, id: self.id@ }
    }
}

impl StopPlan {
    pub fn new(id: StopId, times: Times) -> (r: StopPlan)
        ensures
            r@ == (StopPlanView { times, id: id@ }),
    {
        StopPlan { times, id }
    }
}

pub open spec fn plans_view(v: Seq<StopPlan>) -> Seq<StopPlanView> {
    v.map_values(|p: StopPlan| p@)
}

/// The predicted stops of one trip.
#[derive(Debug, Clone)]
pub struct Schedule {
    trip: TripId,
    stops: Vec<StopPlan>,
    asof: Timestamp,
}

pub struct ScheduleView {
    pub trip: TripIdView,
    pub stops: Seq<StopPlanView>,
    pub asof: Timestamp,
}

impl View for Schedule {
    type V = ScheduleView;

    closed spec fn view(&self) -> ScheduleView {
        ScheduleView { trip: self.trip@, stops: plans_view(self.stops@), asof: self.asof }
    }
}

impl Schedule {
    pub fn new(trip: TripId, asof: Timestamp, stops: Vec<StopPlan>) -> (r: Schedule)
        ensures
            r@ == (ScheduleView { trip: trip@, stops: plans_view(stops@), asof }),
    {
        Schedule { trip, stops, asof }
    }

    pub fn trip(&self) -> (r: TripId)
        ensures
            r@ == self@.trip,
    {
        self.trip.copy()
    }

    pub fn stops(&self) -> (r: &[StopPlan])
        ensures
            plans_view(r@) == self@.stops,
    {
        self.stops.as_slice()
    }

    pub fn asof(&self) -> (r: Timestamp)
        ensures
            r == self@.asof,
    {
        self.asof
    }
}

#[derive(Debug, Clone, Copy, PartialEq, Eq, Structural)]
pub enum PositionStatus {
    Nothing,
    At,
    Near,
    EnRoute,
}

pub open spec fn position_status_of(x: u32) -> Option<PositionStatus> {
    if x == 0 {
        Some(PositionStatus::Nothing)
    } else if x == 1 {
        Some(PositionStatus::At)
    } else if x == 2 {
        Some(PositionStatus::Near)
    } else if x == 3 {
        Some(PositionStatus::EnRoute)
    } else {
        None
    }
}

impl PositionStatus {
    /// The status with code `x` (0 to 3, in declaration order).
    pub fn try_from(x: u32) -> (r: Result<PositionStatus, DecodeError>)
        ensures
            r matches Ok(s) ==> position_status_of(x) == Some(s),
            r matches Err(e) ==> position_status_of(x) is None && e == DecodeError::BadStatus(
                x as u64,
            ),
    {
        if x == 0 {
            Ok(PositionStatus::Nothing)
        } else if x == 1 {
            Ok(PositionStatus::At)
        } else if x == 2 {
            Ok(PositionStatus::Near)
        } else if x == 3 {
            Ok(PositionStatus::EnRoute)
        } else {
            Err(DecodeError::BadStatus(x as u64))
        }
    }
}

/// Where a vehicle is.
#[derive(Debug, Clone)]
pub struct Position {
    pub trip: TripId,
    pub time: Timestamp,
    pub stop: StopId,
    pub stop_n: Option<u32>,
    pub status: PositionStatus,
}

pub struct PositionView {
    pub trip: TripIdView,
    pub time: Timestamp,
    pub stop: Seq<u8>,
    pub stop_n: Option<u32>,
    pub status: PositionStatus,
}

impl View for Position {
    type V = PositionView;

    open spec fn view(&self) -> PositionView {
        PositionView {
            trip: self.trip@,
            time: self.time,
            stop: self.stop@,
            stop_n: self.stop_n,
            status: self.status,
        }
    }
}

impl Position {
    pub fn new(
        trip: TripId,
        stop: StopId,
        stop_n: Option<u32>,
        status: PositionStatus,
        time: Timestamp,
    ) -> (r: Position)
        ensures
            r@ == (PositionView { trip: trip@, time, stop: stop@, stop_n, status }),
    {
        Position { trip, stop, stop_n, status, time }
    }

    pub fn trip(&self) -> (r: TripId)
        ensures
            r@ == self@.trip,
    {
        self.trip.copy()
    }
}

/// One decoded feed entity.
#[derive(Debug, Clone)]
pub enum Update {
    Alert,
    Position(Position),
    Schedule(Schedule),
}

pub enum UpdateView {
    Alert,
    Position(PositionView),
    Schedule(ScheduleView),
}

impl View for Update {
    type V = UpdateView;

    open spec fn view(&self) -> UpdateView {
        match self {
            Update::Alert => UpdateView::Alert,
            Update::Position(p) => UpdateView::Position(p@),
            Update::Schedule(s) => UpdateView::Schedule(s@),
        }
    }
}

pub open spec fn result_view(r: Result<Update, DecodeError>) -> Result<UpdateView, DecodeError> {
    match r {
        Ok(u) => Ok(u@),
        Err(e) => Err(e),
    }
}

pub open spec fn msgs_view(v: Seq<Result<Update, DecodeError>>) -> Seq<Result<UpdateView, DecodeError>> {
    v.map_values(|r: Result<Update, DecodeError>| result_view(r))
}

/// The decoded contents of one feed poll: the time the feed gives, and each entity,
/// decoded or not, in feed order.
#[derive(Debug)]
pub struct Batch {
    pub time: Timestamp,
    pub msgs: Vec<Result<Update, DecodeError>>,
}

pub struct BatchView {
    pub time: Timestamp,
    pub msgs: Seq<Result<UpdateView, DecodeError>>,
}

impl View for Batch {
    type V = BatchView;

    open spec fn view(&self) -> BatchView {
        BatchView { time: self.time, msgs: msgs_view(self.msgs@) }
    }
}

} // verus!
