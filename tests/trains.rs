use subpar::datetime::{Date, Timestamp};
use subpar::ids::{ComplexId, StopId};
use subpar::msg::{Batch, Schedule, StopPlan, Times, Update};
use subpar::trains::{StationComplex, TrainStates};
use subpar::trip::TripId;

const T0: i64 = 1704096000; // 2024-01-01 08:00:00 UTC

fn directory() -> TrainStates {
    TrainStates::new(&[
        StationComplex { complex_id: ComplexId(119), stop_ids: vec![StopId::make("L06")] },
        StationComplex { complex_id: ComplexId(120), stop_ids: vec![StopId::make("L08"), StopId::make("L10")] },
    ])
}

fn schedule(trip: &str, stops: &[(&str, i64)]) -> Update {
    let day = Date::make(2024, 1, 1).unwrap();
    let plans = stops
        .iter()
        .map(|(s, t)| StopPlan::new(StopId::make(s), Times::Last { arr: Timestamp { secs: *t } }))
        .collect();
    Update::Schedule(Schedule::new(TripId::parse(trip, day).unwrap(), Timestamp::epoch(), plans))
}

fn batch(time: i64, msgs: Vec<Update>) -> Batch {
    Batch { time: Timestamp { secs: time }, msgs: msgs.into_iter().map(Ok).collect() }
}

fn summary(s: &TrainStates, c: u32) -> Option<Vec<(Vec<u8>, Vec<u8>, i64, i64)>> {
    s.get(ComplexId(c)).map(|v| {
        v.iter()
            .map(|u| (u.trip.as_bytes().to_vec(), u.stop.as_bytes().to_vec(), u.arrival.secs, u.message.secs))
            .collect()
    })
}

#[test]
fn schedule_lands_at_station_complex() {
    let mut s = directory();
    s.update_at(&batch(T0 - 60, vec![schedule("048000_L..N", &[("L06N", T0)])]), Timestamp { secs: T0 - 59 });
    let got = summary(&s, 119).unwrap();
    assert_eq!(got, vec![(b"048000_L..N".to_vec(), b"L06".to_vec(), T0, T0 - 60)]);
    assert_eq!(summary(&s, 120), Some(vec![]));
    assert_eq!(summary(&s, 7), None);
}

#[test]
fn unknown_stops_are_skipped() {
    let mut s = directory();
    s.update_at(&batch(T0, vec![schedule("048000_L..N", &[("X99N", T0), ("L08N", T0 + 60)])]), Timestamp { secs: T0 });
    let got = summary(&s, 120).unwrap();
    assert_eq!(got.len(), 1);
    assert_eq!(got[0].1, b"L08".to_vec());
}

#[test]
fn last_stop_of_a_complex_wins_within_a_batch() {
    let mut s = directory();
    s.update_at(&batch(T0, vec![schedule("048000_L..N", &[("L08N", T0 + 60), ("L10N", T0 + 120)])]), Timestamp { secs: T0 });
    assert_eq!(summary(&s, 120).unwrap(), vec![(b"048000_L..N".to_vec(), b"L10".to_vec(), T0 + 120, T0)]);
}

#[test]
fn merging_same_candidate_twice_changes_nothing() {
    let mut s = directory();
    let b = batch(T0, vec![schedule("048000_L..N", &[("L06N", T0 + 300)])]);
    s.update_at(&b, Timestamp { secs: T0 });
    s.update_at(&b, Timestamp { secs: T0 });
    let once = summary(&s, 119);
    s.update_at(&b, Timestamp { secs: T0 });
    assert_eq!(summary(&s, 119), once);
    assert_eq!(once.unwrap().len(), 1);
}

#[test]
fn newer_message_updates_arrival_older_is_ignored() {
    let mut s = directory();
    s.update_at(&batch(T0, vec![schedule("048000_L..N", &[("L06N", T0 + 300)])]), Timestamp { secs: T0 });
    s.update_at(&batch(T0 + 10, vec![schedule("048000_L..N", &[("L06N", T0 + 330)])]), Timestamp { secs: T0 + 10 });
    assert_eq!(summary(&s, 119).unwrap()[0].2, T0 + 330);
    s.update_at(&batch(T0 + 5, vec![schedule("048000_L..N", &[("L06N", T0 + 999)])]), Timestamp { secs: T0 + 11 });
    assert_eq!(summary(&s, 119).unwrap()[0].2, T0 + 330);
    assert_eq!(summary(&s, 119).unwrap()[0].3, T0 + 10);
}

#[test]
fn stale_entries_are_evicted() {
    let mut s = directory();
    s.update_at(&batch(T0, vec![schedule("048000_L..N", &[("L06N", T0 + 300)])]), Timestamp { secs: T0 });
    s.update_at(&batch(T0 + 40, vec![schedule("050000_L..N", &[("L06N", T0 + 400)])]), Timestamp { secs: T0 + 46 });
    let got = summary(&s, 119).unwrap();
    assert_eq!(got.len(), 1);
    assert_eq!(got[0].0, b"050000_L..N".to_vec());
}

#[test]
fn entries_exactly_45_seconds_old_stay() {
    let mut s = directory();
    s.update_at(&batch(T0, vec![schedule("048000_L..N", &[("L06N", T0 + 300)])]), Timestamp { secs: T0 + 45 });
    assert_eq!(summary(&s, 119).unwrap().len(), 1);
    s.update_at(&batch(T0 + 1, vec![]), Timestamp { secs: T0 + 45 });
    assert_eq!(summary(&s, 119).unwrap().len(), 1);
    s.update_at(&batch(T0 + 1, vec![]), Timestamp { secs: T0 + 46 });
    assert_eq!(summary(&s, 119).unwrap().len(), 0);
}

#[test]
fn stale_candidates_of_a_new_complex_are_evicted() {
    let mut s = directory();
    s.update_at(&batch(T0 - 100, vec![schedule("048000_L..N", &[("L06N", T0 + 300)])]), Timestamp { secs: T0 });
    assert_eq!(summary(&s, 119), Some(vec![]));
}

#[test]
fn get_sorts_by_arrival() {
    let mut s = directory();
    s.update_at(
        &batch(T0, vec![
            schedule("048000_L..N", &[("L06N", T0 + 300)]),
            schedule("049000_L..N", &[("L06N", T0 + 100)]),
            schedule("050000_L..S", &[("L06S", T0 + 200)]),
        ]),
        Timestamp { secs: T0 },
    );
    let arrivals: Vec<i64> = summary(&s, 119).unwrap().iter().map(|u| u.2).collect();
    assert_eq!(arrivals, vec![T0 + 100, T0 + 200, T0 + 300]);
}
