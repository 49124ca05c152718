use subpar::datetime::Timestamp;
use subpar::elevators::{AccessEquipment, AccessOutage, ElevatorStates};
use subpar::ids::{ComplexId, EquipmentId, Route};

fn equipment(id: &str, complex: u32, kind: &str) -> AccessEquipment {
    AccessEquipment {
        station: "1 Av".to_string(),
        trains: vec![Route::make("L")],
        equipmentno: EquipmentId::make(id),
        equipmenttype: kind.to_string(),
        serving: "street to platform".to_string(),
        ada: true,
        isactive: true,
        non_nyct: false,
        shortdescription: "Street to platform".to_string(),
        linesservedbyelevator: vec![Route::make("L")],
        stop_ids: vec![],
        elevatormrn: "119".to_string(),
        complex_id: ComplexId(complex),
        nextadanorth: String::new(),
        nextadasouth: String::new(),
        redundant: 0,
        busconnections: "M14A".to_string(),
        alternativeroute: String::new(),
    }
}

fn outage(id: &str, reason: &str) -> AccessOutage {
    AccessOutage {
        station: "1 Av".to_string(),
        routes: vec![Route::make("L")],
        equipment: EquipmentId::make(id),
        equipmenttype: "EL".to_string(),
        serving: String::new(),
        ada: true,
        outagedate: Timestamp { secs: 1687772100 },
        estimatedreturntoservice: Timestamp { secs: 1735689900 },
        reason: reason.to_string(),
        isupcomingoutage: false,
        ismaintenanceoutage: true,
        asof: Timestamp { secs: 1700000000 },
    }
}

#[test]
fn outage_shows_on_its_complex() {
    let mut s = ElevatorStates::new(&[equipment("EL001", 100, "EL"), equipment("ES002", 101, "ES")]);
    s.update(&[outage("EL001", "Repairs")]);
    let els = s.get(ComplexId(100)).unwrap();
    assert_eq!(els.len(), 1);
    let o = els[0].outage.as_ref().unwrap();
    assert_eq!(o.reason, "Repairs");
    assert!(o.maintenance);
    assert_eq!(o.est_return.secs, 1735689900);
    assert!(!els[0].is_escalator);
    assert!(s.get(ComplexId(101)).unwrap()[0].is_escalator);
    assert!(s.get(ComplexId(101)).unwrap()[0].outage.is_none());
    assert!(s.get(ComplexId(5)).is_none());
    assert_eq!(s.get_summary().outages, vec![ComplexId(100)]);
}

#[test]
fn summary_is_cached_until_update() {
    let mut s = ElevatorStates::new(&[equipment("EL001", 100, "EL"), equipment("EL003", 102, "EL")]);
    assert_eq!(s.get_summary().outages, vec![]);
    s.update(&[outage("EL003", "x"), outage("EL001", "y")]);
    let a = s.get_summary().outages;
    let b = s.get_summary().outages;
    assert_eq!(a, b);
    assert_eq!(a, vec![ComplexId(100), ComplexId(102)]);
    s.update(&[]);
    assert_eq!(s.get_summary().outages, vec![]);
}

#[test]
fn unknown_equipment_is_skipped_and_outages_reset() {
    let s = ElevatorStates::new(&[equipment("EL001", 100, "EL")]).with_outages(&[outage("EL999", "x"), outage("EL001", "y")]);
    assert_eq!(s.get(ComplexId(100)).unwrap()[0].outage.as_ref().unwrap().reason, "y");
    let mut s = s;
    s.update(&[outage("EL999", "x")]);
    assert!(s.get(ComplexId(100)).unwrap()[0].outage.is_none());
}

#[test]
fn later_report_for_same_equipment_wins() {
    let mut s = ElevatorStates::new(&[equipment("EL001", 100, "EL")]);
    s.update(&[outage("EL001", "first"), outage("EL001", "second")]);
    assert_eq!(s.get(ComplexId(100)).unwrap()[0].outage.as_ref().unwrap().reason, "second");
}
