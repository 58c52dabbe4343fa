use conic_planner::encounter::{Encounter, EncounterType};
use conic_planner::solver::last_encounter;

#[test]
fn entrance_record_keeps_its_fields() {
    let e = Encounter::new_entrance("Probe".to_string(), "Moon".to_string(), 12.5f64);
    assert_eq!(e.get_encounter_type(), EncounterType::Entrance);
    assert_eq!(e.get_object(), "Probe");
    assert_eq!(e.get_new_parent(), "Moon");
    assert_eq!(e.get_time(), 12.5);
}

#[test]
fn exit_record_keeps_its_fields() {
    let e = Encounter::new_exit("Probe".to_string(), "Sun".to_string(), 40.0f64);
    assert_eq!(e.get_encounter_type(), EncounterType::Exit);
    assert_eq!(e.get_object(), "Probe");
    assert_eq!(e.get_new_parent(), "Sun");
    assert_eq!(e.get_time(), 40.0);
}

#[test]
fn last_found_encounter_wins() {
    let found = vec![
        Some(Encounter::new_entrance("A".to_string(), "B".to_string(), 1.0f64)),
        None,
        Some(Encounter::new_exit("C".to_string(), "D".to_string(), 2.0f64)),
        None,
    ];
    let e = last_encounter(found).unwrap();
    assert_eq!(e.get_object(), "C");
    assert_eq!(e.get_encounter_type(), EncounterType::Exit);
    assert_eq!(e.get_time(), 2.0);
}

#[test]
fn no_encounter_found() {
    let found: Vec<Option<Encounter<f64>>> = vec![None, None];
    assert!(last_encounter(found).is_none());
    assert!(last_encounter(Vec::<Option<Encounter<f64>>>::new()).is_none());
}
