use conic_planner::encounter::Encounter;
use conic_planner::object::Object;
use conic_planner::solver::{
    apply_change_parent, current_ancestry, entrance_candidates, exit_target, object_names,
    resolve_encounter,
    PlaybackError,
};

type Body = Object<f64, f64, u8>;

// Sun (0) stationary; Earth (1) and Mars (2) orbit the Sun; Moon (3) and
// Probe (4) orbit Earth.
fn system() -> Vec<Body> {
    vec![
        Object::new_stationary("Sun".to_string(), 2.0e30),
        Object::new_orbit("Earth".to_string(), 6.0e24, 0, 0.0, 100.0, 0),
        Object::new_orbit("Mars".to_string(), 6.4e23, 0, 0.0, 100.0, 0),
        Object::new_orbit("Moon".to_string(), 7.3e22, 1, 0.0, 100.0, 0),
        Object::new_orbit("Probe".to_string(), 1.0, 1, 0.0, 100.0, 0),
    ]
}

#[test]
fn exit_goes_to_grandparent() {
    let s = system();
    assert_eq!(exit_target(&s, 4), Some(0));
    assert_eq!(exit_target(&s, 3), Some(0));
    // Earth's parent is stationary: there is no sphere to leave.
    assert_eq!(exit_target(&s, 1), None);
    assert_eq!(exit_target(&s, 0), None);
}

#[test]
fn entrance_candidates_share_the_parent() {
    let s = system();
    let all = vec![true; 5];
    assert_eq!(entrance_candidates(&s, &all, 4), vec![3]);
    assert_eq!(entrance_candidates(&s, &all, 1), vec![2]);
    let light_moon = vec![true, true, true, false, true];
    assert_eq!(entrance_candidates(&s, &light_moon, 4), Vec::<usize>::new());
}

#[test]
fn names_in_order() {
    let s = system();
    assert_eq!(object_names(&s), vec!["Sun", "Earth", "Mars", "Moon", "Probe"]);
}

#[test]
fn resolves_encounter_names() {
    let s = system();
    let e = Encounter::new_entrance("Probe".to_string(), "Moon".to_string(), 3.0);
    assert_eq!(resolve_encounter(&s, &e), Ok((4, 3)));
    let e = Encounter::new_exit("Ghost".to_string(), "Sun".to_string(), 3.0);
    assert_eq!(resolve_encounter(&s, &e), Err(PlaybackError::UnknownObject));
    let e = Encounter::new_exit("Probe".to_string(), "Vulcan".to_string(), 3.0);
    assert_eq!(resolve_encounter(&s, &e), Err(PlaybackError::UnknownParent));
    let e = Encounter::new_exit("Sun".to_string(), "Earth".to_string(), 3.0);
    assert_eq!(resolve_encounter(&s, &e), Err(PlaybackError::NotOrbiting));
}

#[test]
fn applying_entrance_changes_only_that_body() {
    let mut s = system();
    apply_change_parent(&mut s, 4, 3, 12.0, 1, 2);
    assert_eq!(s[4].get_final_parent(), Some(3));
    assert_eq!(s[4].get_current_parent(), Some(1));
    assert_eq!(s[4].get_orbits().unwrap().len(), 2);
    assert_eq!(s[3].get_orbits().unwrap().len(), 1);
    // Now inside the Moon's sphere, the Probe can leave it for Earth.
    assert_eq!(exit_target(&s, 4), Some(1));
}

#[test]
fn ancestry_climbs_to_the_root() {
    let s = system();
    assert_eq!(current_ancestry(&s, 4), Some(vec![4, 1, 0]));
    assert_eq!(current_ancestry(&s, 0), Some(vec![0]));
}

#[test]
fn ancestry_detects_a_cycle() {
    let mut s = system();
    // Earth moves under the Moon, which orbits Earth: a cycle that playback
    // reaches once both tails are retired.
    apply_change_parent(&mut s, 1, 3, 10.0, 0, 0);
    assert!(s[1].retire_current().is_some());
    assert_eq!(current_ancestry(&s, 3), None);
    assert_eq!(current_ancestry(&s, 1), None);
    assert_eq!(current_ancestry(&s, 2), Some(vec![2, 0]));
}

#[test]
fn entrance_then_exit_keeps_ancestry_finite() {
    let mut s = system();
    let all = vec![true; 5];
    let candidates = entrance_candidates(&s, &all, 4);
    apply_change_parent(&mut s, 4, candidates[0], 5.0, 0, 0);
    let out = exit_target(&s, 4).unwrap();
    apply_change_parent(&mut s, 4, out, 9.0, 0, 0);
    assert_eq!(s[4].get_final_parent(), Some(1));
    assert!(s[4].retire_current().is_some());
    assert_eq!(current_ancestry(&s, 4), Some(vec![4, 3, 1, 0]));
    assert!(s[4].retire_current().is_some());
    assert_eq!(current_ancestry(&s, 4), Some(vec![4, 1, 0]));
}
