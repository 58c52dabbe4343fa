use conic_planner::object::{Object, Orbit};

fn probe() -> Object<f64, f64, u32> {
    Object::new_orbit("Probe".to_string(), 1.0, 0, 0.0, 100.0, 7)
}

fn check_contiguous(o: &Object<f64, f64, u32>) {
    let orbits = o.get_orbits().unwrap();
    for i in 0..orbits.len() - 1 {
        assert_eq!(orbits[i + 1].get_end_time(), orbits[i].get_start_time());
    }
}

#[test]
fn new_segment_starts_and_ends_together() {
    let o = Orbit::new(3, 5.0f64, 'x');
    assert_eq!(o.get_parent(), 3);
    assert_eq!(o.get_start_time(), 5.0);
    assert_eq!(o.get_end_time(), 5.0);
    assert_eq!(o.get_data(), 'x');
}

#[test]
fn stationary_body_has_no_parent() {
    let sun: Object<f64, f64, u32> = Object::new_stationary("Sun".to_string(), 2.0e30);
    assert!(!sun.is_orbiting());
    assert_eq!(sun.get_name(), "Sun");
    assert_eq!(*sun.get_body(), 2.0e30);
    assert_eq!(sun.get_current_parent(), None);
    assert_eq!(sun.get_final_parent(), None);
    assert!(sun.get_orbits().is_none());
}

#[test]
fn change_parent_caps_head_and_pushes_new_one() {
    let mut p = probe();
    p.change_parent(2, 30.0, 8, 9);
    let orbits = p.get_orbits().unwrap();
    assert_eq!(orbits.len(), 2);
    assert_eq!(orbits[0].get_parent(), 2);
    assert_eq!(orbits[0].get_start_time(), 30.0);
    assert_eq!(orbits[0].get_data(), 9);
    assert_eq!(orbits[1].get_parent(), 0);
    assert_eq!(orbits[1].get_end_time(), 30.0);
    assert_eq!(orbits[1].get_data(), 8);
    assert_eq!(p.get_final_parent(), Some(2));
    assert_eq!(p.get_current_parent(), Some(0));
}

#[test]
fn chain_stays_contiguous_over_many_changes() {
    let mut p = probe();
    let times = [10.0, 25.0, 25.0, 60.0];
    for (k, t) in times.iter().enumerate() {
        p.change_parent(k + 1, *t, 0, 0);
        check_contiguous(&p);
    }
    let orbits = p.get_orbits().unwrap();
    assert_eq!(orbits.len(), 5);
    assert_eq!(orbits[4].get_start_time(), 0.0);
    for i in 0..orbits.len() - 1 {
        assert!(orbits[i + 1].get_start_time() <= orbits[i].get_start_time());
    }
    assert_eq!(p.get_current_parent(), Some(0));
    assert_eq!(p.get_final_parent(), Some(4));
}

#[test]
fn retiring_keeps_last_segment() {
    let mut p = probe();
    p.change_parent(1, 40.0, 0, 0);
    let removed = p.retire_current().unwrap();
    assert_eq!(removed.get_parent(), 0);
    assert_eq!(p.get_current_parent(), Some(1));
    assert!(p.retire_current().is_none());
    assert_eq!(p.get_orbits().unwrap().len(), 1);
}

#[test]
fn end_and_update_touch_only_their_segment() {
    let mut p = probe();
    p.change_parent(1, 40.0, 5, 6);
    p.end_final_at(70.0, 11);
    p.update_final(12);
    p.update_current(13);
    let head = p.get_final_orbit().unwrap();
    let tail = p.get_current_orbit().unwrap();
    assert_eq!(head.get_end_time(), 70.0);
    assert_eq!(head.get_start_time(), 40.0);
    assert_eq!(head.get_data(), 12);
    assert_eq!(tail.get_end_time(), 40.0);
    assert_eq!(tail.get_data(), 13);
    check_contiguous(&p);
}
