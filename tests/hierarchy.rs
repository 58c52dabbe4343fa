use conic_planner::hierarchy::{build_order, find_object, resolve_parents, LoadError};

fn names(list: &[&str]) -> Vec<String> {
    list.iter().map(|s| s.to_string()).collect()
}

#[test]
fn finds_first_body_by_name() {
    let n = names(&["Sun", "Earth", "Moon", "Earth"]);
    assert_eq!(find_object(&n, &"Earth".to_string()), Some(1));
    assert_eq!(find_object(&n, &"Sun".to_string()), Some(0));
    assert_eq!(find_object(&n, &"Mars".to_string()), None);
    assert_eq!(find_object(&Vec::new(), &"Sun".to_string()), None);
}

#[test]
fn resolves_parent_names_to_indices() {
    let n = names(&["Moon", "Sun", "Earth"]);
    let p = vec![Some("Earth".to_string()), None, Some("Sun".to_string())];
    assert_eq!(resolve_parents(&n, &p), Ok(vec![Some(2), None, Some(1)]));
}

#[test]
fn missing_parent_is_reported() {
    let n = names(&["Sun", "Probe"]);
    let p = vec![None, Some("Vulcan".to_string())];
    assert_eq!(resolve_parents(&n, &p), Err(LoadError::MissingParent(1)));
}

#[test]
fn duplicate_name_is_reported() {
    let n = names(&["Sun", "Earth", "Sun"]);
    let p = vec![None, Some("Sun".to_string()), None];
    assert_eq!(resolve_parents(&n, &p), Err(LoadError::DuplicateName(2)));
}

#[test]
fn builds_parents_before_children() {
    // 2 is the root; 0 orbits 2, 1 orbits 0 and 3 orbits 1. Each pass
    // builds, in index order, every body whose parent is already built.
    let parents = vec![Some(2), Some(0), None, Some(1)];
    let order = build_order(&parents).unwrap();
    assert_eq!(order, vec![2, 0, 1, 3]);
}

#[test]
fn empty_hierarchy_builds() {
    assert_eq!(build_order(&Vec::new()), Ok(Vec::new()));
}

#[test]
fn cycle_is_rejected() {
    let parents = vec![None, Some(2), Some(1)];
    assert_eq!(build_order(&parents), Err(LoadError::Cycle));
    let own_parent = vec![Some(0)];
    assert_eq!(build_order(&own_parent), Err(LoadError::Cycle));
}
