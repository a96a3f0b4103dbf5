use tcops::parser::load::read_instance;
use tcops::search::{initial_search_state, set_elements, SearchState};
use std::collections::HashSet;

#[test]
fn test_search_state_default() {
    let state = SearchState::default();
    assert!(state.visited_nodes.is_empty());
    assert!(state.cluster_locks.is_empty());
    assert!(state.subgroup_nodes_count.is_empty());
}

#[test]
fn test_search_state_clone() {
    let mut state = SearchState::default();
    state.visited_nodes.insert(1);
    state.cluster_locks.insert(0, 2);
    state.subgroup_nodes_count.insert(2, 3);

    let cloned = state.clone();
    assert_eq!(cloned.visited_nodes.len(), 1);
    assert!(cloned.visited_nodes.contains(&1));
    assert_eq!(cloned.cluster_locks.get(&0), Some(&2));
    assert_eq!(cloned.subgroup_nodes_count.get(&2), Some(&3));
}

#[test]
fn cluster_locks_admit_only_their_subgroup() {
    let mut state = SearchState::default();
    assert!(state.allows(4, 7));
    state.enter_subgroup(4, 7, 2);
    assert!(state.allows(4, 7));
    assert!(!state.allows(4, 8));
    assert!(state.allows(5, 8));
    assert!(state.is_active(7));
    assert_eq!(state.subgroup_nodes_count.get(&7), Some(&2));
    state.drop_subgroup(4, 7);
    assert!(state.allows(4, 8));
    assert!(!state.is_active(7));
}

#[test]
fn visiting_and_leaving_nodes() {
    let mut state = SearchState::default();
    state.visit(3);
    state.visit(3);
    state.visit(5);
    assert_eq!(state.visited_nodes.len(), 2);
    state.leave(3);
    state.leave(9);
    assert_eq!(state.visited_nodes.iter().copied().collect::<Vec<_>>(), vec![5]);
}

#[test]
fn inactive_subgroups_in_order() {
    let mut state = SearchState::default();
    state.enter_subgroup(0, 1, 1);
    state.enter_subgroup(1, 3, 1);
    assert_eq!(state.inactive_subgroups(5), vec![0, 2, 4]);
    assert_eq!(state.inactive_subgroups(0), Vec::<usize>::new());
}

#[test]
fn set_elements_lists_each_once() {
    let set: HashSet<usize> = [4, 1, 9].into_iter().collect();
    let mut v = set_elements(&set);
    v.sort();
    assert_eq!(v, vec![1, 4, 9]);
}

const INSTANCE: &str = "NAME: tiny
TYPE: TCOPS
COMMENT: c
DIMENSION: 4
SUBGROUPS: 3
CLUSTERS: 2
VEHICLES: 2
EDGE_WEIGHT_TYPE: EUC_2D
NODE_COORD_SECTION
0 0 0
1 1 0
2 2 1
3 3 3
SUBGROUP_SECTION
0 5 0 2
1 7 3
2 1 0
CLUSTER_SECTION
0 0 2
1 1
VEHICLES_SECTION
0 100 0 3
1 100 1 1
";

#[test]
fn initial_state_visits_depots_and_holds_start_subgroups() {
    let instance = read_instance(INSTANCE).unwrap();
    let state = initial_search_state(&instance);
    let mut visited: Vec<usize> = state.visited_nodes.iter().copied().collect();
    visited.sort();
    assert_eq!(visited, vec![0, 1, 3]);
    let mut active: Vec<usize> = state.subgroup_nodes_count.keys().copied().collect();
    active.sort();
    assert_eq!(active, vec![0, 2]);
    assert!(state.subgroup_nodes_count.values().all(|&c| c == 1));
    assert_eq!(state.cluster_locks.len(), 1);
    let holder = *state.cluster_locks.get(&0).unwrap();
    assert!(holder == 0 || holder == 2);
}
