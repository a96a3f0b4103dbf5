use tcops::instance::Vehicle;
use tcops::model::{common_count, directed_edges, flow_rule, non_depot_nodes, outside_nodes, trace_route, FlowRule};
use tcops::routes::{interior_position, is_route_endpoint};

fn vehicle(id: usize, start: usize, end: usize) -> Vehicle {
    Vehicle { id, start_node_id: start, end_node_id: end, ..Default::default() }
}

#[test]
fn flow_rules_by_node_role() {
    assert_eq!(flow_rule(0, 0, 0), FlowRule::RoundTrip);
    assert_eq!(flow_rule(0, 0, 3), FlowRule::Visit);
    assert_eq!(flow_rule(0, 5, 0), FlowRule::Start);
    assert_eq!(flow_rule(0, 5, 5), FlowRule::End);
    assert_eq!(flow_rule(0, 5, 2), FlowRule::Visit);
}

#[test]
fn arcs_in_row_order() {
    assert_eq!(directed_edges(2), vec![(0, 1), (1, 0)]);
    assert_eq!(directed_edges(3), vec![(0, 1), (0, 2), (1, 0), (1, 2), (2, 0), (2, 1)]);
    assert_eq!(directed_edges(1), Vec::<(usize, usize)>::new());
    assert_eq!(directed_edges(0), Vec::<(usize, usize)>::new());
}

#[test]
fn depots_are_skipped() {
    let vehicles = vec![vehicle(0, 0, 4), vehicle(1, 2, 2)];
    assert_eq!(non_depot_nodes(6, &vehicles), vec![1, 3, 5]);
    assert!(is_route_endpoint(&vehicles, 4));
    assert!(is_route_endpoint(&vehicles, 2));
    assert!(!is_route_endpoint(&vehicles, 3));
}

#[test]
fn nodes_outside_a_tour() {
    assert_eq!(outside_nodes(6, &[4, 1, 2]), vec![0, 3, 5]);
    assert_eq!(outside_nodes(3, &[]), vec![0, 1, 2]);
}

#[test]
fn interior_positions() {
    let path = vec![0, 5, 7, 5, 0];
    assert_eq!(interior_position(&path, 5), Some(1));
    assert_eq!(interior_position(&path, 7), Some(2));
    assert_eq!(interior_position(&path, 0), None);
    assert_eq!(interior_position(&[3, 3], 3), None);
}

#[test]
fn routes_follow_selected_arcs() {
    let mut selected = vec![vec![false; 4]; 4];
    selected[0][2] = true;
    selected[2][1] = true;
    selected[1][0] = true;
    assert_eq!(trace_route(&selected, 0, 0, 4), vec![0, 2, 1, 0]);
    assert_eq!(trace_route(&selected, 0, 1, 4), vec![0, 2, 1]);
    assert_eq!(trace_route(&selected, 3, 0, 4), vec![3]);
}

#[test]
fn routes_take_the_first_selected_arc_and_stop_after_the_limit() {
    let mut selected = vec![vec![false; 3]; 3];
    selected[0][1] = true;
    selected[0][2] = true;
    selected[1][0] = true;
    let route = trace_route(&selected, 0, 2, 3);
    assert_eq!(route, vec![0, 1, 0, 1, 0, 1]);
}

#[test]
fn common_elements_of_sorted_lists() {
    assert_eq!(common_count(&[], &[]), 0);
    assert_eq!(common_count(&[1, 2, 3], &[1, 2, 3]), 3);
    assert_eq!(common_count(&[1, 2, 3], &[4, 5, 6]), 0);
    assert_eq!(common_count(&[1, 2, 3, 4], &[3, 4, 5, 6]), 2);
}

#[test]
fn nodes_numbered_by_first_occurrence() {
    let (old_to_new, new_to_old) = tcops::model::compact_nodes(6, 4, &[(2, 4), (5, 2), (0, 5)]);
    assert_eq!(new_to_old, vec![4, 2, 5, 0]);
    assert_eq!(old_to_new, vec![3, usize::MAX, 1, usize::MAX, 0, 2]);
    let (old_to_new, new_to_old) = tcops::model::compact_nodes(3, 1, &[]);
    assert_eq!(new_to_old, vec![1]);
    assert_eq!(old_to_new, vec![usize::MAX, 0, usize::MAX]);
}

#[test]
fn removing_an_interior_node() {
    let mut path = vec![0, 5, 7, 5, 0];
    assert_eq!(tcops::routes::remove_interior(&mut path, 5), Some((0, 7)));
    assert_eq!(path, vec![0, 7, 5, 0]);
    assert_eq!(tcops::routes::remove_interior(&mut path, 0), None);
    assert_eq!(path, vec![0, 7, 5, 0]);
    let mut short = vec![2, 2];
    assert_eq!(tcops::routes::remove_interior(&mut short, 2), None);
}
