use tcops::separation::find_invalid_subtours;

#[test]
fn subtours_away_from_the_depots() {
    let edges = [(0, 1), (2, 3), (3, 4), (4, 2), (5, 5)];
    assert_eq!(find_invalid_subtours(6, 0, 1, &edges), vec![vec![2, 4, 3], vec![5]]);
}

#[test]
fn components_touching_a_depot_are_kept() {
    let edges = [(0, 2), (2, 3), (4, 1)];
    assert_eq!(find_invalid_subtours(5, 0, 1, &edges), Vec::<Vec<usize>>::new());
}

#[test]
fn no_edges_no_subtours() {
    assert_eq!(find_invalid_subtours(4, 0, 3, &[]), Vec::<Vec<usize>>::new());
}

#[test]
fn tours_follow_the_depth_first_order() {
    let edges = [(3, 4), (3, 5), (4, 6), (5, 6)];
    assert_eq!(find_invalid_subtours(7, 0, 1, &edges), vec![vec![3, 5, 6, 4]]);
}

#[test]
fn forward_components_of_flow_arcs() {
    let arcs = [(1, 2), (2, 1), (3, 0), (2, 4)];
    assert_eq!(tcops::flow::forward_component(5, &arcs, 1, 0), Some(vec![1, 2, 4]));
    assert_eq!(tcops::flow::forward_component(5, &arcs, 3, 0), None);
    assert_eq!(tcops::flow::forward_component(5, &arcs, 4, 0), Some(vec![4]));
    assert_eq!(tcops::flow::forward_component(5, &arcs, 0, 0), None);
}
