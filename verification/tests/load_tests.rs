use tcops::parser::load::read_instance;

const INSTANCE: &str = "NAME: tiny
TYPE: TCOPS
COMMENT: two subgroups share node 2
DIMENSION: 4
SUBGROUPS: 3
CLUSTERS: 2
VEHICLES: 1
EDGE_WEIGHT_TYPE: EUC_3D
# the data
NODE_COORD_SECTION: id x y z
0 0.0 0.0 0.0
1 1.0 0.0 2.5
2 2.0 1.0
3 3.0 3.0 3.0
SUBGROUP_SECTION: id profit nodes
0 5.0 1 2
1 7.5 2 3
2 1.0
CLUSTER_SECTION: id subgroups
0 0 1
1 1
VEHICLES_SECTION: id budget start end
0 100.0 0 0
";

fn sorted(mut v: Vec<usize>) -> Vec<usize> {
    v.sort();
    v
}

#[test]
fn reads_a_whole_instance() {
    let instance = read_instance(INSTANCE).unwrap();
    assert_eq!(instance.name, "tiny");
    assert_eq!(instance.metric, tcops::instance::Metric::Euc3d);
    assert_eq!(instance.nodes.len(), 4);
    assert_eq!(instance.subgroups.len(), 3);
    assert_eq!(instance.clusters.len(), 2);
    assert_eq!(instance.vehicles.len(), 1);
    assert_eq!(instance.nodes[2].point.z.as_str(), "0.0");
    assert_eq!(instance.subgroups[1].profit.as_str(), "7.5");
    assert_eq!(instance.subgroups[1].node_ids, vec![2, 3]);
    assert_eq!(instance.clusters[0].subgroup_ids, vec![0, 1]);
    assert_eq!(instance.vehicles[0].budget.as_str(), "100.0");
}

#[test]
fn nodes_list_the_subgroups_that_hold_them() {
    let instance = read_instance(INSTANCE).unwrap();
    let parents = |i: usize| sorted(instance.nodes[i].parent_subgroup_ids.iter().copied().collect());
    assert_eq!(parents(0), Vec::<usize>::new());
    assert_eq!(parents(1), vec![0]);
    assert_eq!(parents(2), vec![0, 1]);
    assert_eq!(parents(3), vec![1]);
}

#[test]
fn subgroups_name_the_last_cluster_that_holds_them() {
    let instance = read_instance(INSTANCE).unwrap();
    assert_eq!(instance.subgroups[0].parent_cluster_id, 0);
    assert_eq!(instance.subgroups[1].parent_cluster_id, 1);
    assert_eq!(instance.subgroups[2].parent_cluster_id, 0);
}

#[test]
fn a_header_error_stops_reading() {
    let err = read_instance("NAME: x\nTYPE: T\n").unwrap_err();
    assert_eq!(err.to_string(), "Expected header 'COMMENT: value', but found ''");
}

#[test]
fn a_reference_error_stops_reading() {
    let text = INSTANCE.replace("0 5.0 1 2", "0 5.0 1 9");
    let err = read_instance(&text).unwrap_err();
    assert_eq!(err.to_string(), "Integrity error: Node ID 9 does not exist.");
}

#[test]
fn an_unknown_section_stops_reading() {
    let text = INSTANCE.replace("CLUSTER_SECTION", "CLUSTERS_SECTION");
    let err = read_instance(&text).unwrap_err();
    assert_eq!(err.to_string(), "Unknown section CLUSTERS_SECTION");
}

#[test]
fn missing_items_are_read_as_the_end_of_the_text() {
    let text = INSTANCE.replace("VEHICLES: 1", "VEHICLES: 2");
    let err = read_instance(&text).unwrap_err();
    assert_eq!(err.to_string(), "Invalid vehicle data: []");
}
