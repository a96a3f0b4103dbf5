use tcops::instance::{Instance, Metric, Node, Subgroup};
use tcops::parser::header::read_header;
use tcops::parser::sections::common::{get_section_name, process_default_section};
use tcops::parser::sections::reading::file_read_sections;
use tcops::parser::sections::{cluster, node, vehicle};
use tcops::parser::utils::LineTracker;

fn number(text: &str) -> f64 {
    text.parse::<f64>().unwrap()
}

#[test]
fn test_read_header_success() {
    let input = "
NAME: test_instance
TYPE: TCOPS
COMMENT: test comment
DIMENSION: 10
SUBGROUPS: 3
CLUSTERS: 2
VEHICLES: 1
EDGE_WEIGHT_TYPE: EUC_2D
";
    let mut instance = Instance::default();
    let mut tracker = LineTracker::new(input);

    let dims = read_header(&mut instance, &mut tracker);
    assert!(dims.is_ok());
    let dims = dims.unwrap();
    assert_eq!(instance.name, "test_instance");
    assert_eq!(dims.nodes, 10);
    assert_eq!(dims.subgroups, 3);
    assert_eq!(dims.clusters, 2);
    assert_eq!(dims.vehicles, 1);
    assert!(matches!(instance.metric, Metric::Euc2d));
}

#[test]
fn test_read_header_metrics() {
    let metrics = ["EUC_2D", "EUC_3D", "MAN_2D", "MAN_3D"];
    let expected = [Metric::Euc2d, Metric::Euc3d, Metric::Man2d, Metric::Man3d];

    for (metric_str, metric) in metrics.iter().zip(expected.iter()) {
        let input = format!(
            "NAME: inst\nTYPE: T\nCOMMENT: C\nDIMENSION: 1\nSUBGROUPS: 1\nCLUSTERS: 1\nVEHICLES: 1\nEDGE_WEIGHT_TYPE: {}\n",
            metric_str
        );
        let mut instance = Instance::default();
        let mut tracker = LineTracker::new(&input);
        assert!(read_header(&mut instance, &mut tracker).is_ok());
        assert_eq!(instance.metric, *metric);
    }
}

#[test]
fn test_read_header_invalid_key() {
    let input = "WRONG_KEY: test\n";
    let mut instance = Instance::default();
    let mut tracker = LineTracker::new(input);
    let err = read_header(&mut instance, &mut tracker);
    assert!(err.is_err());
    assert!(err.unwrap_err().to_string().contains("Expected header 'NAME', but found 'WRONG_KEY'"));
}

#[test]
fn test_read_header_missing_colon() {
    let input = "NAME_NO_COLON\n";
    let mut instance = Instance::default();
    let mut tracker = LineTracker::new(input);
    let err = read_header(&mut instance, &mut tracker);
    assert!(err.is_err());
    assert!(err.unwrap_err().to_string().contains("Expected header 'NAME: value', but found 'NAME_NO_COLON'"));
}

#[test]
fn test_read_header_invalid_usize() {
    let input = "NAME: inst\nTYPE: T\nCOMMENT: C\nDIMENSION: abc\n";
    let mut instance = Instance::default();
    let mut tracker = LineTracker::new(input);
    let err = read_header(&mut instance, &mut tracker);
    assert!(err.is_err());
    assert!(err.unwrap_err().to_string().contains("Invalid integer value 'abc'"));
}

#[test]
fn test_read_header_unknown_metric() {
    let input = "NAME: inst\nTYPE: T\nCOMMENT: C\nDIMENSION: 1\nSUBGROUPS: 1\nCLUSTERS: 1\nVEHICLES: 1\nEDGE_WEIGHT_TYPE: UNKNOWN\n";
    let mut instance = Instance::default();
    let mut tracker = LineTracker::new(input);
    let err = read_header(&mut instance, &mut tracker);
    assert!(err.is_err());
    assert!(err.unwrap_err().to_string().contains("Unknown metric: UNKNOWN"));
}

#[test]
fn read_header_on_empty_text() {
    let mut instance = Instance::default();
    let mut tracker = LineTracker::new("");
    let err = read_header(&mut instance, &mut tracker);
    assert_eq!(err.unwrap_err().to_string(), "Expected header 'NAME: value', but found ''");
}

#[test]
fn test_parse_cluster_success() {
    let subgroups = vec![
        Subgroup { id: 0, ..Default::default() },
        Subgroup { id: 1, ..Default::default() },
    ];

    let cluster = cluster::parse(vec!["0", "0", "1"], &subgroups).unwrap();
    assert_eq!(cluster.id, 0);
    assert_eq!(cluster.subgroup_ids, vec![0, 1]);
}

#[test]
fn test_parse_cluster_invalid_subgroup_ref() {
    let subgroups = vec![Subgroup { id: 0, ..Default::default() }];

    let err = cluster::parse(vec!["0", "0", "5"], &subgroups);
    assert!(err.is_err());
    assert!(err.unwrap_err().to_string().contains("Integrity error: Subgroup ID 5 does not exist."));
}

#[test]
fn test_parse_cluster_insufficient_parts() {
    let subgroups = vec![];
    let err = cluster::parse(vec!["0"], &subgroups);
    assert!(err.is_err());
    assert!(err.unwrap_err().to_string().contains("Invalid cluster data"));
}

#[test]
fn test_process_clusters() {
    let subgroups = vec![Subgroup { id: 0, ..Default::default() }];
    let input = "0 0\n";
    let mut tracker = LineTracker::new(input);
    let mut clusters = Vec::with_capacity(1);

    assert!(cluster::process(&mut tracker, &mut clusters, 1, &subgroups).is_ok());
    assert_eq!(clusters.len(), 1);
    assert_eq!(clusters[0].id, 0);
    assert_eq!(clusters[0].subgroup_ids, vec![0]);
}

#[test]
fn test_get_section_name() {
    assert_eq!(get_section_name("NODE_COORD_SECTION: id profit x y").unwrap(), "NODE_COORD_SECTION");
    assert_eq!(get_section_name("  CLUSTER_SECTION  ").unwrap(), "CLUSTER_SECTION");
}

#[test]
fn test_process_default_section() {
    let err = process_default_section("UNKNOWN");
    assert!(err.is_err());
    assert!(err.unwrap_err().to_string().contains("Unknown section UNKNOWN"));
}

#[test]
fn test_file_read_sections_unknown_section() {
    let input = "UNKNOWN_SECTION: header\n";
    let mut instance = Instance::default();
    let mut tracker = LineTracker::new(input);
    let dims = tcops::parser::header::Dimensions { nodes: 0, subgroups: 0, clusters: 0, vehicles: 0 };

    let err = file_read_sections(&mut instance, &mut tracker, dims);
    assert!(err.is_err());
    assert!(err.unwrap_err().to_string().contains("Unknown section UNKNOWN_SECTION"));
}

#[test]
fn test_file_read_sections_full_sequence() {
    let input = "
NODE_COORD_SECTION: id profit x y
0 0.0 1.0 2.0
1 10.0 3.0 4.0

SUBGROUP_SECTION: subgroup_id id-vertex-list
0 5.0 0 1

CLUSTER_SECTION: cluster_id id-subgroup-list
0 0

VEHICLES_SECTION: id tmax start end
0 100.0 0 1
";
    let mut instance = Instance::default();
    let dims = tcops::parser::header::Dimensions { nodes: 2, subgroups: 1, clusters: 1, vehicles: 1 };

    let mut tracker = LineTracker::new(input);

    assert!(file_read_sections(&mut instance, &mut tracker, dims).is_ok());
    assert_eq!(instance.nodes.len(), 2);
    assert_eq!(instance.subgroups.len(), 1);
    assert_eq!(instance.clusters.len(), 1);
    assert_eq!(instance.vehicles.len(), 1);
}

#[test]
fn test_parse_node_2d() {
    let node = node::parse(vec!["0", "10.5", "20.5"]).unwrap();
    assert_eq!(node.id, 0);
    assert_eq!(number(node.point.x.as_str()), 10.5);
    assert_eq!(number(node.point.y.as_str()), 20.5);
    assert_eq!(number(node.point.z.as_str()), 0.0);
}

#[test]
fn test_parse_node_3d() {
    let node = node::parse(vec!["1", "10.5", "20.5", "30.5"]).unwrap();
    assert_eq!(node.id, 1);
    assert_eq!(number(node.point.x.as_str()), 10.5);
    assert_eq!(number(node.point.y.as_str()), 20.5);
    assert_eq!(number(node.point.z.as_str()), 30.5);
}

#[test]
fn test_parse_node_5d() {
    let node = node::parse(vec!["1", "10.5", "20.5", "30.5", "10.5", "20.5"]).unwrap();
    assert_eq!(node.id, 1);
    assert_eq!(number(node.point.x.as_str()), 10.5);
    assert_eq!(number(node.point.y.as_str()), 20.5);
    assert_eq!(number(node.point.z.as_str()), 30.5);
}

#[test]
fn test_parse_node_insufficient_parts() {
    let err = node::parse(vec!["0", "10.5"]);
    assert!(err.is_err());
    assert!(err.unwrap_err().to_string().contains("Invalid node coordinate"));
}

#[test]
fn parse_node_insufficient_parts_lists_them() {
    let err = node::parse(vec!["0", "10.5"]);
    assert_eq!(err.unwrap_err().to_string(), "Invalid node coordinate: [\"0\", \"10.5\"]");
}

#[test]
fn test_process_nodes() {
    let input = "0 1.0 2.0\n1 3.0 4.0 5.0\n";
    let mut tracker = LineTracker::new(input);
    let mut nodes = Vec::with_capacity(2);

    assert!(node::process(&mut tracker, &mut nodes, 2).is_ok());
    assert_eq!(nodes.len(), 2);
    assert_eq!(nodes[0].id, 0);
    assert_eq!(nodes[1].id, 1);
}

#[test]
fn process_nodes_rejects_ids_out_of_order() {
    let mut tracker = LineTracker::new("1 1.0 2.0\n");
    let mut nodes: Vec<Node> = Vec::new();
    let err = node::process(&mut tracker, &mut nodes, 1);
    assert_eq!(err.unwrap_err().to_string(), "The Node id must start with 0");

    let mut tracker = LineTracker::new("0 1.0 2.0\n2 1.0 2.0\n");
    let mut nodes: Vec<Node> = Vec::new();
    let err = node::process(&mut tracker, &mut nodes, 2);
    assert_eq!(err.unwrap_err().to_string(), "Node id 2 need be sequential");
}

#[test]
fn test_parse_vehicle_success() {
    let nodes = vec![Node { id: 0, ..Default::default() }, Node { id: 1, ..Default::default() }];

    let vehicle = vehicle::parse(vec!["0", "500.0", "0", "1"], &nodes).unwrap();
    assert_eq!(vehicle.id, 0);
    assert_eq!(number(vehicle.budget.as_str()), 500.0);
    assert_eq!(vehicle.start_node_id, 0);
    assert_eq!(vehicle.end_node_id, 1);
}

#[test]
fn test_parse_vehicle_invalid_node_ref() {
    let nodes = vec![Node { id: 0, ..Default::default() }];

    let err = vehicle::parse(vec!["0", "500.0", "0", "2"], &nodes);
    assert!(err.is_err());
    assert!(err.unwrap_err().to_string().contains("Integrity error: Node ID 2 does not exist."));
}

#[test]
fn test_parse_vehicle_insufficient_parts() {
    let nodes = vec![];
    let err = vehicle::parse(vec!["0", "500.0", "0"], &nodes);
    assert!(err.is_err());
    assert!(err.unwrap_err().to_string().contains("Invalid vehicle data"));
}

#[test]
fn test_process_vehicles() {
    let nodes = vec![Node { id: 0, ..Default::default() }];
    let input = "0 800.0 0 0\n";
    let mut tracker = LineTracker::new(input);
    let mut vehicles = Vec::with_capacity(1);

    assert!(vehicle::process(&mut tracker, &mut vehicles, 1, &nodes).is_ok());
    assert_eq!(vehicles.len(), 1);
    assert_eq!(vehicles[0].id, 0);
    assert_eq!(number(vehicles[0].budget.as_str()), 800.0);
}

#[test]
fn a_failed_section_keeps_the_items_accepted_before() {
    let mut tracker = LineTracker::new("0 1.0 2.0\n1 3.0 4.0\n5 1.0 1.0\n3 0 0\n");
    let mut nodes: Vec<Node> = Vec::new();
    let err = node::process(&mut tracker, &mut nodes, 4);
    assert_eq!(err.unwrap_err().to_string(), "Node id 5 need be sequential");
    assert_eq!(nodes.len(), 2);
    assert_eq!(nodes[1].id, 1);
    assert_eq!(nodes[1].point.y.as_str(), "4.0");
}
