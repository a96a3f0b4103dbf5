use tcops::exporter::{get_clusters_visited, get_mode, get_subgroups_visited, get_vehicles_used, RoutePath};
use tcops::instance::Metric;
use tcops::parser::load::read_instance;

const INSTANCE: &str = "NAME: tiny
TYPE: TCOPS
COMMENT: c
DIMENSION: 5
SUBGROUPS: 3
CLUSTERS: 2
VEHICLES: 2
EDGE_WEIGHT_TYPE: MAN_2D
NODE_COORD_SECTION
0 0 0
1 1 0
2 2 1
3 3 3
4 4 4
SUBGROUP_SECTION
0 5 1 2
1 7 3
2 1 4
CLUSTER_SECTION
0 0 1
1 2
VEHICLES_SECTION
0 100 0 0
1 100 0 0
";

fn sorted(mut v: Vec<usize>) -> Vec<usize> {
    v.sort();
    v
}

#[test]
fn modes_of_metrics() {
    assert_eq!(get_mode(Metric::Euc2d), "2d");
    assert_eq!(get_mode(Metric::Man2d), "2d");
    assert_eq!(get_mode(Metric::Euc3d), "3d");
    assert_eq!(get_mode(Metric::Man3d), "3d");
}

#[test]
fn vehicles_used_once_each() {
    let routes = vec![
        RoutePath { vehicle_id: 0, path: vec![0, 2, 0] },
        RoutePath { vehicle_id: 1, path: vec![0, 0] },
        RoutePath { vehicle_id: 0, path: vec![0, 1, 3, 0] },
        RoutePath { vehicle_id: 2, path: vec![0] },
    ];
    assert_eq!(get_vehicles_used(&routes), vec![0]);
}

#[test]
fn visited_subgroups_and_clusters() {
    let instance = read_instance(INSTANCE).unwrap();
    let routes = vec![
        RoutePath { vehicle_id: 0, path: vec![0, 2, 3, 0] },
        RoutePath { vehicle_id: 1, path: vec![0, 0] },
    ];
    assert_eq!(sorted(get_subgroups_visited(&instance, &routes)), vec![0, 1]);
    assert_eq!(sorted(get_clusters_visited(&instance, &routes)), vec![0]);

    let routes = vec![RoutePath { vehicle_id: 0, path: vec![0, 4, 1, 0] }];
    assert_eq!(sorted(get_subgroups_visited(&instance, &routes)), vec![0, 2]);
    assert_eq!(sorted(get_clusters_visited(&instance, &routes)), vec![0, 1]);
}
