use maps_core::MapsError;
use maps_core::geo::Coordinate;
use maps_core::graph::{Edge, GraphStore, Node, RoadClass};
use maps_core::search::{SearchOptions, find_path, heuristic_cost};

fn coord(lat: i64, lon: i64) -> Coordinate {
    Coordinate::new(lat, lon).unwrap()
}

fn node(id: u64, lat: i64, lon: i64) -> Node {
    Node { id, coord: coord(lat, lon), elevation_m: 0, barrier: false }
}

fn edge(id: u64, from: u64, to: u64, cost: u64) -> Edge {
    Edge {
        id,
        from_node: from,
        to_node: to,
        length_mm: 1000,
        travel_secs: 1,
        cost,
        road_class: RoadClass::Residential,
        one_way: false,
        toll: false,
        highway: false,
    }
}

fn plain_opts() -> SearchOptions {
    SearchOptions { avoid_tolls: false, avoid_highways: false, heuristic_milli_per_meter: 0 }
}

/// A 4 by 4 grid with unit edge costs and 4-neighbor connectivity.
/// Node (i, j) has id `1 + i * 4 + j`.
fn grid_store() -> GraphStore {
    let mut nodes = Vec::new();
    let mut edges = Vec::new();
    let mut eid = 1u64;
    for i in 0..4i64 {
        for j in 0..4i64 {
            nodes.push(node(1 + (i * 4 + j) as u64, i * 1000, j * 1000));
        }
    }
    for i in 0..4i64 {
        for j in 0..4i64 {
            let a = 1 + (i * 4 + j) as u64;
            if i + 1 < 4 {
                let b = 1 + ((i + 1) * 4 + j) as u64;
                edges.push(edge(eid, a, b, 1));
                eid += 1;
                edges.push(edge(eid, b, a, 1));
                eid += 1;
            }
            if j + 1 < 4 {
                let b = 1 + (i * 4 + j + 1) as u64;
                edges.push(edge(eid, a, b, 1));
                eid += 1;
                edges.push(edge(eid, b, a, 1));
                eid += 1;
            }
        }
    }
    let mut store = GraphStore::new();
    store.load_graph(nodes, edges).unwrap();
    store
}

#[test]
fn grid_path_is_optimal() {
    // corner to corner on the grid costs the Manhattan distance: 6 unit edges
    let store = grid_store();
    let sr = find_path(&store, 1, 16, &plain_opts()).unwrap();
    assert_eq!(sr.path.len(), 7);
    assert_eq!(sr.path[0], 1);
    assert_eq!(sr.path[6], 16);
    assert_eq!(sr.distance_mm, 6000);
    assert_eq!(sr.duration_secs, 6);
}

#[test]
fn start_equals_goal() {
    let store = grid_store();
    let sr = find_path(&store, 6, 6, &plain_opts()).unwrap();
    assert_eq!(sr.path, vec![6u64]);
    assert_eq!(sr.distance_mm, 0);
    assert_eq!(sr.duration_secs, 0);
}

#[test]
fn start_equals_goal_never_returns_a_cycle() {
    // even on a graph with a cycle through the node, the trivial path wins
    let nodes = vec![node(1, 0, 0), node(2, 0, 1000)];
    let edges = vec![edge(1, 1, 2, 1), edge(2, 2, 1, 1)];
    let mut store = GraphStore::new();
    store.load_graph(nodes, edges).unwrap();
    let sr = find_path(&store, 1, 1, &plain_opts()).unwrap();
    assert_eq!(sr.path, vec![1u64]);
    assert_eq!(sr.distance_mm, 0);
    assert!(sr.edge_indices.is_empty());
}

#[test]
fn find_path_deterministic() {
    let store = grid_store();
    let opts = plain_opts();
    let a = find_path(&store, 1, 16, &opts).unwrap();
    let b = find_path(&store, 1, 16, &opts).unwrap();
    assert_eq!(a.path, b.path);
    assert_eq!(a.edge_indices, b.edge_indices);
    assert_eq!(a.distance_mm, b.distance_mm);
}

#[test]
fn disconnected_goal_is_not_found() {
    // two components: 1 - 2 and 3 - 4
    let nodes = vec![node(1, 0, 0), node(2, 0, 1000), node(3, 50_000, 0), node(4, 50_000, 1000)];
    let edges = vec![edge(1, 1, 2, 5), edge(2, 2, 1, 5), edge(3, 3, 4, 5), edge(4, 4, 3, 5)];
    let mut store = GraphStore::new();
    store.load_graph(nodes, edges).unwrap();
    assert_eq!(find_path(&store, 1, 3, &plain_opts()).err(), Some(MapsError::NotFound));
    assert!(find_path(&store, 1, 2, &plain_opts()).is_ok());
}

#[test]
fn toll_avoidance_cuts_the_only_road() {
    let nodes = vec![node(1, 0, 0), node(2, 0, 1000)];
    let mut toll_edge = edge(1, 1, 2, 5);
    toll_edge.toll = true;
    let mut store = GraphStore::new();
    store.load_graph(nodes, vec![toll_edge]).unwrap();
    let mut opts = plain_opts();
    assert!(find_path(&store, 1, 2, &opts).is_ok());
    opts.avoid_tolls = true;
    assert_eq!(find_path(&store, 1, 2, &opts).err(), Some(MapsError::NotFound));
}

#[test]
fn highway_avoidance_cuts_the_only_road() {
    let nodes = vec![node(1, 0, 0), node(2, 0, 1000)];
    let mut hw = edge(1, 1, 2, 5);
    hw.highway = true;
    let mut store = GraphStore::new();
    store.load_graph(nodes, vec![hw]).unwrap();
    let mut opts = plain_opts();
    opts.avoid_highways = true;
    assert_eq!(find_path(&store, 1, 2, &opts).err(), Some(MapsError::NotFound));
}

#[test]
fn cheaper_parallel_edge_wins() {
    let nodes = vec![node(1, 0, 0), node(2, 0, 1000)];
    let mut expensive = edge(1, 1, 2, 9);
    expensive.length_mm = 9000;
    let cheap = edge(2, 1, 2, 2);
    let mut store = GraphStore::new();
    store.load_graph(nodes, vec![expensive, cheap]).unwrap();
    let sr = find_path(&store, 1, 2, &plain_opts()).unwrap();
    // the cheap edge (cost 2, length 1000) is taken
    assert_eq!(sr.distance_mm, 1000);
}

#[test]
fn heuristic_is_admissible_on_fixture() {
    // a straight line of three nodes, 0.001 degrees apart, edge cost 200 each;
    // the estimate converts distance at 1000 millicost per meter
    let a = coord(0, 0);
    let b = coord(0, 1000);
    let c = coord(0, 2000);
    // true remaining costs to the goal c: from a 400, from b 200, from c 0
    assert!(heuristic_cost(&a, &c, 1000) <= 400);
    assert!(heuristic_cost(&b, &c, 1000) <= 200);
    assert_eq!(heuristic_cost(&c, &c, 1000), 0);
}

#[test]
fn graph_load_rejects_dangling_edge() {
    let nodes = vec![node(1, 0, 0)];
    let edges = vec![edge(1, 1, 99, 5)];
    let mut store = GraphStore::new();
    assert_eq!(store.load_graph(nodes, edges), Err(MapsError::DanglingEdge));
    // the failed load left the store untouched
    assert!(!store.node_exists(1));
}

#[test]
fn graph_load_rejects_zero_cost() {
    let nodes = vec![node(1, 0, 0), node(2, 0, 1000)];
    let edges = vec![edge(1, 1, 2, 0)];
    let mut store = GraphStore::new();
    assert_eq!(store.load_graph(nodes, edges), Err(MapsError::InvalidEdgeCost));
}

#[test]
fn graph_load_rejects_invalid_coordinate() {
    let bad = Node { id: 1, coord: maps_core::geo::Coordinate { lat_micro: 95_000_000, lon_micro: 0 }, elevation_m: 0, barrier: false };
    let mut store = GraphStore::new();
    assert_eq!(store.load_graph(vec![bad], vec![]), Err(MapsError::OutOfRange));
}

#[test]
fn nearest_node_on_empty_graph_fails() {
    let store = GraphStore::new();
    assert_eq!(store.nearest_node(&coord(0, 0)).err(), Some(MapsError::EmptyGraph));
}

#[test]
fn nearest_node_picks_closest_then_first() {
    let nodes = vec![node(1, 0, 0), node(2, 0, 10_000), node(3, 0, 10_000)];
    let mut store = GraphStore::new();
    store.load_graph(nodes, vec![]).unwrap();
    assert_eq!(store.nearest_node(&coord(0, 9_000)).unwrap(), 2);
    assert_eq!(store.nearest_node(&coord(0, 1_000)).unwrap(), 1);
}

#[test]
fn outgoing_edges_in_table_order() {
    let nodes = vec![node(1, 0, 0), node(2, 0, 1000)];
    let e1 = edge(1, 1, 2, 5);
    let e2 = edge(2, 2, 1, 5);
    let e3 = edge(3, 1, 2, 7);
    let mut store = GraphStore::new();
    store.load_graph(nodes, vec![e1, e2, e3]).unwrap();
    let out = store.outgoing_edges(1);
    assert_eq!(out.len(), 2);
    assert_eq!(out[0].id, 1);
    assert_eq!(out[1].id, 3);
}
