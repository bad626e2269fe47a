use maps_core::MapsError;
use maps_core::cache::{BeginOutcome, RouteCache};
use maps_core::engine::{AppState, EngineConfig, fingerprint};
use maps_core::geo::Coordinate;
use maps_core::graph::{Edge, GraphStore, Node, RoadClass};
use maps_core::instructions::{ManeuverType, build_segments, classify_turn};
use maps_core::route::{Route, RouteRequest, VehicleClass};
use maps_core::search::{SearchOptions, find_path};
use maps_core::units::{Duration, DistanceUnit, TileCoordinate, clamp, generate_id, hex_string, to_millimeters};

fn coord(lat: i64, lon: i64) -> Coordinate {
    Coordinate::new(lat, lon).unwrap()
}

fn node(id: u64, lat: i64, lon: i64) -> Node {
    Node { id, coord: coord(lat, lon), elevation_m: 0, barrier: false }
}

fn edge(id: u64, from: u64, to: u64) -> Edge {
    Edge {
        id,
        from_node: from,
        to_node: to,
        length_mm: 1000,
        travel_secs: 1,
        cost: 1,
        road_class: RoadClass::Residential,
        one_way: false,
        toll: false,
        highway: false,
    }
}

fn request(origin: Coordinate, destination: Coordinate) -> RouteRequest {
    RouteRequest {
        origin,
        destination,
        waypoints: Vec::new(),
        vehicle: VehicleClass::Car,
        avoid_tolls: false,
        avoid_highways: false,
    }
}

fn line_state() -> AppState {
    // five nodes on a line heading east, then a bend north at the third
    let nodes = vec![
        node(1, 0, 0),
        node(2, 0, 1000),
        node(3, 0, 2000),
        node(4, 1000, 2000),
        node(5, 2000, 2000),
    ];
    let edges = vec![
        edge(1, 1, 2),
        edge(2, 2, 3),
        edge(3, 3, 4),
        edge(4, 4, 5),
    ];
    let mut state = AppState::new();
    state.load_graph(nodes, edges).unwrap();
    state
}

fn empty_route(created_at: u64) -> Route {
    Route {
        request: request(coord(0, 0), coord(0, 0)),
        segments: Vec::new(),
        total_distance_mm: 0,
        total_duration_secs: 0,
        created_at,
    }
}

#[test]
fn compute_route_end_to_end() {
    let mut state = line_state();
    let req = request(coord(0, 0), coord(2000, 2000));
    let route = state.compute_route(req, 42).unwrap();
    assert_eq!(route.created_at, 42);
    assert_eq!(route.segments.len(), 4);
    assert_eq!(route.total_distance_mm, 4000);
    assert_eq!(route.total_duration_secs, 4);
    assert_eq!(route.segments[0].maneuver, ManeuverType::Start);
    assert_eq!(route.segments[3].maneuver, ManeuverType::Arrive);
}

#[test]
fn ninety_degree_bend_turns_left() {
    // travelling east, then north: the bend at the shared node turns left
    let state = line_state();
    let opts = SearchOptions {
        avoid_tolls: false,
        avoid_highways: false,
        heuristic_milli_per_meter: 0,
    };
    let sr = find_path(&state.store, 1, 5, &opts).unwrap();
    let segs = build_segments(&state.store, &sr, &opts);
    assert_eq!(segs.len(), 4);
    assert_eq!(segs[1].maneuver, ManeuverType::Straight);
    assert_eq!(segs[2].maneuver, ManeuverType::TurnLeft);
    assert_eq!(segs[2].instruction, "Turn left");
}

#[test]
fn sharp_bend_is_a_u_turn() {
    // a 175 degree bend reads as a U-turn, a 90 degree one as a turn
    assert_eq!(classify_turn(0, 185_000), ManeuverType::UTurn);
    assert_eq!(classify_turn(0, 175_000), ManeuverType::UTurn);
    assert_eq!(classify_turn(0, 90_000), ManeuverType::TurnRight);
    assert_eq!(classify_turn(90_000, 0), ManeuverType::TurnLeft);
    assert_eq!(classify_turn(0, 5_000), ManeuverType::Straight);
    assert_eq!(classify_turn(0, 20_000), ManeuverType::TurnSlightRight);
    assert_eq!(classify_turn(0, 340_000), ManeuverType::TurnSlightLeft);
    assert_eq!(classify_turn(0, 150_000), ManeuverType::TurnSharpRight);
}

#[test]
fn compute_route_same_origin_and_destination() {
    // a request that never moves yields a route with no segments
    let mut state = line_state();
    let req = request(coord(0, 0), coord(0, 0));
    let route = state.compute_route(req, 3).unwrap();
    assert_eq!(route.segments.len(), 0);
    assert_eq!(route.total_distance_mm, 0);
    assert_eq!(route.total_duration_secs, 0);
}

#[test]
fn route_segments_chain_between_nodes() {
    let mut state = line_state();
    let req = request(coord(0, 0), coord(2000, 2000));
    let route = state.compute_route(req, 7).unwrap();
    assert!(route.segments.len() > 1);
    for w in route.segments.windows(2) {
        assert_eq!(w[0].end, w[1].start);
    }
    assert_eq!(route.segments[0].start, coord(0, 0));
    assert_eq!(route.segments[route.segments.len() - 1].end, coord(2000, 2000));
}

#[test]
fn compute_route_not_found_on_broken_leg() {
    let nodes = vec![node(1, 0, 0), node(2, 0, 1000), node(3, 40_000_000, 0)];
    let edges = vec![edge(1, 1, 2)];
    let mut state = AppState::new();
    state.load_graph(nodes, edges).unwrap();
    let req = request(coord(0, 0), coord(40_000_000, 0));
    assert_eq!(state.compute_route(req, 1).err(), Some(MapsError::NotFound));
}

#[test]
fn compute_route_empty_graph() {
    let mut state = AppState::new();
    let req = request(coord(0, 0), coord(1000, 1000));
    assert_eq!(state.compute_route(req, 1).err(), Some(MapsError::EmptyGraph));
}

#[test]
fn compute_route_caches_and_counts() {
    let mut state = line_state();
    let req1 = request(coord(0, 0), coord(2000, 2000));
    let req2 = request(coord(0, 0), coord(2000, 2000));
    let first = state.compute_route(req1, 10).unwrap();
    assert_eq!(state.cache_misses(), 1);
    assert_eq!(state.cache_hits(), 0);
    let second = state.compute_route(req2, 11).unwrap();
    assert_eq!(state.cache_hits(), 1);
    assert_eq!(second.created_at, first.created_at);
    assert_eq!(second.total_distance_mm, first.total_distance_mm);
}

#[test]
fn compute_route_waypoints_concatenate() {
    let mut state = line_state();
    let mut req = request(coord(0, 0), coord(2000, 2000));
    req.waypoints = vec![coord(0, 2000)];
    let route = state.compute_route(req, 5).unwrap();
    assert_eq!(route.total_distance_mm, 4000);
    assert_eq!(route.segments.len(), 4);
}

#[test]
fn compute_route_while_in_flight_fails_for_waiter() {
    let mut state = line_state();
    let req = request(coord(0, 0), coord(2000, 2000));
    let fp = fingerprint(&req);
    // another caller's computation is under way for the same fingerprint
    match state.cache.begin(fp, 0) {
        BeginOutcome::MustCompute => {},
        _ => panic!("expected a fresh computation"),
    }
    assert_eq!(state.compute_route(req, 1).err(), Some(MapsError::CacheComputeFailed));
}

#[test]
fn cache_coalesces_identical_requests() {
    // two concurrent lookups of one fingerprint trigger exactly one computation
    let mut cache = RouteCache::new(100, 4);
    match cache.begin(7, 0) {
        BeginOutcome::MustCompute => {},
        _ => panic!("first caller must compute"),
    }
    match cache.begin(7, 0) {
        BeginOutcome::Wait => {},
        _ => panic!("second caller must wait, not compute"),
    }
    assert_eq!(cache.miss_count(), 1);
}

#[test]
fn cache_expires_after_ttl() {
    let mut cache = RouteCache::new(100, 4);
    match cache.begin(7, 50) {
        BeginOutcome::MustCompute => {},
        _ => panic!("first caller must compute"),
    }
    cache.complete(7, empty_route(50), 50);
    // before expiry the entry is reused
    match cache.begin(7, 149) {
        BeginOutcome::Hit(r) => assert_eq!(r.created_at, 50),
        _ => panic!("entry should still be fresh"),
    }
    // at or past the expiry instant it is recomputed, not reused
    match cache.begin(7, 150) {
        BeginOutcome::MustCompute => {},
        _ => panic!("expired entry must be recomputed"),
    }
}

#[test]
fn cache_evicts_least_recently_used() {
    let mut cache = RouteCache::new(1_000_000, 2);
    for fp in [1u64, 2u64] {
        match cache.begin(fp, 0) {
            BeginOutcome::MustCompute => {},
            _ => panic!("fresh fingerprint must compute"),
        }
        cache.complete(fp, empty_route(0), 0);
    }
    // touch 1 so that 2 becomes the least recently used
    match cache.begin(1, 1) {
        BeginOutcome::Hit(_) => {},
        _ => panic!("entry 1 should be fresh"),
    }
    match cache.begin(3, 2) {
        BeginOutcome::MustCompute => {},
        _ => panic!("fresh fingerprint must compute"),
    }
    assert_eq!(cache.eviction_count(), 1);
    // 1 survived, 2 was evicted
    match cache.begin(1, 3) {
        BeginOutcome::Hit(_) => {},
        _ => panic!("entry 1 should have survived the eviction"),
    }
    match cache.begin(2, 4) {
        BeginOutcome::MustCompute => {},
        _ => panic!("entry 2 should have been evicted"),
    }
}

#[test]
fn fingerprint_normalizes_nearby_coordinates() {
    // coordinates equal after rounding to a ten-thousandth of a degree collide
    let a = request(coord(0, 0), coord(1000, 1000));
    let b = request(coord(50, 99), coord(1050, 1099));
    assert_eq!(fingerprint(&a), fingerprint(&b));
    // changed options give a different fingerprint
    let mut c = request(coord(0, 0), coord(1000, 1000));
    c.avoid_tolls = true;
    assert_ne!(fingerprint(&a), fingerprint(&c));
}

#[test]
fn failed_load_keeps_previous_graph() {
    let mut state = line_state();
    let err = state.load_graph(vec![node(9, 0, 0)], vec![edge(1, 9, 77)]);
    assert_eq!(err, Err(MapsError::DanglingEdge));
    // the old graph still serves
    let req = request(coord(0, 0), coord(2000, 2000));
    assert!(state.compute_route(req, 9).is_ok());
}

#[test]
fn with_config_applies_configuration() {
    let cfg = EngineConfig {
        cache_ttl_nanos: 1000,
        cache_capacity: 2,
        heuristic_milli_per_meter: 500,
    };
    let state = AppState::with_config(cfg);
    assert_eq!(state.config, cfg);
}

#[test]
fn duration_conversions() {
    assert_eq!(Duration::new(90).seconds, 90);
    assert_eq!(Duration::from_minutes(2).seconds, 120);
    assert_eq!(Duration::from_hours(3).seconds, 10_800);
    assert_eq!(Duration::from_hours(1).to_minutes(), 60);
    assert_eq!(Duration::new(119).to_minutes(), 1);
}

#[test]
fn distance_unit_conversions() {
    assert_eq!(to_millimeters(2, DistanceUnit::Meters), 2000);
    assert_eq!(to_millimeters(3, DistanceUnit::Kilometers), 3_000_000);
    assert_eq!(to_millimeters(1, DistanceUnit::Miles), 1_609_344);
    assert_eq!(to_millimeters(10, DistanceUnit::Feet), 3048);
}

#[test]
fn tile_coordinate_holds_components() {
    let t = TileCoordinate::new(5, 9, 12);
    assert_eq!(t.x, 5);
    assert_eq!(t.y, 9);
    assert_eq!(t.z, 12);
}

#[test]
fn clamp_restricts_to_range() {
    assert_eq!(clamp(5, 0, 10), 5);
    assert_eq!(clamp(-5, 0, 10), 0);
    assert_eq!(clamp(15, 0, 10), 10);
}

#[test]
fn hex_rendering() {
    assert_eq!(hex_string(0), "0");
    assert_eq!(hex_string(255), "ff");
    assert_eq!(hex_string(48879), "beef");
    assert!(!generate_id().is_empty());
}

#[test]
fn error_messages_cover_taxonomy() {
    assert_eq!(MapsError::OutOfRange.message(), "coordinate out of range");
    assert_eq!(MapsError::EmptyGraph.message(), "no nodes loaded");
    assert_eq!(MapsError::DanglingEdge.message(), "edge references an unknown node");
    assert_eq!(MapsError::InvalidEdgeCost.message(), "edge cost out of range");
    assert_eq!(MapsError::NotFound.message(), "no route found");
    assert_eq!(MapsError::CacheComputeFailed.message(), "route computation failed");
}

#[test]
fn graph_store_alone_loads() {
    let mut store = GraphStore::new();
    assert!(store.load_graph(vec![node(1, 0, 0)], vec![]).is_ok());
    assert!(store.node_exists(1));
    assert!(!store.node_exists(2));
}
