//! The routing engine: the single entry point a service layer calls.
//!
//! A request is normalized into a fingerprint and looked up in the route
//! cache; on a miss the engine resolves the origin, waypoints and destination
//! to their nearest loaded nodes, runs one search per consecutive pair, turns
//! the found paths into turn-by-turn segments, and caches the finished route.

use vstd::prelude::*;

use crate::MapsError;
use crate::cache::{
    BeginKind, BeginOutcome, RouteCache, CacheState, sat_add_one, sat_inc, spec_begin_kind,
    spec_begin_slots, spec_complete_slots, spec_fail_slots, slot_index,
};
use crate::geo::Coordinate;
use crate::graph::{Edge, GraphStore, Node, MAX_NODES, MAX_EDGES};
use crate::instructions::{
    RouteSegment, build_segments, first_idx_spec, seg_is_allowed_edge, segs_chained,
};
use crate::route::{Route, RouteRequest, route_view, request_view, clone_request};
use crate::search::{
    SearchOptions, find_path, path_from_to, reachable, sum_length, sum_secs,
    MAX_HEURISTIC_MILLI,
};

verus! {

/// Most waypoints a request may carry: with at most this many legs plus one,
/// each leg's length and time sums staying below 4294971589967295, the route
/// totals stay within `u64`.
pub const MAX_WAYPOINTS: usize = 4000;

/// Static engine configuration, supplied at construction time.
#[derive(Clone, Copy, Debug, PartialEq, Eq, Structural)]
pub struct EngineConfig {
    /// How long a cached route stays valid, in nanoseconds.
    pub cache_ttl_nanos: u64,
    /// Most cached routes kept at once.
    pub cache_capacity: usize,
    /// The heuristic conversion factor handed to every search, in millicost
    /// per meter; zero always keeps the estimate admissible.
    pub heuristic_milli_per_meter: u64,
}

impl EngineConfig {
    /// The heuristic factor is within the accepted range.
    pub open spec fn valid(self) -> bool {
        self.heuristic_milli_per_meter <= MAX_HEURISTIC_MILLI
    }
}

/// One mixing step of the fingerprint.
pub open spec fn fp_mix(h: int, v: int) -> int {
    (h * 1000003 + v) % 2305843009213693951
}

/// The latitude key of a normalized coordinate: shifted above zero and
/// rounded to a ten-thousandth of a degree.
pub open spec fn lat_key(c: Coordinate) -> int {
    (c.lat_micro + 90000000) / 100
}

/// The longitude key of a normalized coordinate.
pub open spec fn lon_key(c: Coordinate) -> int {
    (c.lon_micro + 180000000) / 100
}

/// The code a vehicle class mixes into the fingerprint.
pub open spec fn vehicle_code(v: crate::route::VehicleClass) -> int {
    match v {
        crate::route::VehicleClass::Car => 0,
        crate::route::VehicleClass::Truck => 1,
        crate::route::VehicleClass::Bicycle => 2,
        crate::route::VehicleClass::Foot => 3,
    }
}

/// The fingerprint after mixing in the first `i` waypoints.
pub open spec fn fp_waypoints(h: int, ws: Seq<Coordinate>, i: int) -> int
    decreases i,
{
    if i <= 0 {
        h
    } else {
        fp_mix(fp_mix(fp_waypoints(h, ws, i - 1), lat_key(ws[i - 1])), lon_key(ws[i - 1]))
    }
}

/// The deterministic fingerprint of a normalized request: rounded origin and
/// destination, the waypoints in order, the vehicle class and both avoidance
/// flags.  Semantically identical requests collide by construction.
#[verifier::opaque]
pub open spec fn spec_fingerprint(r: RouteRequest) -> int {
    let h0 = fp_mix(fp_mix(0, lat_key(r.origin)), lon_key(r.origin));
    let h1 = fp_mix(fp_mix(h0, lat_key(r.destination)), lon_key(r.destination));
    let h2 = fp_waypoints(h1, r.waypoints@, r.waypoints@.len() as int);
    let h3 = fp_mix(h2, vehicle_code(r.vehicle));
    fp_mix(fp_mix(h3, if r.avoid_tolls { 1int } else { 0int }), if r.avoid_highways {
        1int
    } else {
        0int
    })
}

/// A request whose coordinates are all valid.
pub open spec fn request_valid(r: RouteRequest) -> bool {
    &&& r.origin.valid()
    &&& r.destination.valid()
    &&& forall|j: int| 0 <= j < r.waypoints@.len() ==> (#[trigger] r.waypoints@[j]).valid()
}

/// One fingerprint mixing step on machine words.
fn mix_step(h: u64, v: u64) -> (r: u64)
    requires
        v < 2305843009213693951,
    ensures
        r == fp_mix(h as int, v as int),
        r < 2305843009213693951,
{
    let wide: u128 = (h as u128) * 1000003 + (v as u128);
    (wide % 2305843009213693951u128) as u64
}

/// The latitude key on machine words.
fn lat_key_exec(c: &Coordinate) -> (r: u64)
    requires
        c.valid(),
    ensures
        r == lat_key(*c),
        r < 2305843009213693951,
{
    ((c.lat_micro + 90000000) as u64) / 100
}

/// The longitude key on machine words.
fn lon_key_exec(c: &Coordinate) -> (r: u64)
    requires
        c.valid(),
    ensures
        r == lon_key(*c),
        r < 2305843009213693951,
{
    ((c.lon_micro + 180000000) as u64) / 100
}

/// Computes the request's fingerprint.
pub fn fingerprint(r: &RouteRequest) -> (h: u64)
    requires
        request_valid(*r),
    ensures
        h == spec_fingerprint(*r),
{
    proof {
        reveal(spec_fingerprint);
    }
    let mut h = mix_step(0, lat_key_exec(&r.origin));
    h = mix_step(h, lon_key_exec(&r.origin));
    h = mix_step(h, lat_key_exec(&r.destination));
    h = mix_step(h, lon_key_exec(&r.destination));
    let mut i: usize = 0;
    while i < r.waypoints.len()
        invariant
            request_valid(*r),
            i <= r.waypoints@.len(),
            h == fp_waypoints(
                fp_mix(
                    fp_mix(
                        fp_mix(fp_mix(0, lat_key(r.origin)), lon_key(r.origin)),
                        lat_key(r.destination),
                    ),
                    lon_key(r.destination),
                ),
                r.waypoints@,
                i as int,
            ),
            h < 2305843009213693951,
        decreases r.waypoints@.len() - i,
    {
        let w = r.waypoints[i];
        h = mix_step(h, lat_key_exec(&w));
        h = mix_step(h, lon_key_exec(&w));
        i = i + 1;
    }
    let vc: u64 = match r.vehicle {
        crate::route::VehicleClass::Car => 0,
        crate::route::VehicleClass::Truck => 1,
        crate::route::VehicleClass::Bicycle => 2,
        crate::route::VehicleClass::Foot => 3,
    };
    h = mix_step(h, vc);
    h = mix_step(h, if r.avoid_tolls { 1 } else { 0 });
    h = mix_step(h, if r.avoid_highways { 1 } else { 0 });
    h
}

/// The search options a request implies under a configuration.
pub open spec fn opts_of(r: RouteRequest, cfg: EngineConfig) -> SearchOptions {
    SearchOptions {
        avoid_tolls: r.avoid_tolls,
        avoid_highways: r.avoid_highways,
        heuristic_milli_per_meter: cfg.heuristic_milli_per_meter,
    }
}

/// The stations of a request: origin, waypoints in order, destination.
pub open spec fn route_points(r: RouteRequest) -> Seq<Coordinate> {
    seq![r.origin] + r.waypoints@ + seq![r.destination]
}

/// The id of the loaded node nearest to `c`; among equally near ones, the one
/// loaded first.
pub open spec fn nearest_id(store: GraphStore, c: Coordinate) -> u64 {
    store.nodes@[choose|i: int| GraphStore::is_first_nearest(store.nodes@, c, i)].id
}

/// Every consecutive pair of stations, resolved to nearest nodes, is joined by
/// an allowed path.
#[verifier::opaque]
pub open spec fn legs_ok(store: GraphStore, r: RouteRequest, o: SearchOptions) -> bool {
    let pts = route_points(r);
    forall|k: int|
        0 <= k < pts.len() - 1 ==> reachable(
            store,
            nearest_id(store, #[trigger] pts[k]),
            nearest_id(store, pts[k + 1]),
            o,
        )
}

/// No leg moves: every consecutive pair of stations resolves to the same
/// nearest node, so the route has no segments.
pub open spec fn all_legs_degenerate(store: GraphStore, r: RouteRequest) -> bool {
    let pts = route_points(r);
    forall|k: int|
        0 <= k < pts.len() - 1 ==> nearest_id(store, #[trigger] pts[k]) == nearest_id(
            store,
            pts[k + 1],
        )
}

/// A chain of pairwise-equal neighbors makes every element equal to the first.
proof fn lemma_chain_eq(nids: Seq<u64>, k: int)
    requires
        0 <= k < nids.len(),
        forall|k2: int| 0 <= k2 < k ==> #[trigger] nids[k2] == nids[k2 + 1],
    ensures
        nids[k] == nids[0],
    decreases k,
{
    if k > 0 {
        lemma_chain_eq(nids, k - 1);
    }
}

/// Appending one leg's segments keeps every segment a real allowed edge,
/// keeps the whole sequence chained, and moves the chain's endpoint from the
/// leg's start node to its goal node.
#[verifier::rlimit(100)]
proof fn lemma_append_segments(
    store: GraphStore,
    o: SearchOptions,
    segs0: Seq<RouteSegment>,
    legsegs: Seq<RouteSegment>,
    path: Seq<u64>,
    idxs: Seq<usize>,
    a: u64,
    b: u64,
)
    requires
        store.wf(),
        path_from_to(store, path, a, b, o),
        crate::search::edges_match_path(store, path, idxs, o),
        a == b ==> path.len() == 1,
        legsegs.len() == idxs.len(),
        forall|j: int|
            0 <= j < legsegs.len() ==> {
                let e = store.edges@[idxs[j] as int];
                &&& (#[trigger] legsegs[j]).distance_mm == e.length_mm
                &&& legsegs[j].duration_secs == e.travel_secs
                &&& legsegs[j].start == store.nodes@[first_idx_spec(store, e.from_node)].coord
                &&& legsegs[j].end == store.nodes@[first_idx_spec(store, e.to_node)].coord
            },
        forall|j: int|
            0 <= j < segs0.len() ==> seg_is_allowed_edge(store, o, #[trigger] segs0[j]),
        segs_chained(segs0),
        segs0.len() > 0 ==> segs0[segs0.len() - 1].end == store.nodes@[first_idx_spec(
            store,
            a,
        )].coord,
    ensures
        forall|j: int|
            0 <= j < (segs0 + legsegs).len() ==> seg_is_allowed_edge(
                store,
                o,
                #[trigger] (segs0 + legsegs)[j],
            ),
        segs_chained(segs0 + legsegs),
        (segs0 + legsegs).len() == 0 <==> (segs0.len() == 0 && a == b),
        (segs0 + legsegs).len() > 0 && segs0.len() == 0 ==> (segs0 + legsegs)[0].start
            == store.nodes@[first_idx_spec(store, a)].coord,
        (segs0 + legsegs).len() > 0 && segs0.len() > 0 ==> (segs0 + legsegs)[0] == segs0[0],
        (segs0 + legsegs).len() > 0 ==> (segs0 + legsegs)[(segs0 + legsegs).len() - 1].end
            == store.nodes@[first_idx_spec(store, b)].coord,
{
    reveal(seg_is_allowed_edge);
    reveal(segs_chained);
    let combined = segs0 + legsegs;
    assert forall|j: int|
        0 <= j < legsegs.len() implies seg_is_allowed_edge(store, o, #[trigger] legsegs[j]) by {
        let ek = idxs[j] as int;
        assert(store.edges@[ek].from_node == path[j]);
        assert(crate::search::edge_allowed(store.edges@[ek], o));
    }
    assert forall|j: int|
        0 <= j < combined.len() implies seg_is_allowed_edge(store, o, #[trigger] combined[j]) by {
        if j < segs0.len() {
            assert(combined[j] == segs0[j]);
        } else {
            assert(combined[j] == legsegs[j - segs0.len()]);
        }
    }
    assert forall|j: int|
        0 <= j < combined.len() - 1 implies (#[trigger] combined[j]).end
            == combined[j + 1].start by {
        if j + 1 < segs0.len() {
            assert(combined[j] == segs0[j] && combined[j + 1] == segs0[j + 1]);
        } else if j < segs0.len() {
            assert(combined[j] == segs0[j] && combined[j + 1] == legsegs[0]);
            assert(store.edges@[idxs[0] as int].from_node == path[0]);
            assert(path[0] == a);
        } else {
            let t = j - segs0.len();
            assert(combined[j] == legsegs[t] && combined[j + 1] == legsegs[t + 1]);
            assert(store.edges@[idxs[t] as int].to_node == path[t + 1]);
            assert(store.edges@[idxs[t + 1] as int].from_node == path[t + 1]);
        }
    }
    if idxs.len() == 0 {
        assert(path.len() == 1);
        assert(path[0] == a && path[path.len() - 1] == b);
    }
    if combined.len() > 0 {
        if legsegs.len() > 0 {
            let t = legsegs.len() - 1;
            assert(combined[combined.len() - 1] == legsegs[t]);
            assert(store.edges@[idxs[t] as int].to_node == path[t + 1]);
            assert(path[t + 1] == path[path.len() - 1]);
        } else {
            assert(a == b);
            assert(combined[combined.len() - 1] == segs0[segs0.len() - 1]);
        }
    }
}

/// Two positions that both hold the first nearest node are the same position.
proof fn lemma_first_nearest_unique(nodes: Seq<Node>, c: Coordinate, a: int, b: int)
    requires
        GraphStore::is_first_nearest(nodes, c, a),
        GraphStore::is_first_nearest(nodes, c, b),
    ensures
        a == b,
{
    if a < b {
        assert(crate::geo::spec_distance_mm(nodes[a].coord, c) > crate::geo::spec_distance_mm(
            nodes[b].coord,
            c,
        ));
        assert(crate::geo::spec_distance_mm(nodes[a].coord, c) >= crate::geo::spec_distance_mm(
            nodes[b].coord,
            c,
        ));
        assert(crate::geo::spec_distance_mm(nodes[b].coord, c) >= crate::geo::spec_distance_mm(
            nodes[a].coord,
            c,
        ));
    }
    if b < a {
        assert(crate::geo::spec_distance_mm(nodes[b].coord, c) > crate::geo::spec_distance_mm(
            nodes[a].coord,
            c,
        ));
        assert(crate::geo::spec_distance_mm(nodes[a].coord, c) >= crate::geo::spec_distance_mm(
            nodes[b].coord,
            c,
        ));
        assert(crate::geo::spec_distance_mm(nodes[b].coord, c) >= crate::geo::spec_distance_mm(
            nodes[a].coord,
            c,
        ));
    }
}

/// Sum of the segments' lengths, in millimeters.
pub open spec fn seg_dist_sum(segs: Seq<RouteSegment>) -> int
    decreases segs.len(),
{
    if segs.len() == 0 {
        0
    } else {
        seg_dist_sum(segs.drop_last()) + segs.last().distance_mm
    }
}

/// Sum of the segments' travel times, in seconds.
pub open spec fn seg_secs_sum(segs: Seq<RouteSegment>) -> int
    decreases segs.len(),
{
    if segs.len() == 0 {
        0
    } else {
        seg_secs_sum(segs.drop_last()) + segs.last().duration_secs
    }
}

/// Segments with equal abstract values have equal sums.
proof fn lemma_seg_sum_eq(a: Seq<RouteSegment>, b: Seq<RouteSegment>)
    requires
        a.len() == b.len(),
        forall|j: int|
            0 <= j < a.len() ==> crate::route::segment_view(#[trigger] a[j])
                == crate::route::segment_view(b[j]),
    ensures
        seg_dist_sum(a) == seg_dist_sum(b),
        seg_secs_sum(a) == seg_secs_sum(b),
    decreases a.len(),
{
    if a.len() > 0 {
        lemma_seg_sum_eq(a.drop_last(), b.drop_last());
        assert(crate::route::segment_view(a.last()) == crate::route::segment_view(b.last()));
    }
}

/// Segments built over used edges carry exactly the edges' lengths and times.
proof fn lemma_seg_sums_match(store: GraphStore, segs: Seq<RouteSegment>, idxs: Seq<usize>)
    requires
        segs.len() == idxs.len(),
        forall|j: int|
            0 <= j < segs.len() ==> (#[trigger] segs[j]).distance_mm == store.edges@[idxs[j] as int].length_mm
                && segs[j].duration_secs == store.edges@[idxs[j] as int].travel_secs,
    ensures
        seg_dist_sum(segs) == sum_length(store.edges@, idxs),
        seg_secs_sum(segs) == sum_secs(store.edges@, idxs),
    decreases segs.len(),
{
    if segs.len() > 0 {
        lemma_seg_sums_match(store, segs.drop_last(), idxs.drop_last());
    }
}

/// Segment sums add over concatenation.
proof fn lemma_seg_sum_concat(a: Seq<RouteSegment>, b: Seq<RouteSegment>)
    ensures
        seg_dist_sum(a + b) == seg_dist_sum(a) + seg_dist_sum(b),
        seg_secs_sum(a + b) == seg_secs_sum(a) + seg_secs_sum(b),
    decreases b.len(),
{
    if b.len() == 0 {
        assert(a + b =~= a);
    } else {
        lemma_seg_sum_concat(a, b.drop_last());
        assert((a + b).drop_last() =~= a + b.drop_last());
        assert((a + b).last() == b.last());
    }
}

/// The computed route's segments are tied to the graph: each one is an
/// allowed edge with its true length, time and endpoint coordinates; the
/// segments are chained end to start; a route is empty exactly when no leg
/// moves; and a non-empty route runs from the origin's nearest node to the
/// destination's nearest node.
#[verifier::opaque]
pub open spec fn route_content_ok(
    store: GraphStore,
    r: RouteRequest,
    o: SearchOptions,
    route: Route,
) -> bool {
    let pts = route_points(r);
    &&& forall|j: int|
        0 <= j < route.segments@.len() ==> seg_is_allowed_edge(
            store,
            o,
            #[trigger] route.segments@[j],
        )
    &&& segs_chained(route.segments@)
    &&& (route.segments@.len() == 0 <==> all_legs_degenerate(store, r))
    &&& (route.segments@.len() > 0 ==> route.segments@[0].start == store.nodes@[first_idx_spec(
        store,
        nearest_id(store, pts[0]),
    )].coord && route.segments@[route.segments@.len() - 1].end == store.nodes@[first_idx_spec(
        store,
        nearest_id(store, pts[pts.len() - 1]),
    )].coord)
}

/// Routes with equal segment values satisfy the same content facts.
#[verifier::rlimit(100)]
proof fn lemma_content_transfer(
    store: GraphStore,
    r: RouteRequest,
    o: SearchOptions,
    ra: Route,
    rb: Route,
)
    requires
        route_content_ok(store, r, o, rb),
        ra.segments@.len() == rb.segments@.len(),
        forall|j: int|
            0 <= j < ra.segments@.len() ==> crate::route::segment_view(#[trigger] ra.segments@[j])
                == crate::route::segment_view(rb.segments@[j]),
    ensures
        route_content_ok(store, r, o, ra),
{
    reveal(route_content_ok);
    reveal(seg_is_allowed_edge);
    reveal(segs_chained);
    assert forall|j: int|
        0 <= j < ra.segments@.len() implies seg_is_allowed_edge(
        store,
        o,
        #[trigger] ra.segments@[j],
    ) by {
        assert(seg_is_allowed_edge(store, o, rb.segments@[j]));
        let k = choose|k: int|
            0 <= k < store.edges@.len() && crate::search::edge_allowed(
                #[trigger] store.edges@[k],
                o,
            ) && rb.segments@[j].distance_mm == store.edges@[k].length_mm
                && rb.segments@[j].duration_secs == store.edges@[k].travel_secs
                && rb.segments@[j].start == store.nodes@[first_idx_spec(
                store,
                store.edges@[k].from_node,
            )].coord && rb.segments@[j].end == store.nodes@[first_idx_spec(
                store,
                store.edges@[k].to_node,
            )].coord;
        assert(ra.segments@[j].start == rb.segments@[j].start);
        assert(ra.segments@[j].end == rb.segments@[j].end);
        assert(ra.segments@[j].distance_mm == rb.segments@[j].distance_mm);
        assert(ra.segments@[j].duration_secs == rb.segments@[j].duration_secs);
    }
    assert forall|j: int|
        0 <= j < ra.segments@.len() - 1 implies (#[trigger] ra.segments@[j]).end
            == ra.segments@[j + 1].start by {
        assert(rb.segments@[j].end == rb.segments@[j + 1].start);
        assert(ra.segments@[j].end == rb.segments@[j].end);
        assert(ra.segments@[j + 1].start == rb.segments@[j + 1].start);
    }
    if ra.segments@.len() > 0 {
        assert(ra.segments@[0].start == rb.segments@[0].start);
        assert(ra.segments@[ra.segments@.len() - 1].end == rb.segments@[rb.segments@.len()
            - 1].end);
    }
}

/// The whole engine state: the graph snapshot, the route cache, and the
/// configuration.
pub struct AppState {
    /// The road network being served.
    pub store: GraphStore,
    /// Memoized routes.
    pub cache: RouteCache,
    /// Static configuration.
    pub config: EngineConfig,
}

impl AppState {
    /// The graph is validated, the cache fingerprints are unique, and the
    /// configuration is within range.
    pub open spec fn wf(self) -> bool {
        &&& self.store.wf()
        &&& self.cache.wf()
        &&& self.config.valid()
        &&& self.cache.ttl == self.config.cache_ttl_nanos
        &&& self.cache.cap == self.config.cache_capacity
    }

    /// A fresh engine with an empty graph, an empty cache, a five-minute
    /// cache lifetime, room for 128 routes, and the always-admissible zero
    /// heuristic factor.
    pub fn new() -> (r: AppState)
        ensures
            r.wf(),
            r.store.nodes@.len() == 0,
            r.store.edges@.len() == 0,
            r.cache.slots@.len() == 0,
    {
        let config = EngineConfig {
            cache_ttl_nanos: 300_000_000_000,
            cache_capacity: 128,
            heuristic_milli_per_meter: 0,
        };
        AppState {
            store: GraphStore::new(),
            cache: RouteCache::new(config.cache_ttl_nanos, config.cache_capacity),
            config,
        }
    }

    /// An engine with the given configuration.
    pub fn with_config(config: EngineConfig) -> (r: AppState)
        requires
            config.valid(),
        ensures
            r.wf(),
            r.config == config,
            r.store.nodes@.len() == 0,
            r.cache.slots@.len() == 0,
    {
        AppState {
            store: GraphStore::new(),
            cache: RouteCache::new(config.cache_ttl_nanos, config.cache_capacity),
            config,
        }
    }

    /// Loads a new road network.  On success the old graph and every cached
    /// route are dropped together, so cached routes always match the graph
    /// being served; on failure both stay as they were.
    pub fn load_graph(&mut self, nodes: Vec<Node>, edges: Vec<Edge>) -> (r: Result<
        (),
        MapsError,
    >)
        requires
            old(self).wf(),
            nodes@.len() <= MAX_NODES,
            edges@.len() <= MAX_EDGES,
        ensures
            final(self).wf(),
            final(self).config == old(self).config,
            r is Ok <==> crate::graph::load_error(nodes@, edges@) is None,
            r matches Err(e) ==> crate::graph::load_error(nodes@, edges@) == Some(e),
            r is Ok ==> final(self).store.nodes@ == nodes@ && final(self).store.edges@ == edges@
                && final(self).cache.slots@.len() == 0,
            r is Err ==> final(self).store == old(self).store && final(self).cache
                == old(self).cache,
    {
        let result = self.store.load_graph(nodes, edges);
        if result.is_ok() {
            self.cache = RouteCache::new(self.config.cache_ttl_nanos, self.config.cache_capacity);
        }
        result
    }

    /// Cache hits so far.
    pub fn cache_hits(&self) -> (r: u64)
        ensures
            r == self.cache.hits,
    {
        self.cache.hit_count()
    }

    /// Cache misses so far.
    pub fn cache_misses(&self) -> (r: u64)
        ensures
            r == self.cache.misses,
    {
        self.cache.miss_count()
    }

    /// Cache evictions so far.
    pub fn cache_evictions(&self) -> (r: u64)
        ensures
            r == self.cache.evictions,
    {
        self.cache.eviction_count()
    }

    /// Computes (or recalls) the route answering a request at time `now`.
    ///
    /// The request's fingerprint is looked up first: a fresh cached route is
    /// returned as it was stored; a computation already under way yields
    /// `CacheComputeFailed` to this caller rather than a duplicated
    /// computation — the caller should retry once that computation settles,
    /// and receives its cached route if it succeeded.  Otherwise the stations
    /// are resolved to their nearest
    /// loaded nodes and one search runs per consecutive pair: the result is a
    /// route exactly when every leg is reachable under the request's
    /// avoidance options, `EmptyGraph` when no nodes are loaded, and
    /// `NotFound` when some leg is not.  A computed route echoes the request,
    /// is stamped with `now`, and its totals are exactly the sums over its
    /// segments.
    #[verifier::rlimit(100)]
    pub fn compute_route(&mut self, request: RouteRequest, now: u64) -> (r: Result<
        Route,
        MapsError,
    >)
        requires
            old(self).wf(),
            request_valid(request),
            request.waypoints@.len() <= MAX_WAYPOINTS,
        ensures
            final(self).wf(),
            final(self).store == old(self).store,
            final(self).config == old(self).config,
            ({
                let fp = spec_fingerprint(request) as u64;
                let kind = spec_begin_kind(old(self).cache.slots@, fp, now);
                let o = opts_of(request, old(self).config);
                &&& (kind == BeginKind::Busy ==> r == Err::<Route, MapsError>(
                    MapsError::CacheComputeFailed,
                ))
                &&& (kind == BeginKind::Found ==> r is Ok && (old(self).cache.slots@[slot_index(
                    old(self).cache.slots@,
                    fp,
                )].state matches CacheState::Ready { route, expires_at } && route_view(r->Ok_0)
                    == route_view(route)))
                &&& (kind == BeginKind::Compute ==> {
                    &&& (old(self).store.nodes@.len() == 0 ==> r == Err::<Route, MapsError>(
                        MapsError::EmptyGraph,
                    ))
                    &&& (old(self).store.nodes@.len() > 0 ==> {
                        &&& (r is Ok <==> legs_ok(old(self).store, request, o))
                        &&& (r is Err ==> r == Err::<Route, MapsError>(MapsError::NotFound))
                        &&& (r matches Ok(route) ==> request_view(route.request) == request_view(
                            request,
                        ) && route.created_at == now && route.total_distance_mm == seg_dist_sum(
                            route.segments@,
                        ) && route.total_duration_secs == seg_secs_sum(route.segments@))
                        &&& (r matches Ok(route) ==> route_content_ok(
                            old(self).store,
                            request,
                            o,
                            route,
                        ))
                    })
                })
                &&& ({
                    let after_begin = spec_begin_slots(
                        old(self).cache.slots@,
                        fp,
                        now,
                        old(self).cache.tick,
                        old(self).cache.cap,
                    );
                    &&& (kind == BeginKind::Busy || kind == BeginKind::Found
                        ==> final(self).cache.slots@ == after_begin)
                    &&& (kind == BeginKind::Compute && r is Ok ==> exists|rt: Route|
                        route_view(rt) == route_view(r->Ok_0) && final(self).cache.slots@
                            == spec_complete_slots(
                            after_begin,
                            fp,
                            rt,
                            now,
                            old(self).cache.ttl,
                            sat_inc(old(self).cache.tick),
                        ))
                    &&& (kind == BeginKind::Compute && r is Err ==> final(self).cache.slots@
                        == spec_fail_slots(after_begin, fp))
                })
                &&& final(self).cache.hits == if kind == BeginKind::Found {
                    sat_add_one(old(self).cache.hits)
                } else {
                    old(self).cache.hits as int
                }
                &&& final(self).cache.misses == if kind == BeginKind::Compute {
                    sat_add_one(old(self).cache.misses)
                } else {
                    old(self).cache.misses as int
                }
                &&& final(self).cache.evictions == if !crate::cache::has_slot(
                    old(self).cache.slots@,
                    fp,
                ) && old(self).cache.slots@.len() >= old(self).cache.cap && crate::cache::has_ready(
                    old(self).cache.slots@,
                ) {
                    sat_add_one(old(self).cache.evictions)
                } else {
                    old(self).cache.evictions as int
                }
            }),
    {
        let ghost slots0 = self.cache.slots@;
        let fp = fingerprint(&request);
        match self.cache.begin(fp, now) {
            BeginOutcome::Hit(route) => Ok(route),
            BeginOutcome::Wait => Err(MapsError::CacheComputeFailed),
            BeginOutcome::MustCompute => {
                match self.compute_fresh(&request, now) {
                    Ok(route) => {
                        let copy = crate::route::clone_route(&route);
                        let ghost rt = route;
                        proof {
                            lemma_seg_sum_eq(copy.segments@, route.segments@);
                            lemma_content_transfer(
                                self.store,
                                request,
                                opts_of(request, self.config),
                                copy,
                                route,
                            );
                        }
                        self.cache.complete(fp, route, now);
                        proof {
                            assert(route_view(rt) == route_view(copy) && self.cache.slots@
                                == spec_complete_slots(
                                spec_begin_slots(
                                    slots0,
                                    fp,
                                    now,
                                    old(self).cache.tick,
                                    old(self).cache.cap,
                                ),
                                fp,
                                rt,
                                now,
                                old(self).cache.ttl,
                                sat_inc(old(self).cache.tick),
                            ));
                        }
                        Ok(copy)
                    },
                    Err(e) => {
                        self.cache.fail(fp);
                        Err(e)
                    },
                }
            },
        }
    }

    /// Runs the searches for a request, leg by leg, and assembles the route.
    #[verifier::rlimit(100)]
    fn compute_fresh(&self, request: &RouteRequest, now: u64) -> (r: Result<Route, MapsError>)
        requires
            self.wf(),
            request_valid(*request),
            request.waypoints@.len() <= MAX_WAYPOINTS,
        ensures
            self.store.nodes@.len() == 0 ==> r == Err::<Route, MapsError>(MapsError::EmptyGraph),
            self.store.nodes@.len() > 0 ==> {
                &&& (r is Ok <==> legs_ok(self.store, *request, opts_of(*request, self.config)))
                &&& (r is Err ==> r == Err::<Route, MapsError>(MapsError::NotFound))
                &&& (r matches Ok(route) ==> request_view(route.request) == request_view(*request)
                    && route.created_at == now && route.total_distance_mm == seg_dist_sum(
                    route.segments@,
                ) && route.total_duration_secs == seg_secs_sum(route.segments@))
                &&& (r matches Ok(route) ==> route_content_ok(
                    self.store,
                    *request,
                    opts_of(*request, self.config),
                    route,
                ))
            },
    {
        let ghost o = opts_of(*request, self.config);
        let opts = SearchOptions {
            avoid_tolls: request.avoid_tolls,
            avoid_highways: request.avoid_highways,
            heuristic_milli_per_meter: self.config.heuristic_milli_per_meter,
        };
        if self.store.nodes.len() == 0 {
            return Err(MapsError::EmptyGraph);
        }
        let mut pts: Vec<Coordinate> = Vec::new();
        pts.push(request.origin);
        let mut wi: usize = 0;
        while wi < request.waypoints.len()
            invariant
                request_valid(*request),
                wi <= request.waypoints@.len(),
                pts@ =~= seq![request.origin] + request.waypoints@.take(wi as int),
            decreases request.waypoints@.len() - wi,
        {
            pts.push(request.waypoints[wi]);
            proof {
                assert(pts@ =~= seq![request.origin] + request.waypoints@.take(wi + 1));
            }
            wi = wi + 1;
        }
        pts.push(request.destination);
        proof {
            assert(request.waypoints@.take(request.waypoints@.len() as int)
                =~= request.waypoints@);
            assert(pts@ =~= route_points(*request));
        }
        let ghost points = route_points(*request);
        let mut nids: Vec<u64> = Vec::new();
        let mut pi: usize = 0;
        while pi < pts.len()
            invariant
                self.wf(),
                request_valid(*request),
                pts@ == points,
                points == route_points(*request),
                forall|j: int| 0 <= j < points.len() ==> (#[trigger] points[j]).valid(),
                self.store.nodes@.len() > 0,
                pi <= pts@.len(),
                nids@.len() == pi,
                forall|j: int|
                    0 <= j < pi ==> #[trigger] nids@[j] == nearest_id(self.store, points[j]),
            decreases pts@.len() - pi,
        {
            let c = pts[pi];
            match self.store.nearest_node(&c) {
                Ok(id) => {
                    proof {
                        let w = choose|i: int|
                            GraphStore::is_first_nearest(self.store.nodes@, c, i)
                                && self.store.nodes@[i].id == id;
                        let t = choose|i: int|
                            GraphStore::is_first_nearest(self.store.nodes@, c, i);
                        lemma_first_nearest_unique(self.store.nodes@, c, w, t);
                    }
                    nids.push(id);
                },
                Err(_) => {
                    proof {
                        assert(false);
                    }
                    return Err(MapsError::EmptyGraph);
                },
            }
            pi = pi + 1;
        }
        let mut segments: Vec<RouteSegment> = Vec::new();
        proof {
            reveal(segs_chained);
            assert(segs_chained(segments@));
        }
        let mut total_dist: u64 = 0;
        let mut total_secs: u64 = 0;
        let mut leg: usize = 0;
        let nlegs = pts.len() - 1;
        while leg < nlegs
            invariant
                self.wf(),
                self.store.nodes@.len() > 0,
                request_valid(*request),
                o == opts_of(*request, self.config),
                opts == o,
                opts.valid(),
                points == route_points(*request),
                nlegs + 1 == points.len(),
                nids@.len() == points.len(),
                forall|j: int|
                    0 <= j < nids@.len() ==> #[trigger] nids@[j] == nearest_id(
                        self.store,
                        points[j],
                    ),
                leg <= nlegs,
                forall|k: int|
                    0 <= k < leg ==> reachable(
                        self.store,
                        nearest_id(self.store, #[trigger] points[k]),
                        nearest_id(self.store, points[k + 1]),
                        o,
                    ),
                total_dist == seg_dist_sum(segments@),
                total_secs == seg_secs_sum(segments@),
                total_dist <= leg * 4294971589967295,
                total_secs <= leg * 4294971589967295,
                nlegs <= 4001,
                forall|j: int|
                    0 <= j < segments@.len() ==> seg_is_allowed_edge(
                        self.store,
                        o,
                        #[trigger] segments@[j],
                    ),
                segs_chained(segments@),
                (segments@.len() == 0 <==> (forall|k: int|
                    0 <= k < leg ==> #[trigger] nids@[k] == nids@[k + 1])),
                segments@.len() > 0 ==> segments@[0].start == self.store.nodes@[first_idx_spec(
                    self.store,
                    nids@[0],
                )].coord,
                segments@.len() > 0 ==> segments@[segments@.len() - 1].end
                    == self.store.nodes@[first_idx_spec(self.store, nids@[leg as int])].coord,
            decreases nlegs - leg,
        {
            let a = nids[leg];
            let b = nids[leg + 1];
            match find_path(&self.store, a, b, &opts) {
                Ok(sr) => {
                    let mut legsegs = build_segments(&self.store, &sr, &opts);
                    let ghost legsegs0 = legsegs@;
                    let ghost segs0 = segments@;
                    proof {
                        lemma_seg_sums_match(self.store, legsegs0, sr.edge_indices@);
                        lemma_seg_sum_concat(segs0, legsegs0);
                        lemma_append_segments(
                            self.store,
                            o,
                            segs0,
                            legsegs0,
                            sr.path@,
                            sr.edge_indices@,
                            nids@[leg as int],
                            nids@[leg as int + 1],
                        );
                        if segs0.len() == 0 && (segs0 + legsegs0).len() > 0 {
                            lemma_chain_eq(nids@, leg as int);
                        }
                    }
                    segments.append(&mut legsegs);
                    total_dist = total_dist + sr.distance_mm;
                    total_secs = total_secs + sr.duration_secs;
                },
                Err(_) => {
                    proof {
                        reveal(legs_ok);
                        assert(!reachable(
                            self.store,
                            nearest_id(self.store, points[leg as int]),
                            nearest_id(self.store, points[leg as int + 1]),
                            o,
                        ));
                        assert(!legs_ok(self.store, *request, o));
                    }
                    return Err(MapsError::NotFound);
                },
            }
            leg = leg + 1;
        }
        proof {
            reveal(legs_ok);
            reveal(route_content_ok);
            assert(legs_ok(self.store, *request, o));
            assert forall|k: int|
                0 <= k < points.len() - 1 && segments@.len() == 0 implies nearest_id(
                self.store,
                #[trigger] points[k],
            ) == nearest_id(self.store, points[k + 1]) by {
                assert(nids@[k] == nids@[k + 1]);
            }
            if segments@.len() > 0 {
                assert(!(forall|k: int| 0 <= k < nlegs ==> #[trigger] nids@[k] == nids@[k + 1]));
                let k = choose|k: int| 0 <= k < nlegs && #[trigger] nids@[k] != nids@[k + 1];
                assert(nearest_id(self.store, points[k]) != nearest_id(self.store, points[k + 1]));
            }
        }
        Ok(
            Route {
                request: clone_request(request),
                segments,
                total_distance_mm: total_dist,
                total_duration_secs: total_secs,
                created_at: now,
            },
        )
    }
}

} // verus!
