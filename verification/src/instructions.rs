//! Turn-by-turn maneuvers from a found path.
//!
//! Each used edge becomes one route segment; the maneuver at a segment's start
//! node is classified from the change of bearing between the incoming and the
//! outgoing edge.

use vstd::prelude::*;
use vstd::string::StringExecFns;

use crate::geo::{Coordinate, bearing, spec_bearing_mdeg};
use crate::graph::GraphStore;
use crate::search::{SearchResult, edges_match_path};

verus! {

/// The maneuver a segment starts with.
#[derive(Clone, Copy, Debug, PartialEq, Eq, Structural)]
pub enum ManeuverType {
    Start,
    Straight,
    TurnSlightLeft,
    TurnSlightRight,
    TurnLeft,
    TurnRight,
    TurnSharpLeft,
    TurnSharpRight,
    UTurn,
    Arrive,
}

/// One leg of the final route: an edge travelled, with its maneuver.
pub struct RouteSegment {
    /// Where the leg begins.
    pub start: Coordinate,
    /// Where the leg ends.
    pub end: Coordinate,
    /// Length of the leg in millimeters.
    pub distance_mm: u64,
    /// Time to travel the leg, in seconds.
    pub duration_secs: u64,
    /// The maneuver at the start of the leg.
    pub maneuver: ManeuverType,
    /// The spoken instruction for the maneuver.
    pub instruction: String,
}

/// Classification of a bend: bearings are millidegrees clockwise from north,
/// the signed change is folded into `(-180000, 180000]`, and the buckets are,
/// by absolute change: under 10 degrees straight ahead, under 45 a slight
/// turn, under 135 a turn, under 170 a sharp turn, beyond that a U-turn.
/// Positive change turns right, negative left.
pub open spec fn spec_classify_turn(b_in: int, b_out: int) -> ManeuverType {
    let raw = (b_out - b_in + 360000) % 360000;
    let delta = if raw > 180000 {
        raw - 360000
    } else {
        raw
    };
    let mag = if delta < 0 {
        -delta
    } else {
        delta
    };
    if mag < 10000 {
        ManeuverType::Straight
    } else if mag < 45000 {
        if delta > 0 {
            ManeuverType::TurnSlightRight
        } else {
            ManeuverType::TurnSlightLeft
        }
    } else if mag < 135000 {
        if delta > 0 {
            ManeuverType::TurnRight
        } else {
            ManeuverType::TurnLeft
        }
    } else if mag < 170000 {
        if delta > 0 {
            ManeuverType::TurnSharpRight
        } else {
            ManeuverType::TurnSharpLeft
        }
    } else {
        ManeuverType::UTurn
    }
}

/// Classifies the bend between an incoming and an outgoing bearing.
pub fn classify_turn(b_in: u64, b_out: u64) -> (m: ManeuverType)
    requires
        b_in < 360000,
        b_out < 360000,
    ensures
        m == spec_classify_turn(b_in as int, b_out as int),
{
    let raw = (b_out + 360000 - b_in) % 360000;
    proof {
        assert((b_out + 360000 - b_in) % 360000 == (b_out as int - b_in + 360000) % 360000);
    }
    let delta: i64 = if raw > 180000 {
        raw as i64 - 360000
    } else {
        raw as i64
    };
    let mag: i64 = if delta < 0 {
        -delta
    } else {
        delta
    };
    if mag < 10000 {
        ManeuverType::Straight
    } else if mag < 45000 {
        if delta > 0 {
            ManeuverType::TurnSlightRight
        } else {
            ManeuverType::TurnSlightLeft
        }
    } else if mag < 135000 {
        if delta > 0 {
            ManeuverType::TurnRight
        } else {
            ManeuverType::TurnLeft
        }
    } else if mag < 170000 {
        if delta > 0 {
            ManeuverType::TurnSharpRight
        } else {
            ManeuverType::TurnSharpLeft
        }
    } else {
        ManeuverType::UTurn
    }
}

/// The spoken phrase for each maneuver.
pub open spec fn spec_instruction_text(m: ManeuverType) -> Seq<char> {
    match m {
        ManeuverType::Start => "Head out"@,
        ManeuverType::Straight => "Continue straight"@,
        ManeuverType::TurnSlightLeft => "Turn slightly left"@,
        ManeuverType::TurnSlightRight => "Turn slightly right"@,
        ManeuverType::TurnLeft => "Turn left"@,
        ManeuverType::TurnRight => "Turn right"@,
        ManeuverType::TurnSharpLeft => "Turn sharply left"@,
        ManeuverType::TurnSharpRight => "Turn sharply right"@,
        ManeuverType::UTurn => "Make a U-turn"@,
        ManeuverType::Arrive => "Arrive at your destination"@,
    }
}

/// Renders the spoken phrase for a maneuver.
pub fn instruction_text(m: ManeuverType) -> (r: String)
    ensures
        r@ == spec_instruction_text(m),
{
    match m {
        ManeuverType::Start => String::from_str("Head out"),
        ManeuverType::Straight => String::from_str("Continue straight"),
        ManeuverType::TurnSlightLeft => String::from_str("Turn slightly left"),
        ManeuverType::TurnSlightRight => String::from_str("Turn slightly right"),
        ManeuverType::TurnLeft => String::from_str("Turn left"),
        ManeuverType::TurnRight => String::from_str("Turn right"),
        ManeuverType::TurnSharpLeft => String::from_str("Turn sharply left"),
        ManeuverType::TurnSharpRight => String::from_str("Turn sharply right"),
        ManeuverType::UTurn => String::from_str("Make a U-turn"),
        ManeuverType::Arrive => String::from_str("Arrive at your destination"),
    }
}

/// The maneuver of segment `j` among `len` segments built over the given used
/// edges: the first is the departure, the last the arrival, and every segment
/// between is classified by the bend at its start node.
pub open spec fn spec_segment_maneuver(store: GraphStore, idxs: Seq<usize>, j: int) -> ManeuverType {
    if j == 0 {
        ManeuverType::Start
    } else if j == idxs.len() - 1 {
        ManeuverType::Arrive
    } else {
        let prev = store.edges@[idxs[j - 1] as int];
        let cur = store.edges@[idxs[j] as int];
        let b_in = spec_bearing_mdeg(
            store.nodes@[first_idx_spec(store, prev.from_node)].coord,
            store.nodes@[first_idx_spec(store, prev.to_node)].coord,
        );
        let b_out = spec_bearing_mdeg(
            store.nodes@[first_idx_spec(store, cur.from_node)].coord,
            store.nodes@[first_idx_spec(store, cur.to_node)].coord,
        );
        spec_classify_turn(b_in, b_out)
    }
}

/// The first position of the node with the given id, as chosen by the store's
/// lookups; meaningful only for loaded ids.
pub open spec fn first_idx_spec(store: GraphStore, id: u64) -> int {
    choose|t: int| crate::search::is_first_idx(store.nodes@, id, t)
}

/// Builds the turn-by-turn segments for a found path.  One segment per used
/// edge, carrying the edge's endpoints, length and time; the first maneuver is
/// the departure, the last the arrival, and every inner one is classified from
/// the bearing change at the segment's start node.  An empty or single-node
/// path yields no segments; with a single edge the departure and the arrival
/// would coincide, and the departure wins.
pub fn build_segments(store: &GraphStore, result: &SearchResult, opts: &crate::search::SearchOptions) -> (segs: Vec<
    RouteSegment,
>)
    requires
        store.wf(),
        edges_match_path(*store, result.path@, result.edge_indices@, *opts),
    ensures
        segs@.len() == result.edge_indices@.len(),
        forall|j: int|
            0 <= j < segs@.len() ==> {
                let e = store.edges@[result.edge_indices@[j] as int];
                &&& (#[trigger] segs@[j]).distance_mm == e.length_mm
                &&& segs@[j].duration_secs == e.travel_secs
                &&& segs@[j].start == store.nodes@[first_idx_spec(*store, e.from_node)].coord
                &&& segs@[j].end == store.nodes@[first_idx_spec(*store, e.to_node)].coord
                &&& segs@[j].maneuver == spec_segment_maneuver(*store, result.edge_indices@, j)
                &&& segs@[j].instruction@ == spec_instruction_text(segs@[j].maneuver)
            },
{
    let ghost edges = store.edges@;
    let ghost idxs = result.edge_indices@;
    let n = result.edge_indices.len();
    let mut segs: Vec<RouteSegment> = Vec::new();
    let mut j: usize = 0;
    while j < n
        invariant
            store.wf(),
            edges_match_path(*store, result.path@, result.edge_indices@, *opts),
            edges == store.edges@,
            idxs == result.edge_indices@,
            n == idxs.len(),
            j <= n,
            segs@.len() == j,
            forall|t: int|
                0 <= t < j ==> {
                    let e = edges[idxs[t] as int];
                    &&& (#[trigger] segs@[t]).distance_mm == e.length_mm
                    &&& segs@[t].duration_secs == e.travel_secs
                    &&& segs@[t].start == store.nodes@[first_idx_spec(*store, e.from_node)].coord
                    &&& segs@[t].end == store.nodes@[first_idx_spec(*store, e.to_node)].coord
                    &&& segs@[t].maneuver == spec_segment_maneuver(*store, idxs, t)
                    &&& segs@[t].instruction@ == spec_instruction_text(segs@[t].maneuver)
                },
        decreases n - j,
    {
        let ei = result.edge_indices[j];
        let e = store.edges[ei];
        proof {
            assert(crate::graph::edge_check(store.nodes@, store.edges@[ei as int]) is None);
            assert(crate::graph::has_node(store.nodes@, e.from_node));
            assert(crate::graph::has_node(store.nodes@, e.to_node));
        }
        let start_c = node_coord(store, e.from_node);
        let end_c = node_coord(store, e.to_node);
        let maneuver: ManeuverType = if j == 0 {
            ManeuverType::Start
        } else if j == n - 1 {
            ManeuverType::Arrive
        } else {
            let pei = result.edge_indices[j - 1];
            let pe = store.edges[pei];
            let p_start = node_coord(store, pe.from_node);
            let p_end = node_coord(store, pe.to_node);
            let b_in = bearing(&p_start, &p_end);
            let b_out = bearing(&start_c, &end_c);
            classify_turn(b_in, b_out)
        };
        let text = instruction_text(maneuver);
        proof {
            assert(maneuver == spec_segment_maneuver(*store, idxs, j as int));
        }
        segs.push(
            RouteSegment {
                start: start_c,
                end: end_c,
                distance_mm: e.length_mm,
                duration_secs: e.travel_secs,
                maneuver,
                instruction: text,
            },
        );
        j = j + 1;
    }
    segs
}

/// The segment describes one allowed edge of the store: its length, time and
/// endpoint coordinates are exactly that edge's.
#[verifier::opaque]
pub open spec fn seg_is_allowed_edge(
    store: GraphStore,
    o: crate::search::SearchOptions,
    seg: RouteSegment,
) -> bool {
    exists|k: int|
        0 <= k < store.edges@.len() && crate::search::edge_allowed(
            #[trigger] store.edges@[k],
            o,
        ) && seg.distance_mm == store.edges@[k].length_mm && seg.duration_secs
            == store.edges@[k].travel_secs && seg.start == store.nodes@[first_idx_spec(
            store,
            store.edges@[k].from_node,
        )].coord && seg.end == store.nodes@[first_idx_spec(store, store.edges@[k].to_node)].coord
}

/// Consecutive segments meet: each leg starts where the previous one ended.
#[verifier::opaque]
pub open spec fn segs_chained(segs: Seq<RouteSegment>) -> bool {
    forall|j: int| 0 <= j < segs.len() - 1 ==> (#[trigger] segs[j]).end == segs[j + 1].start
}

/// Coordinate of the first loaded node with the given id; the origin of the
/// coordinate system if the id is not loaded.
pub fn node_coord(store: &GraphStore, id: u64) -> (c: Coordinate)
    requires
        store.wf(),
    ensures
        crate::graph::has_node(store.nodes@, id) ==> c == store.nodes@[first_idx_spec(
            *store,
            id,
        )].coord && c.valid(),
        !crate::graph::has_node(store.nodes@, id) ==> c == (Coordinate {
            lat_micro: 0,
            lon_micro: 0,
        }),
{
    match store.node_index(id) {
        Some(i) => {
            proof {
                assert(crate::search::is_first_idx(store.nodes@, id, i as int));
                let t = first_idx_spec(*store, id);
                assert(crate::search::is_first_idx(store.nodes@, id, t));
            }
            store.nodes[i].coord
        },
        None => Coordinate { lat_micro: 0, lon_micro: 0 },
    }
}

} // verus!
