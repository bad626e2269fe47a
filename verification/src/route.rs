//! The public route types: what a caller asks for and what it receives.

use vstd::prelude::*;
use vstd::string::StringExecFns;

use crate::geo::Coordinate;
use crate::instructions::{ManeuverType, RouteSegment};

verus! {

/// The class of vehicle a route is planned for.
#[derive(Clone, Copy, Debug, PartialEq, Eq, Structural)]
pub enum VehicleClass {
    Car,
    Truck,
    Bicycle,
    Foot,
}

/// A routing request: where from, where to, through which waypoints, and what
/// to avoid.
pub struct RouteRequest {
    /// Where the route starts.
    pub origin: Coordinate,
    /// Where the route ends.
    pub destination: Coordinate,
    /// Ordered intermediate points the route must visit.
    pub waypoints: Vec<Coordinate>,
    /// The vehicle the route is planned for.
    pub vehicle: VehicleClass,
    /// Whether tolled edges must be avoided.
    pub avoid_tolls: bool,
    /// Whether highway edges must be avoided.
    pub avoid_highways: bool,
}

/// The abstract value of a request: all its fields, waypoints as a sequence.
pub open spec fn request_view(r: RouteRequest) -> (
    Coordinate,
    Coordinate,
    Seq<Coordinate>,
    VehicleClass,
    bool,
    bool,
) {
    (r.origin, r.destination, r.waypoints@, r.vehicle, r.avoid_tolls, r.avoid_highways)
}

/// The abstract value of one segment: all its fields, the text as characters.
pub open spec fn segment_view(s: RouteSegment) -> (
    Coordinate,
    Coordinate,
    u64,
    u64,
    ManeuverType,
    Seq<char>,
) {
    (s.start, s.end, s.distance_mm, s.duration_secs, s.maneuver, s.instruction@)
}

/// A finished route: the request it answers, its legs, and its totals.
pub struct Route {
    /// The request this route answers.
    pub request: RouteRequest,
    /// The legs of the route, in travel order.
    pub segments: Vec<RouteSegment>,
    /// Sum of the legs' lengths, in millimeters.
    pub total_distance_mm: u64,
    /// Sum of the legs' travel times, in seconds.
    pub total_duration_secs: u64,
    /// When the route was computed, in nanoseconds since the Unix epoch.
    pub created_at: u64,
}

/// The abstract value of a route: request, segments and totals.
#[verifier::opaque]
pub open spec fn route_view(r: Route) -> (
    (Coordinate, Coordinate, Seq<Coordinate>, VehicleClass, bool, bool),
    Seq<(Coordinate, Coordinate, u64, u64, ManeuverType, Seq<char>)>,
    u64,
    u64,
    u64,
) {
    (
        request_view(r.request),
        r.segments@.map_values(|s: RouteSegment| segment_view(s)),
        r.total_distance_mm,
        r.total_duration_secs,
        r.created_at,
    )
}

/// Copies a coordinate vector.
pub fn clone_coords(v: &Vec<Coordinate>) -> (r: Vec<Coordinate>)
    ensures
        r@ == v@,
{
    let mut r: Vec<Coordinate> = Vec::new();
    let mut i: usize = 0;
    while i < v.len()
        invariant
            i <= v@.len(),
            r@ == v@.take(i as int),
        decreases v@.len() - i,
    {
        r.push(v[i]);
        proof {
            assert(r@ =~= v@.take(i + 1));
        }
        i = i + 1;
    }
    proof {
        assert(v@.take(v@.len() as int) =~= v@);
    }
    r
}

/// Copies a request, preserving its abstract value.
pub fn clone_request(r: &RouteRequest) -> (c: RouteRequest)
    ensures
        request_view(c) == request_view(*r),
{
    RouteRequest {
        origin: r.origin,
        destination: r.destination,
        waypoints: clone_coords(&r.waypoints),
        vehicle: r.vehicle,
        avoid_tolls: r.avoid_tolls,
        avoid_highways: r.avoid_highways,
    }
}

/// Copies one segment, preserving its abstract value.
pub fn clone_segment(s: &RouteSegment) -> (c: RouteSegment)
    ensures
        segment_view(c) == segment_view(*s),
{
    RouteSegment {
        start: s.start,
        end: s.end,
        distance_mm: s.distance_mm,
        duration_secs: s.duration_secs,
        maneuver: s.maneuver,
        instruction: String::from_str(s.instruction.as_str()),
    }
}

/// Copies a route, preserving its abstract value.
pub fn clone_route(r: &Route) -> (c: Route)
    ensures
        route_view(c) == route_view(*r),
        request_view(c.request) == request_view(r.request),
        c.total_distance_mm == r.total_distance_mm,
        c.total_duration_secs == r.total_duration_secs,
        c.created_at == r.created_at,
        c.segments@.len() == r.segments@.len(),
        forall|j: int|
            0 <= j < c.segments@.len() ==> segment_view(#[trigger] c.segments@[j])
                == segment_view(r.segments@[j]),
{
    let mut segs: Vec<RouteSegment> = Vec::new();
    let mut i: usize = 0;
    while i < r.segments.len()
        invariant
            i <= r.segments@.len(),
            segs@.len() == i,
            forall|j: int|
                0 <= j < i ==> segment_view(#[trigger] segs@[j]) == segment_view(
                    r.segments@[j],
                ),
        decreases r.segments@.len() - i,
    {
        let s = clone_segment(&r.segments[i]);
        segs.push(s);
        i = i + 1;
    }
    proof {
        reveal(route_view);
    }
    let c = Route {
        request: clone_request(&r.request),
        segments: segs,
        total_distance_mm: r.total_distance_mm,
        total_duration_secs: r.total_duration_secs,
        created_at: r.created_at,
    };
    proof {
        assert(c.segments@.map_values(|s: RouteSegment| segment_view(s)) =~= r.segments@
            .map_values(|s: RouteSegment| segment_view(s)));
    }
    c
}

} // verus!
