//! The in-memory road network: nodes, directed edges, and the store that owns
//! both tables.
//!
//! Nodes and edges reference each other by integer id only.  The store is
//! loaded in bulk and read-only afterwards; a load validates every node and
//! edge and either replaces the whole store or leaves it untouched.

use vstd::prelude::*;

use crate::MapsError;
use crate::geo::{Coordinate, spec_distance_mm, distance};

verus! {

/// Most nodes and edges a store accepts; keeps every cost sum far from overflow.
pub const MAX_NODES: usize = 1_000_000;

/// Most edges a store accepts.
pub const MAX_EDGES: usize = 8_000_000;

/// Largest accepted edge cost, length or traversal time.
pub const MAX_EDGE_WEIGHT: u64 = 4_294_967_295;

/// Coarse class of a road segment.
#[derive(Clone, Copy, Debug, PartialEq, Eq, Structural)]
pub enum RoadClass {
    Motorway,
    Primary,
    Secondary,
    Residential,
    Service,
}

/// A graph vertex: a junction or endpoint of the road network.
#[derive(Clone, Copy, Debug, PartialEq, Eq, Structural)]
pub struct Node {
    /// Unique 64-bit key of the node.
    pub id: u64,
    /// Where the node lies.
    pub coord: Coordinate,
    /// Elevation above sea level, in meters.
    pub elevation_m: i32,
    /// Whether the node carries a barrier flag.
    pub barrier: bool,
}

/// A directed road segment between two nodes; a bidirectional road is two edges.
#[derive(Clone, Copy, Debug, PartialEq, Eq, Structural)]
pub struct Edge {
    /// Unique 64-bit key of the edge.
    pub id: u64,
    /// Key of the node the edge leaves.
    pub from_node: u64,
    /// Key of the node the edge enters.
    pub to_node: u64,
    /// Length of the segment in millimeters.
    pub length_mm: u64,
    /// Time to traverse the segment in seconds.
    pub travel_secs: u64,
    /// Cost the search minimizes; positive.
    pub cost: u64,
    /// Class of the road.
    pub road_class: RoadClass,
    /// Whether the segment is one-way.
    pub one_way: bool,
    /// Whether the segment is tolled.
    pub toll: bool,
    /// Whether the segment is a highway.
    pub highway: bool,
}

/// Whether some node in the sequence has the given id.
pub open spec fn has_node(nodes: Seq<Node>, id: u64) -> bool {
    exists|i: int| 0 <= i < nodes.len() && nodes[i].id == id
}

/// The validation a node must pass to be loaded.
pub open spec fn node_check(n: Node) -> Option<MapsError> {
    if !n.coord.valid() {
        Some(MapsError::OutOfRange)
    } else {
        None
    }
}

/// The validation an edge must pass to be loaded.
pub open spec fn edge_check(nodes: Seq<Node>, e: Edge) -> Option<MapsError> {
    if e.cost == 0 || e.cost > MAX_EDGE_WEIGHT || e.length_mm > MAX_EDGE_WEIGHT
        || e.travel_secs > MAX_EDGE_WEIGHT {
        Some(MapsError::InvalidEdgeCost)
    } else if !has_node(nodes, e.from_node) || !has_node(nodes, e.to_node) {
        Some(MapsError::DanglingEdge)
    } else {
        None
    }
}

/// First validation failure among the nodes from position `i` on.
pub open spec fn first_node_error_from(nodes: Seq<Node>, i: int) -> Option<MapsError>
    decreases nodes.len() - i,
{
    if i < 0 || i >= nodes.len() {
        None
    } else {
        match node_check(nodes[i]) {
            Some(e) => Some(e),
            None => first_node_error_from(nodes, i + 1),
        }
    }
}

/// First validation failure among the edges from position `i` on.
pub open spec fn first_edge_error_from(nodes: Seq<Node>, edges: Seq<Edge>, i: int) -> Option<
    MapsError,
>
    decreases edges.len() - i,
{
    if i < 0 || i >= edges.len() {
        None
    } else {
        match edge_check(nodes, edges[i]) {
            Some(e) => Some(e),
            None => first_edge_error_from(nodes, edges, i + 1),
        }
    }
}

/// First validation failure of a whole load: nodes first, then edges in order.
pub open spec fn load_error(nodes: Seq<Node>, edges: Seq<Edge>) -> Option<MapsError> {
    match first_node_error_from(nodes, 0) {
        Some(e) => Some(e),
        None => first_edge_error_from(nodes, edges, 0),
    }
}

/// The store that owns the road network.  Read-only once loaded.
pub struct GraphStore {
    /// The node table.
    pub nodes: Vec<Node>,
    /// The edge table.
    pub edges: Vec<Edge>,
}

impl GraphStore {
    /// Every loaded node and edge passed validation and the tables are within
    /// their size limits.
    pub open spec fn wf(self) -> bool {
        &&& self.nodes@.len() <= MAX_NODES
        &&& self.edges@.len() <= MAX_EDGES
        &&& forall|i: int| 0 <= i < self.nodes@.len() ==> (#[trigger] self.nodes@[i]).coord.valid()
        &&& forall|i: int|
            0 <= i < self.edges@.len() ==> edge_check(self.nodes@, #[trigger] self.edges@[i])
                is None
    }

    /// An empty store.
    pub fn new() -> (r: GraphStore)
        ensures
            r.nodes@.len() == 0,
            r.edges@.len() == 0,
            r.wf(),
    {
        GraphStore { nodes: Vec::new(), edges: Vec::new() }
    }

    /// Whether a node with the given id is loaded.
    pub fn node_exists(&self, id: u64) -> (r: bool)
        ensures
            r == has_node(self.nodes@, id),
    {
        let mut i: usize = 0;
        while i < self.nodes.len()
            invariant
                i <= self.nodes@.len(),
                forall|j: int| 0 <= j < i ==> self.nodes@[j].id != id,
            decreases self.nodes@.len() - i,
        {
            if self.nodes[i].id == id {
                return true;
            }
            i = i + 1;
        }
        false
    }

    /// Position of the first node with the given id, if any.
    pub fn node_index(&self, id: u64) -> (r: Option<usize>)
        ensures
            match r {
                Some(i) => i < self.nodes@.len() && self.nodes@[i as int].id == id && (forall|
                    j: int,
                |
                    0 <= j < i ==> self.nodes@[j].id != id),
                None => !has_node(self.nodes@, id),
            },
    {
        let mut i: usize = 0;
        while i < self.nodes.len()
            invariant
                i <= self.nodes@.len(),
                forall|j: int| 0 <= j < i ==> self.nodes@[j].id != id,
            decreases self.nodes@.len() - i,
        {
            if self.nodes[i].id == id {
                return Some(i);
            }
            i = i + 1;
        }
        None
    }

    /// Replaces the whole store with the given tables if every node and edge
    /// passes validation; otherwise reports the first failure and leaves the
    /// store as it was.
    pub fn load_graph(&mut self, nodes: Vec<Node>, edges: Vec<Edge>) -> (r: Result<
        (),
        MapsError,
    >)
        requires
            nodes@.len() <= MAX_NODES,
            edges@.len() <= MAX_EDGES,
        ensures
            r is Ok <==> load_error(nodes@, edges@) is None,
            r matches Err(e) ==> load_error(nodes@, edges@) == Some(e),
            r is Ok ==> final(self).nodes@ == nodes@ && final(self).edges@ == edges@
                && final(self).wf(),
            r is Err ==> *final(self) == *old(self),
    {
        let mut i: usize = 0;
        while i < nodes.len()
            invariant
                i <= nodes@.len(),
                first_node_error_from(nodes@, 0) == first_node_error_from(nodes@, i as int),
                forall|j: int| 0 <= j < i ==> node_check(#[trigger] nodes@[j]) is None,
            decreases nodes@.len() - i,
        {
            let c = nodes[i].coord;
            if c.lat_micro < -90000000 || c.lat_micro > 90000000 || c.lon_micro < -180000000
                || c.lon_micro > 180000000 {
                assert(node_check(nodes@[i as int]) == Some(MapsError::OutOfRange));
                return Err(MapsError::OutOfRange);
            }
            i = i + 1;
        }
        let mut k: usize = 0;
        while k < edges.len()
            invariant
                k <= edges@.len(),
                first_node_error_from(nodes@, 0) is None,
                first_edge_error_from(nodes@, edges@, 0) == first_edge_error_from(
                    nodes@,
                    edges@,
                    k as int,
                ),
                forall|j: int| 0 <= j < k ==> edge_check(nodes@, #[trigger] edges@[j]) is None,
            decreases edges@.len() - k,
        {
            let e = &edges[k];
            if e.cost == 0 || e.cost > MAX_EDGE_WEIGHT || e.length_mm > MAX_EDGE_WEIGHT
                || e.travel_secs > MAX_EDGE_WEIGHT {
                assert(edge_check(nodes@, edges@[k as int]) == Some(MapsError::InvalidEdgeCost));
                return Err(MapsError::InvalidEdgeCost);
            }
            let from_ok = exists_in(&nodes, e.from_node);
            let to_ok = exists_in(&nodes, e.to_node);
            if !from_ok || !to_ok {
                assert(edge_check(nodes@, edges@[k as int]) == Some(MapsError::DanglingEdge));
                return Err(MapsError::DanglingEdge);
            }
            k = k + 1;
        }
        self.nodes = nodes;
        self.edges = edges;
        Ok(())
    }

    /// All edges leaving the given node, in table order.
    pub fn outgoing_edges(&self, id: u64) -> (r: Vec<Edge>)
        ensures
            r@ == outgoing_from(self.edges@, id, 0),
    {
        let mut r: Vec<Edge> = Vec::new();
        let mut i: usize = 0;
        while i < self.edges.len()
            invariant
                i <= self.edges@.len(),
                outgoing_from(self.edges@, id, 0) == r@ + outgoing_from(
                    self.edges@,
                    id,
                    i as int,
                ),
            decreases self.edges@.len() - i,
        {
            let e = self.edges[i];
            if e.from_node == id {
                r.push(e);
                proof {
                    assert(outgoing_from(self.edges@, id, i as int) == seq![
                        self.edges@[i as int],
                    ] + outgoing_from(self.edges@, id, i + 1));
                    assert(r@ + outgoing_from(self.edges@, id, i + 1) =~= (r@.drop_last() + seq![
                        self.edges@[i as int],
                    ]) + outgoing_from(self.edges@, id, i + 1));
                    assert((r@.drop_last() + seq![self.edges@[i as int]]) + outgoing_from(
                        self.edges@,
                        id,
                        i + 1,
                    ) =~= r@.drop_last() + (seq![self.edges@[i as int]] + outgoing_from(
                        self.edges@,
                        id,
                        i + 1,
                    )));
                }
            } else {
                proof {
                    assert(outgoing_from(self.edges@, id, i as int) == outgoing_from(
                        self.edges@,
                        id,
                        i + 1,
                    ));
                }
            }
            i = i + 1;
        }
        proof {
            assert(r@ + outgoing_from(self.edges@, id, self.edges@.len() as int) =~= r@);
        }
        r
    }

    /// The first nearest-node choice: position `i` minimizes the distance to
    /// `c`, and every earlier position is strictly farther.
    pub open spec fn is_first_nearest(nodes: Seq<Node>, c: Coordinate, i: int) -> bool {
        &&& 0 <= i < nodes.len()
        &&& forall|j: int|
            0 <= j < nodes.len() ==> spec_distance_mm((#[trigger] nodes[j]).coord, c)
                >= spec_distance_mm(nodes[i].coord, c)
        &&& forall|j: int|
            0 <= j < i ==> spec_distance_mm((#[trigger] nodes[j]).coord, c) > spec_distance_mm(
                nodes[i].coord,
                c,
            )
    }

    /// The id of the loaded node nearest to the given coordinate; among equally
    /// near nodes, the one loaded first.  Fails only on an empty store.
    pub fn nearest_node(&self, coord: &Coordinate) -> (r: Result<u64, MapsError>)
        requires
            self.wf(),
            coord.valid(),
        ensures
            r is Err <==> self.nodes@.len() == 0,
            r is Err ==> r == Err::<u64, MapsError>(MapsError::EmptyGraph),
            r matches Ok(id) ==> exists|i: int|
                Self::is_first_nearest(self.nodes@, *coord, i) && self.nodes@[i].id == id,
    {
        if self.nodes.len() == 0 {
            return Err(MapsError::EmptyGraph);
        }
        let mut best: usize = 0;
        let mut best_dist: u64 = distance(&self.nodes[0].coord, coord);
        let mut i: usize = 1;
        while i < self.nodes.len()
            invariant
                self.wf(),
                coord.valid(),
                1 <= i <= self.nodes@.len(),
                best < i,
                best_dist == spec_distance_mm(self.nodes@[best as int].coord, *coord),
                forall|j: int|
                    0 <= j < i ==> spec_distance_mm((#[trigger] self.nodes@[j]).coord, *coord)
                        >= best_dist,
                forall|j: int|
                    0 <= j < best ==> spec_distance_mm((#[trigger] self.nodes@[j]).coord, *coord)
                        > best_dist,
            decreases self.nodes@.len() - i,
        {
            let d = distance(&self.nodes[i].coord, coord);
            if d < best_dist {
                best = i;
                best_dist = d;
            }
            i = i + 1;
        }
        assert(Self::is_first_nearest(self.nodes@, *coord, best as int));
        Ok(self.nodes[best].id)
    }
}

/// All edges in the sequence from position `i` on that leave node `id`.
pub open spec fn outgoing_from(edges: Seq<Edge>, id: u64, i: int) -> Seq<Edge>
    decreases edges.len() - i,
{
    if i < 0 || i >= edges.len() {
        Seq::empty()
    } else if edges[i].from_node == id {
        seq![edges[i]] + outgoing_from(edges, id, i + 1)
    } else {
        outgoing_from(edges, id, i + 1)
    }
}

/// Whether some node in the vector has the given id.
fn exists_in(nodes: &Vec<Node>, id: u64) -> (r: bool)
    ensures
        r == has_node(nodes@, id),
{
    let mut i: usize = 0;
    while i < nodes.len()
        invariant
            i <= nodes@.len(),
            forall|j: int| 0 <= j < i ==> nodes@[j].id != id,
        decreases nodes@.len() - i,
    {
        if nodes[i].id == id {
            return true;
        }
        i = i + 1;
    }
    false
}

} // verus!
