//! A* shortest-path search over the graph store.
//!
//! The search works on node positions (indexes into the store's node table)
//! and produces a path of node ids together with the positions of the edges
//! it used.  Its contract is exact about success: a result is returned if and
//! only if the goal is reachable from the start over edges the options allow.

use vstd::prelude::*;

use crate::MapsError;
use crate::geo::{Coordinate, spec_distance_mm, distance};
use crate::graph::{Edge, GraphStore, has_node, MAX_NODES, MAX_EDGE_WEIGHT};

verus! {

/// Largest accepted heuristic conversion factor, in millicost per meter.
pub const MAX_HEURISTIC_MILLI: u64 = 1_000_000;

/// What a single search run is allowed to use and how it estimates
/// remaining cost.
#[derive(Clone, Copy, Debug, PartialEq, Eq, Structural)]
pub struct SearchOptions {
    /// Tolled edges are not offered as neighbors.
    pub avoid_tolls: bool,
    /// Highway edges are not offered as neighbors.
    pub avoid_highways: bool,
    /// Millicost per meter of straight-line separation, used as the
    /// remaining-cost estimate; choose it optimistically (below the cost of
    /// the fastest edge per meter) to keep the estimate admissible.
    pub heuristic_milli_per_meter: u64,
}

impl SearchOptions {
    /// The conversion factor is within the accepted range.
    pub open spec fn valid(self) -> bool {
        self.heuristic_milli_per_meter <= MAX_HEURISTIC_MILLI
    }
}

/// Whether the options allow travelling over the given edge.
pub open spec fn edge_allowed(e: Edge, o: SearchOptions) -> bool {
    (!o.avoid_tolls || !e.toll) && (!o.avoid_highways || !e.highway)
}

/// Whether an allowed edge leads from node id `u` to node id `v`.
pub open spec fn connected(store: GraphStore, u: u64, v: u64, o: SearchOptions) -> bool {
    exists|k: int|
        0 <= k < store.edges@.len() && (#[trigger] store.edges@[k]).from_node == u
            && store.edges@[k].to_node == v && edge_allowed(store.edges@[k], o)
}

/// A non-empty sequence of loaded node ids where each consecutive pair is
/// joined by an allowed edge.
pub open spec fn is_path(store: GraphStore, ids: Seq<u64>, o: SearchOptions) -> bool {
    &&& ids.len() >= 1
    &&& forall|j: int| 0 <= j < ids.len() ==> has_node(store.nodes@, #[trigger] ids[j])
    &&& forall|j: int| 0 <= j < ids.len() - 1 ==> connected(store, #[trigger] ids[j], ids[j + 1], o)
}

/// A path that starts at `s` and ends at `t`.
pub open spec fn path_from_to(
    store: GraphStore,
    ids: Seq<u64>,
    s: u64,
    t: u64,
    o: SearchOptions,
) -> bool {
    is_path(store, ids, o) && ids[0] == s && ids[ids.len() - 1] == t
}

/// Whether any allowed path leads from `s` to `t`.
pub open spec fn reachable(store: GraphStore, s: u64, t: u64, o: SearchOptions) -> bool {
    exists|ids: Seq<u64>| path_from_to(store, ids, s, t, o)
}

/// Sum of the lengths of the edges at the given positions, in millimeters.
pub open spec fn sum_length(edges: Seq<Edge>, idxs: Seq<usize>) -> int
    decreases idxs.len(),
{
    if idxs.len() == 0 {
        0
    } else {
        sum_length(edges, idxs.drop_last()) + edges[idxs.last() as int].length_mm
    }
}

/// Sum of the traversal times of the edges at the given positions, in seconds.
pub open spec fn sum_secs(edges: Seq<Edge>, idxs: Seq<usize>) -> int
    decreases idxs.len(),
{
    if idxs.len() == 0 {
        0
    } else {
        sum_secs(edges, idxs.drop_last()) + edges[idxs.last() as int].travel_secs
    }
}

/// Sum of the costs of the edges at the given positions.
pub open spec fn sum_cost(edges: Seq<Edge>, idxs: Seq<usize>) -> int
    decreases idxs.len(),
{
    if idxs.len() == 0 {
        0
    } else {
        sum_cost(edges, idxs.drop_last()) + edges[idxs.last() as int].cost
    }
}

/// The least-cost path the search found: node ids from start to goal, the
/// positions (in the store's edge table) of the edges it used, and the exact
/// length and time sums over those edges.
pub struct SearchResult {
    /// Node ids from the start to the goal, inclusive.
    pub path: Vec<u64>,
    /// For each step, the position of the edge used, in the store's edge table.
    pub edge_indices: Vec<usize>,
    /// Sum of the used edges' lengths, in millimeters.
    pub distance_mm: u64,
    /// Sum of the used edges' traversal times, in seconds.
    pub duration_secs: u64,
}

/// The edge positions step exactly along the path and every used edge is allowed.
pub open spec fn edges_match_path(
    store: GraphStore,
    ids: Seq<u64>,
    idxs: Seq<usize>,
    o: SearchOptions,
) -> bool {
    &&& idxs.len() + 1 == ids.len()
    &&& forall|j: int|
        0 <= j < idxs.len() ==> (#[trigger] idxs[j]) < store.edges@.len()
            && store.edges@[idxs[j] as int].from_node == ids[j]
            && store.edges@[idxs[j] as int].to_node == ids[j + 1]
            && edge_allowed(store.edges@[idxs[j] as int], o)
}

/// The remaining-cost estimate: straight-line distance converted to cost.
pub open spec fn spec_heuristic(a: Coordinate, b: Coordinate, milli_per_meter: int) -> int {
    spec_distance_mm(a, b) * milli_per_meter / 1000000
}

/// Estimated remaining cost from `c` to `goal`: straight-line distance at the
/// optimistic conversion factor.
pub fn heuristic_cost(c: &Coordinate, goal: &Coordinate, milli_per_meter: u64) -> (h: u64)
    requires
        c.valid(),
        goal.valid(),
        milli_per_meter <= MAX_HEURISTIC_MILLI,
    ensures
        h == spec_heuristic(*c, *goal, milli_per_meter as int),
        h <= 20_015_086_796,
{
    let d = distance(c, goal);
    proof {
        assert(d * milli_per_meter <= 20_015_086_796 * 1_000_000) by (nonlinear_arith)
            requires d <= 20_015_086_796, milli_per_meter <= 1_000_000
        ;
        assert(d * milli_per_meter / 1000000 <= 20_015_086_796 * 1_000_000 / 1000000)
            by (nonlinear_arith)
            requires d * milli_per_meter <= 20_015_086_796 * 1_000_000
        ;
    }
    d * milli_per_meter / 1000000
}

/// Position `i` holds the first node with id `id`.
pub open spec fn is_first_idx(nodes: Seq<crate::graph::Node>, id: u64, i: int) -> bool {
    &&& 0 <= i < nodes.len()
    &&& nodes[i].id == id
    &&& forall|j: int| 0 <= j < i ==> nodes[j].id != id
}

/// Every loaded id has a first position.
pub proof fn lemma_first_idx_exists(nodes: Seq<crate::graph::Node>, id: u64)
    requires
        has_node(nodes, id),
    ensures
        exists|t: int| is_first_idx(nodes, id, t),
{
    let j = choose|j: int| 0 <= j < nodes.len() && nodes[j].id == id;
    lemma_first_idx_from_witness(nodes, id, j);
}

proof fn lemma_first_idx_from_witness(nodes: Seq<crate::graph::Node>, id: u64, j: int)
    requires
        0 <= j < nodes.len(),
        nodes[j].id == id,
    ensures
        exists|t: int| is_first_idx(nodes, id, t),
    decreases j,
{
    if forall|j2: int| 0 <= j2 < j ==> nodes[j2].id != id {
        assert(is_first_idx(nodes, id, j));
    } else {
        let j2 = choose|j2: int| 0 <= j2 < j && nodes[j2].id == id;
        lemma_first_idx_from_witness(nodes, id, j2);
    }
}

/// A link to the node a best-known path comes from, and the edge it uses.
#[derive(Clone, Copy, Debug)]
pub struct ParentLink {
    /// Position of the predecessor node.
    pub node: usize,
    /// Position of the edge taken from the predecessor.
    pub edge: usize,
}

/// Per-node search state: best known cost, length and time from the start,
/// the link it was reached over, and whether the node is settled.
#[derive(Clone, Copy, Debug)]
pub struct NodeState {
    /// Best known cumulative cost from the start.
    pub g: u64,
    /// Cumulative length of the best known path, in millimeters.
    pub dist: u64,
    /// Cumulative traversal time of the best known path, in seconds.
    pub secs: u64,
    /// How the node was reached, or nothing at the start node.
    pub parent: Option<ParentLink>,
    /// Whether the node is settled: its state is final.
    pub closed: bool,
    /// Whether any path to the node has been recorded yet.
    pub reached: bool,
}

/// An entry of the search frontier.
#[derive(Clone, Copy, Debug)]
pub struct OpenEntry {
    /// Estimated total cost through the node: cost so far plus estimate.
    pub f: u64,
    /// Cost so far when the entry was pushed.
    pub g: u64,
    /// Insertion number, the deterministic tie-breaker.
    pub seqno: u64,
    /// Position of the node.
    pub node: usize,
}

/// Number of settled nodes.
pub open spec fn count_closed(ns: Seq<NodeState>) -> int
    decreases ns.len(),
{
    if ns.len() == 0 {
        0
    } else {
        count_closed(ns.drop_last()) + if ns.last().closed {
            1int
        } else {
            0int
        }
    }
}

/// The settled count is between zero and the node count.
pub proof fn lemma_count_closed_le(ns: Seq<NodeState>)
    ensures
        0 <= count_closed(ns) <= ns.len(),
    decreases ns.len(),
{
    if ns.len() > 0 {
        lemma_count_closed_le(ns.drop_last());
    }
}

/// Updating one slot changes the settled count by the change of its flag.
pub proof fn lemma_count_closed_update(ns: Seq<NodeState>, i: int, v: NodeState)
    requires
        0 <= i < ns.len(),
    ensures
        count_closed(ns.update(i, v)) == count_closed(ns) - (if ns[i].closed {
            1int
        } else {
            0int
        }) + (if v.closed {
            1int
        } else {
            0int
        }),
    decreases ns.len(),
{
    let upd = ns.update(i, v);
    if i == ns.len() - 1 {
        assert(upd.drop_last() =~= ns.drop_last());
        assert(upd.last() == v);
    } else {
        assert(upd.drop_last() =~= ns.drop_last().update(i, v));
        assert(upd.last() == ns.last());
        lemma_count_closed_update(ns.drop_last(), i, v);
    }
}

/// Whether the frontier holds an entry for the node at position `t`.
pub open spec fn in_open(op: Seq<OpenEntry>, t: int) -> bool {
    exists|j: int| 0 <= j < op.len() && (#[trigger] op[j]).node == t
}

/// Removing one entry keeps every other node's presence in the frontier.
pub proof fn lemma_in_open_after_remove(op: Seq<OpenEntry>, mi: int, t: int)
    requires
        0 <= mi < op.len(),
        in_open(op, t),
        op[mi].node != t,
    ensures
        in_open(op.remove(mi), t),
{
    let j = choose|j: int| 0 <= j < op.len() && op[j].node == t;
    if j < mi {
        assert(op.remove(mi)[j] == op[j]);
    } else {
        assert(op.remove(mi)[j - 1] == op[j]);
    }
}

/// Soundness of the recorded state: every parent link steps over an allowed
/// edge from a settled predecessor, with cost, length and time sums recorded
/// exactly, and a reached node without a link is the start with zero sums.
#[verifier::opaque]
pub open spec fn parents_ok(
    store: GraphStore,
    o: SearchOptions,
    ns: Seq<NodeState>,
    start_idx: int,
) -> bool {
    &&& ns.len() == store.nodes@.len()
    &&& 0 <= start_idx < ns.len()
    &&& ns[start_idx].parent is None
    &&& forall|i: int|
        0 <= i < ns.len() && (#[trigger] ns[i]).reached && ns[i].parent is None ==> i == start_idx
            && ns[i].g == 0 && ns[i].dist == 0 && ns[i].secs == 0
    &&& forall|i: int|
        0 <= i < ns.len() && (#[trigger] ns[i]).parent is Some ==> {
            let pl = ns[i].parent->0;
            &&& ns[i].reached
            &&& pl.node < ns.len()
            &&& pl.edge < store.edges@.len()
            &&& ns[pl.node as int].reached
            &&& ns[pl.node as int].closed
            &&& store.edges@[pl.edge as int].from_node == store.nodes@[pl.node as int].id
            &&& store.edges@[pl.edge as int].to_node == store.nodes@[i].id
            &&& edge_allowed(store.edges@[pl.edge as int], o)
            &&& ns[pl.node as int].g + store.edges@[pl.edge as int].cost == ns[i].g
            &&& ns[pl.node as int].dist + store.edges@[pl.edge as int].length_mm == ns[i].dist
            &&& ns[pl.node as int].secs + store.edges@[pl.edge as int].travel_secs == ns[i].secs
            &&& ns[pl.node as int].g < ns[i].g
        }
}

/// The used-edge positions walk the id sequence backwards: edge `j` enters
/// `ids[j]` and leaves `ids[j + 1]`.
pub open spec fn back_chain(
    edges: Seq<Edge>,
    o: SearchOptions,
    ids: Seq<u64>,
    eidx: Seq<usize>,
) -> bool {
    &&& ids.len() == eidx.len() + 1
    &&& forall|j: int|
        0 <= j < eidx.len() ==> (#[trigger] eidx[j]) < edges.len()
            && edges[eidx[j] as int].to_node == ids[j]
            && edges[eidx[j] as int].from_node == ids[j + 1]
            && edge_allowed(edges[eidx[j] as int], o)
}

/// Extending a backward chain by one fitting edge keeps it a backward chain.
proof fn lemma_chain_extend(
    edges: Seq<Edge>,
    o: SearchOptions,
    old_ids: Seq<u64>,
    old_eidx: Seq<usize>,
    e: usize,
    next_id: u64,
)
    requires
        back_chain(edges, o, old_ids, old_eidx),
        e < edges.len(),
        edges[e as int].to_node == old_ids[old_ids.len() - 1],
        edges[e as int].from_node == next_id,
        edge_allowed(edges[e as int], o),
    ensures
        back_chain(edges, o, old_ids.push(next_id), old_eidx.push(e)),
{
    let new_ids = old_ids.push(next_id);
    let new_eidx = old_eidx.push(e);
    assert forall|j: int| 0 <= j < new_eidx.len() implies (#[trigger] new_eidx[j]) < edges.len()
        && edges[new_eidx[j] as int].to_node == new_ids[j]
        && edges[new_eidx[j] as int].from_node == new_ids[j + 1]
        && edge_allowed(edges[new_eidx[j] as int], o) by {
        if j < old_eidx.len() {
            assert(new_eidx[j] == old_eidx[j]);
            assert(new_ids[j] == old_ids[j]);
            assert(new_ids[j + 1] == old_ids[j + 1]);
        } else {
            assert(new_eidx[j] == e);
            assert(new_ids[j] == old_ids[old_ids.len() - 1]);
            assert(new_ids[j + 1] == next_id);
        }
    }
}

/// Walks the parent links from the goal back to the start, returning the node
/// ids and used edge positions in backward order, with their exact sums.
fn walk_back(
    store: &GraphStore,
    opts: &SearchOptions,
    state: &Vec<NodeState>,
    start_idx: usize,
    goal_idx: usize,
) -> (r: (Vec<u64>, Vec<usize>))
    requires
        parents_ok(*store, *opts, state@, start_idx as int),
        start_idx < state@.len(),
        goal_idx < state@.len(),
        state@[goal_idx as int].reached,
    ensures
        back_chain(store.edges@, *opts, r.0@, r.1@),
        r.0@[0] == store.nodes@[goal_idx as int].id,
        r.0@[r.0@.len() - 1] == store.nodes@[start_idx as int].id,
        sum_length(store.edges@, r.1@) == state@[goal_idx as int].dist,
        sum_secs(store.edges@, r.1@) == state@[goal_idx as int].secs,
        sum_cost(store.edges@, r.1@) == state@[goal_idx as int].g,
        state@[goal_idx as int].parent is None ==> r.0@.len() == 1 && r.1@.len() == 0,
{
    proof {
        reveal(parents_ok);
    }
    let ghost nodes = store.nodes@;
    let ghost edges = store.edges@;
    let mut cur: usize = goal_idx;
    let mut rev_ids: Vec<u64> = Vec::new();
    let mut rev_edges: Vec<usize> = Vec::new();
    rev_ids.push(store.nodes[goal_idx].id);
    loop
        invariant
            nodes == store.nodes@,
            edges == store.edges@,
            parents_ok(*store, *opts, state@, start_idx as int),
            start_idx < state@.len(),
            goal_idx < state@.len(),
            cur < state@.len(),
            state@[cur as int].reached,
            back_chain(edges, *opts, rev_ids@, rev_edges@),
            rev_ids@[0] == nodes[goal_idx as int].id,
            rev_ids@[rev_ids@.len() - 1] == nodes[cur as int].id,
            state@[goal_idx as int].parent is None ==> rev_edges@.len() == 0 && cur == goal_idx,
            state@[goal_idx as int].dist == state@[cur as int].dist + sum_length(
                edges,
                rev_edges@,
            ),
            state@[goal_idx as int].secs == state@[cur as int].secs + sum_secs(
                edges,
                rev_edges@,
            ),
            state@[goal_idx as int].g == state@[cur as int].g + sum_cost(edges, rev_edges@),
        ensures
            cur == start_idx,
            state@[cur as int].dist == 0,
            state@[cur as int].secs == 0,
            state@[cur as int].g == 0,
        decreases state@[cur as int].g,
    {
        proof {
            reveal(parents_ok);
        }
        let st = state[cur];
        match st.parent {
            None => {
                break;
            },
            Some(pl) => {
                proof {
                    assert(state@[cur as int].parent is Some);
                    assert(state@[cur as int].parent->0 == pl);
                    lemma_chain_extend(
                        edges,
                        *opts,
                        rev_ids@,
                        rev_edges@,
                        pl.edge,
                        nodes[pl.node as int].id,
                    );
                }
                let ghost old_rev_edges = rev_edges@;
                rev_edges.push(pl.edge);
                cur = pl.node;
                rev_ids.push(store.nodes[cur].id);
                proof {
                    assert(rev_edges@.drop_last() =~= old_rev_edges);
                    assert(sum_length(edges, rev_edges@) == sum_length(edges, old_rev_edges)
                        + edges[pl.edge as int].length_mm);
                    assert(sum_secs(edges, rev_edges@) == sum_secs(edges, old_rev_edges)
                        + edges[pl.edge as int].travel_secs);
                    assert(sum_cost(edges, rev_edges@) == sum_cost(edges, old_rev_edges)
                        + edges[pl.edge as int].cost);
                }
            },
        }
    }
    (rev_ids, rev_edges)
}

/// Every id on a backward chain whose root id is loaded is itself loaded:
/// interior ids are targets of validated edges.
proof fn lemma_chain_has_node(
    store: GraphStore,
    o: SearchOptions,
    rev_ids: Seq<u64>,
    rev_eidx: Seq<usize>,
)
    requires
        store.wf(),
        back_chain(store.edges@, o, rev_ids, rev_eidx),
        has_node(store.nodes@, rev_ids[rev_ids.len() - 1]),
    ensures
        forall|j: int| 0 <= j < rev_ids.len() ==> has_node(store.nodes@, #[trigger] rev_ids[j]),
{
    assert forall|j: int| 0 <= j < rev_ids.len() implies has_node(
        store.nodes@,
        #[trigger] rev_ids[j],
    ) by {
        if j < rev_ids.len() - 1 {
            assert(store.edges@[rev_eidx[j] as int].to_node == rev_ids[j]);
            assert(crate::graph::edge_check(store.nodes@, store.edges@[rev_eidx[j] as int])
                is None);
        }
    }
}

/// Reversing a backward chain yields a forward path with matching used edges.
proof fn lemma_forward_path(
    store: GraphStore,
    o: SearchOptions,
    rev_ids: Seq<u64>,
    rev_eidx: Seq<usize>,
    path: Seq<u64>,
    eidx: Seq<usize>,
)
    requires
        back_chain(store.edges@, o, rev_ids, rev_eidx),
        forall|j: int| 0 <= j < rev_ids.len() ==> has_node(store.nodes@, #[trigger] rev_ids[j]),
        path.len() == rev_ids.len(),
        forall|t: int| 0 <= t < path.len() ==> #[trigger] path[t] == rev_ids[path.len() - 1 - t],
        eidx.len() == rev_eidx.len(),
        forall|t: int| 0 <= t < eidx.len() ==> #[trigger] eidx[t] == rev_eidx[eidx.len() - 1 - t],
    ensures
        is_path(store, path, o),
        edges_match_path(store, path, eidx, o),
        path[0] == rev_ids[rev_ids.len() - 1],
        path[path.len() - 1] == rev_ids[0],
{
    let l = path.len();
    let le = eidx.len();
    assert forall|t: int| 0 <= t < le implies (#[trigger] eidx[t]) < store.edges@.len()
        && store.edges@[eidx[t] as int].from_node == path[t]
        && store.edges@[eidx[t] as int].to_node == path[t + 1] && edge_allowed(
        store.edges@[eidx[t] as int],
        o,
    ) by {
        assert(eidx[t] == rev_eidx[le - 1 - t]);
        assert(path[t] == rev_ids[l - 1 - t]);
        assert(path[t + 1] == rev_ids[l - 2 - t]);
        assert(store.edges@[rev_eidx[le - 1 - t] as int].from_node == rev_ids[le - t]);
        assert(store.edges@[rev_eidx[le - 1 - t] as int].to_node == rev_ids[le - 1 - t]);
    }
    assert forall|t: int| 0 <= t < l - 1 implies connected(
        store,
        #[trigger] path[t],
        path[t + 1],
        o,
    ) by {
        let ei = eidx[t] as int;
        assert(store.edges@[ei].from_node == path[t] && store.edges@[ei].to_node == path[t + 1]
            && edge_allowed(store.edges@[ei], o));
    }
    assert forall|t: int| 0 <= t < l implies has_node(store.nodes@, #[trigger] path[t]) by {
        assert(path[t] == rev_ids[l - 1 - t]);
    }
}

/// Follows the parent links from the goal back to the start and returns the
/// forward path with its used edges and their exact sums.
#[verifier::rlimit(100)]
fn reconstruct(
    store: &GraphStore,
    opts: &SearchOptions,
    state: &Vec<NodeState>,
    start_idx: usize,
    goal_idx: usize,
) -> (sr: SearchResult)
    requires
        store.wf(),
        parents_ok(*store, *opts, state@, start_idx as int),
        start_idx < state@.len(),
        goal_idx < state@.len(),
        state@[goal_idx as int].reached,
        state@[goal_idx as int].dist <= u64::MAX,
        state@[goal_idx as int].secs <= u64::MAX,
    ensures
        path_from_to(
            *store,
            sr.path@,
            store.nodes@[start_idx as int].id,
            store.nodes@[goal_idx as int].id,
            *opts,
        ),
        edges_match_path(*store, sr.path@, sr.edge_indices@, *opts),
        sr.distance_mm == state@[goal_idx as int].dist,
        sr.duration_secs == state@[goal_idx as int].secs,
        sr.distance_mm == sum_length(store.edges@, sr.edge_indices@),
        sr.duration_secs == sum_secs(store.edges@, sr.edge_indices@),
        sum_cost(store.edges@, sr.edge_indices@) == state@[goal_idx as int].g,
        state@[goal_idx as int].parent is None ==> sr.path@.len() == 1 && sr.path@[0]
            == store.nodes@[goal_idx as int].id && sr.edge_indices@.len() == 0,
{
    proof {
        reveal(parents_ok);
    }
    let ghost nodes = store.nodes@;
    let ghost edges = store.edges@;
    let pair = walk_back(store, opts, state, start_idx, goal_idx);
    let rev_ids = pair.0;
    let rev_edges = pair.1;
    proof {
        assert(has_node(nodes, rev_ids@[rev_ids@.len() - 1]));
        lemma_chain_has_node(*store, *opts, rev_ids@, rev_edges@);
    }
    let l = rev_ids.len();
    let le = rev_edges.len();
    let mut path: Vec<u64> = Vec::new();
    let mut j: usize = 0;
    while j < l
        invariant
            l == rev_ids@.len(),
            nodes == store.nodes@,
            edges == store.edges@,
            j <= l,
            path@.len() == j,
            forall|t: int| 0 <= t < j ==> path@[t] == rev_ids@[l - 1 - t],
        decreases l - j,
    {
        path.push(rev_ids[l - 1 - j]);
        j = j + 1;
    }
    let mut edge_indices: Vec<usize> = Vec::new();
    proof {
        assert(rev_edges@.take(le as int) =~= rev_edges@);
    }
    let mut k: usize = 0;
    while k < le
        invariant
            le == rev_edges@.len(),
            nodes == store.nodes@,
            edges == store.edges@,
            k <= le,
            edge_indices@.len() == k,
            forall|t: int| 0 <= t < k ==> edge_indices@[t] == rev_edges@[le - 1 - t],
            sum_length(edges, edge_indices@) + sum_length(
                edges,
                rev_edges@.take(le - k),
            ) == sum_length(edges, rev_edges@),
            sum_secs(edges, edge_indices@) + sum_secs(edges, rev_edges@.take(le - k))
                == sum_secs(edges, rev_edges@),
            sum_cost(edges, edge_indices@) + sum_cost(edges, rev_edges@.take(le - k))
                == sum_cost(edges, rev_edges@),
        decreases le - k,
    {
        proof {
            assert(rev_edges@.take(le - k).drop_last() =~= rev_edges@.take(le - k - 1));
            assert(rev_edges@.take(le - k).last() == rev_edges@[le - 1 - k]);
            assert(sum_length(edges, rev_edges@.take(le - k)) == sum_length(
                edges,
                rev_edges@.take(le - k - 1),
            ) + edges[rev_edges@[le - 1 - k] as int].length_mm);
            assert(sum_secs(edges, rev_edges@.take(le - k)) == sum_secs(
                edges,
                rev_edges@.take(le - k - 1),
            ) + edges[rev_edges@[le - 1 - k] as int].travel_secs);
            assert(sum_cost(edges, rev_edges@.take(le - k)) == sum_cost(
                edges,
                rev_edges@.take(le - k - 1),
            ) + edges[rev_edges@[le - 1 - k] as int].cost);
        }
        let ghost old_eidx = edge_indices@;
        edge_indices.push(rev_edges[le - 1 - k]);
        proof {
            assert(edge_indices@.drop_last() =~= old_eidx);
            assert(sum_length(edges, edge_indices@) == sum_length(edges, old_eidx)
                + edges[rev_edges@[le - 1 - k] as int].length_mm);
            assert(sum_secs(edges, edge_indices@) == sum_secs(edges, old_eidx)
                + edges[rev_edges@[le - 1 - k] as int].travel_secs);
            assert(sum_cost(edges, edge_indices@) == sum_cost(edges, old_eidx)
                + edges[rev_edges@[le - 1 - k] as int].cost);
        }
        k = k + 1;
    }
    proof {
        assert(rev_edges@.take(le as int) =~= rev_edges@);
        assert(rev_edges@.take(0) =~= Seq::<usize>::empty());
        lemma_forward_path(*store, *opts, rev_ids@, rev_edges@, path@, edge_indices@);
        assert(path@[0] == rev_ids@[l - 1]);
        assert(path@[path@.len() - 1] == rev_ids@[0]);
    }
    let dist_total = state[goal_idx].dist;
    let secs_total = state[goal_idx].secs;
    SearchResult { path, edge_indices, distance_mm: dist_total, duration_secs: secs_total }
}

/// Every frontier entry points at a reached node within bounds.
#[verifier::opaque]
pub open spec fn open_ok(ns: Seq<NodeState>, op: Seq<OpenEntry>) -> bool {
    forall|j: int|
        0 <= j < op.len() ==> (#[trigger] op[j]).node < ns.len() && ns[op[j].node as int].reached
}

/// Every node that holds the first position of the given id is settled or on
/// the frontier.
#[verifier::opaque]
pub open spec fn target_settled(
    store: GraphStore,
    ns: Seq<NodeState>,
    op: Seq<OpenEntry>,
    id: u64,
) -> bool {
    forall|t: int| #[trigger]
        is_first_idx(store.nodes@, id, t) ==> ns[t].closed || in_open(op, t)
}

/// Every allowed edge out of a settled node leads to a target that is settled
/// or on the frontier: the classic A* closed-set property.
#[verifier::opaque]
pub open spec fn frontier_complete(
    store: GraphStore,
    o: SearchOptions,
    ns: Seq<NodeState>,
    op: Seq<OpenEntry>,
) -> bool {
    forall|u: int, k: int|
        0 <= u < ns.len() && (#[trigger] ns[u]).closed && 0 <= k < store.edges@.len()
            && (#[trigger] store.edges@[k]).from_node == store.nodes@[u].id && edge_allowed(
            store.edges@[k],
            o,
        ) ==> target_settled(store, ns, op, store.edges@[k].to_node)
}

/// Every reached but unsettled node is on the frontier.
#[verifier::opaque]
pub open spec fn reached_in_open(ns: Seq<NodeState>, op: Seq<OpenEntry>) -> bool {
    forall|i: int|
        0 <= i < ns.len() && (#[trigger] ns[i]).reached && !ns[i].closed ==> in_open(op, i)
}

/// Every recorded sum is bounded by the settled count: each settling adds at
/// most one maximal edge weight, and a settled node's sums predate its own
/// settling.  Keeps all arithmetic within `u64`.
#[verifier::opaque]
pub open spec fn bounds_ok(ns: Seq<NodeState>) -> bool {
    &&& forall|i: int|
        0 <= i < ns.len() && (#[trigger] ns[i]).reached ==> ns[i].g <= (count_closed(ns) + 1)
            * 4294967295 && ns[i].dist <= (count_closed(ns) + 1) * 4294967295 && ns[i].secs <= (
        count_closed(ns) + 1) * 4294967295
    &&& forall|i: int|
        0 <= i < ns.len() && (#[trigger] ns[i]).closed ==> ns[i].g <= count_closed(ns)
            * 4294967295 && ns[i].dist <= count_closed(ns) * 4294967295 && ns[i].secs
            <= count_closed(ns) * 4294967295
}

/// A sequence with no settled node has a settled count of zero.
proof fn lemma_count_closed_all_open(ns: Seq<NodeState>)
    requires
        forall|i: int| 0 <= i < ns.len() ==> !(#[trigger] ns[i]).closed,
    ensures
        count_closed(ns) == 0,
    decreases ns.len(),
{
    if ns.len() > 0 {
        lemma_count_closed_all_open(ns.drop_last());
    }
}

/// Pushing a frontier entry keeps every node's presence in the frontier.
proof fn lemma_in_open_push(op: Seq<OpenEntry>, e: OpenEntry, t: int)
    requires
        in_open(op, t),
    ensures
        in_open(op.push(e), t),
{
    let j = choose|j: int| 0 <= j < op.len() && op[j].node == t;
    assert(op.push(e)[j].node == t);
}

/// If every settled node's allowed successors are settled while the frontier
/// is empty, then every path that starts at a settled first position also ends
/// at one.
proof fn lemma_path_closed(
    store: GraphStore,
    o: SearchOptions,
    ns: Seq<NodeState>,
    ids: Seq<u64>,
)
    requires
        store.wf(),
        ns.len() == store.nodes@.len(),
        frontier_complete(store, o, ns, Seq::empty()),
        is_path(store, ids, o),
        forall|t: int| is_first_idx(store.nodes@, ids[0], t) ==> ns[t].closed,
    ensures
        forall|t: int| is_first_idx(store.nodes@, ids[ids.len() - 1], t) ==> ns[t].closed,
    decreases ids.len(),
{
    reveal(frontier_complete);
    reveal(target_settled);
    if ids.len() > 1 {
        assert(connected(store, ids[0], ids[1], o));
        let k = choose|k: int|
            0 <= k < store.edges@.len() && (#[trigger] store.edges@[k]).from_node == ids[0]
                && store.edges@[k].to_node == ids[1] && edge_allowed(store.edges@[k], o);
        assert(has_node(store.nodes@, ids[0]));
        lemma_first_idx_exists(store.nodes@, ids[0]);
        let u = choose|u: int| is_first_idx(store.nodes@, ids[0], u);
        assert(ns[u].closed);
        assert(store.nodes@[u].id == ids[0]);
        assert(target_settled(store, ns, Seq::empty(), store.edges@[k].to_node));
        assert forall|t: int| is_first_idx(store.nodes@, ids[1], t) implies ns[t].closed by {
            assert(!in_open(Seq::empty(), t));
        }
        let tail = ids.subrange(1, ids.len() as int);
        assert(tail.len() == ids.len() - 1);
        assert forall|j: int| 0 <= j < tail.len() implies has_node(
            store.nodes@,
            #[trigger] tail[j],
        ) by {
            assert(tail[j] == ids[j + 1]);
        }
        assert forall|j: int| 0 <= j < tail.len() - 1 implies connected(
            store,
            #[trigger] tail[j],
            tail[j + 1],
            o,
        ) by {
            assert(tail[j] == ids[j + 1]);
            assert(tail[j + 1] == ids[j + 2]);
        }
        assert(is_path(store, tail, o));
        assert(tail[0] == ids[1]);
        lemma_path_closed(store, o, ns, tail);
        assert(tail[tail.len() - 1] == ids[ids.len() - 1]);
    }
}

/// The closed-set property for every settled node but `exc`, whose outgoing
/// edges are still being relaxed.
#[verifier::opaque]
pub open spec fn frontier_complete_except(
    store: GraphStore,
    o: SearchOptions,
    ns: Seq<NodeState>,
    op: Seq<OpenEntry>,
    exc: int,
) -> bool {
    forall|u: int, k: int|
        0 <= u < ns.len() && u != exc && (#[trigger] ns[u]).closed && 0 <= k < store.edges@.len()
            && (#[trigger] store.edges@[k]).from_node == store.nodes@[u].id && edge_allowed(
            store.edges@[k],
            o,
        ) ==> target_settled(store, ns, op, store.edges@[k].to_node)
}

/// The first `k` edges out of the node with id `uid` have settled targets.
#[verifier::opaque]
pub open spec fn relaxed_up_to(
    store: GraphStore,
    o: SearchOptions,
    ns: Seq<NodeState>,
    op: Seq<OpenEntry>,
    uid: u64,
    k: int,
) -> bool {
    forall|k2: int|
        0 <= k2 < k && (#[trigger] store.edges@[k2]).from_node == uid && edge_allowed(
            store.edges@[k2],
            o,
        ) ==> target_settled(store, ns, op, store.edges@[k2].to_node)
}

/// Removing the frontier entry of a node that is settled (or being settled)
/// keeps every other node's presence, so the frontier properties survive.
proof fn lemma_pop_preserves(
    store: GraphStore,
    o: SearchOptions,
    ns: Seq<NodeState>,
    op0: Seq<OpenEntry>,
    mi: int,
)
    requires
        0 <= mi < op0.len(),
        ns[op0[mi].node as int].closed,
        0 <= op0[mi].node < ns.len(),
        open_ok(ns, op0),
        reached_in_open(ns, op0),
        frontier_complete(store, o, ns, op0),
    ensures
        open_ok(ns, op0.remove(mi)),
        reached_in_open(ns, op0.remove(mi)),
        frontier_complete(store, o, ns, op0.remove(mi)),
{
    reveal(open_ok);
    reveal(reached_in_open);
    reveal(frontier_complete);
    reveal(target_settled);
    let op1 = op0.remove(mi);
    assert forall|j: int|
        0 <= j < op1.len() implies (#[trigger] op1[j]).node < ns.len()
            && ns[op1[j].node as int].reached by {
        if j < mi {
            assert(op1[j] == op0[j]);
        } else {
            assert(op1[j] == op0[j + 1]);
        }
    }
    let u = op0[mi].node as int;
    assert forall|i: int|
        0 <= i < ns.len() && (#[trigger] ns[i]).reached && !ns[i].closed implies in_open(
        op1,
        i,
    ) by {
        assert(in_open(op0, i));
        lemma_in_open_after_remove(op0, mi, i);
    }
    assert forall|u2: int, k: int|
        0 <= u2 < ns.len() && (#[trigger] ns[u2]).closed && 0 <= k < store.edges@.len() && (
    #[trigger] store.edges@[k]).from_node == store.nodes@[u2].id && edge_allowed(
        store.edges@[k],
        o,
    ) implies target_settled(store, ns, op1, store.edges@[k].to_node) by {
        assert(target_settled(store, ns, op0, store.edges@[k].to_node));
        assert forall|t: int| #[trigger]
            is_first_idx(store.nodes@, store.edges@[k].to_node, t) implies ns[t].closed
                || in_open(op1, t) by {
            if !ns[t].closed {
                assert(in_open(op0, t));
                lemma_in_open_after_remove(op0, mi, t);
            }
        }
    }
}

/// Changing only the settled flag of one reached node keeps the recorded
/// parent links sound.
proof fn lemma_close_parents(
    store: GraphStore,
    o: SearchOptions,
    ns0: Seq<NodeState>,
    ns1: Seq<NodeState>,
    u: int,
    start_idx: int,
)
    requires
        parents_ok(store, o, ns0, start_idx),
        0 <= u < ns0.len(),
        ns1.len() == ns0.len(),
        forall|i: int| 0 <= i < ns0.len() && i != u ==> ns1[i] == ns0[i],
        ns1[u].g == ns0[u].g,
        ns1[u].dist == ns0[u].dist,
        ns1[u].secs == ns0[u].secs,
        ns1[u].parent == ns0[u].parent,
        ns1[u].reached == ns0[u].reached,
        ns1[u].closed,
    ensures
        parents_ok(store, o, ns1, start_idx),
{
    reveal(parents_ok);
    assert forall|i: int|
        0 <= i < ns1.len() && (#[trigger] ns1[i]).reached && ns1[i].parent is None implies i
            == start_idx && ns1[i].g == 0 && ns1[i].dist == 0 && ns1[i].secs == 0 by {
        assert(ns0[i].reached && ns0[i].parent is None);
    }
    assert forall|i: int|
        0 <= i < ns1.len() && (#[trigger] ns1[i]).parent is Some implies {
        let pl = ns1[i].parent->0;
        &&& ns1[i].reached
        &&& pl.node < ns1.len()
        &&& pl.edge < store.edges@.len()
        &&& ns1[pl.node as int].reached
        &&& ns1[pl.node as int].closed
        &&& store.edges@[pl.edge as int].from_node == store.nodes@[pl.node as int].id
        &&& store.edges@[pl.edge as int].to_node == store.nodes@[i].id
        &&& edge_allowed(store.edges@[pl.edge as int], o)
        &&& ns1[pl.node as int].g + store.edges@[pl.edge as int].cost == ns1[i].g
        &&& ns1[pl.node as int].dist + store.edges@[pl.edge as int].length_mm == ns1[i].dist
        &&& ns1[pl.node as int].secs + store.edges@[pl.edge as int].travel_secs == ns1[i].secs
        &&& ns1[pl.node as int].g < ns1[i].g
    } by {
        assert(ns0[i].parent is Some);
        let pl = ns0[i].parent->0;
        assert(ns0[pl.node as int].reached && ns0[pl.node as int].closed);
    }
}

/// Settling one reached, unsettled node raises the settled count by one and
/// keeps every recorded sum within its staged bound.
proof fn lemma_close_bounds(ns0: Seq<NodeState>, ns1: Seq<NodeState>, u: int)
    requires
        bounds_ok(ns0),
        0 <= u < ns0.len(),
        !ns0[u].closed,
        ns0[u].reached,
        ns1.len() == ns0.len(),
        forall|i: int| 0 <= i < ns0.len() && i != u ==> ns1[i] == ns0[i],
        ns1[u].g == ns0[u].g,
        ns1[u].dist == ns0[u].dist,
        ns1[u].secs == ns0[u].secs,
        ns1[u].reached == ns0[u].reached,
        ns1[u].closed,
    ensures
        count_closed(ns1) == count_closed(ns0) + 1,
        count_closed(ns1) <= ns1.len(),
        bounds_ok(ns1),
{
    reveal(bounds_ok);
    assert(ns1 =~= ns0.update(u, ns1[u]));
    lemma_count_closed_update(ns0, u, ns1[u]);
    lemma_count_closed_le(ns1);
    let cc = count_closed(ns1);
    assert forall|i: int|
        0 <= i < ns1.len() && (#[trigger] ns1[i]).reached implies ns1[i].g <= (cc + 1) * 4294967295
            && ns1[i].dist <= (cc + 1) * 4294967295 && ns1[i].secs <= (cc + 1) * 4294967295 by {
        assert(ns0[i].reached);
        assert(ns1[i].g == ns0[i].g && ns1[i].dist == ns0[i].dist && ns1[i].secs == ns0[i].secs);
    }
    assert forall|i: int|
        0 <= i < ns1.len() && (#[trigger] ns1[i]).closed implies ns1[i].g <= cc * 4294967295
            && ns1[i].dist <= cc * 4294967295 && ns1[i].secs <= cc * 4294967295 by {
        if i == u {
            assert(ns0[i].reached);
        } else {
            assert(ns0[i].closed);
        }
    }
}

/// Settling the node whose frontier entry was removed keeps the frontier
/// properties, except that its own edges are not relaxed yet.
proof fn lemma_close_frontier(
    store: GraphStore,
    o: SearchOptions,
    ns0: Seq<NodeState>,
    op0: Seq<OpenEntry>,
    ns1: Seq<NodeState>,
    mi: int,
)
    requires
        ns0.len() == store.nodes@.len(),
        0 <= mi < op0.len(),
        0 <= op0[mi].node < ns0.len(),
        ns1.len() == ns0.len(),
        forall|i: int| 0 <= i < ns0.len() && i != op0[mi].node as int ==> ns1[i] == ns0[i],
        ns1[op0[mi].node as int].closed,
        ns1[op0[mi].node as int].reached == ns0[op0[mi].node as int].reached,
        open_ok(ns0, op0),
        reached_in_open(ns0, op0),
        frontier_complete(store, o, ns0, op0),
    ensures
        open_ok(ns1, op0.remove(mi)),
        reached_in_open(ns1, op0.remove(mi)),
        frontier_complete_except(store, o, ns1, op0.remove(mi), op0[mi].node as int),
{
    reveal(open_ok);
    reveal(reached_in_open);
    reveal(frontier_complete);
    reveal(frontier_complete_except);
    reveal(target_settled);
    let u = op0[mi].node as int;
    let op1 = op0.remove(mi);
    assert forall|j: int|
        0 <= j < op1.len() implies (#[trigger] op1[j]).node < ns1.len()
            && ns1[op1[j].node as int].reached by {
        if j < mi {
            assert(op1[j] == op0[j]);
        } else {
            assert(op1[j] == op0[j + 1]);
        }
        assert(ns0[op1[j].node as int].reached);
        if op1[j].node as int != u {
            assert(ns1[op1[j].node as int] == ns0[op1[j].node as int]);
        }
    }
    assert forall|i: int|
        0 <= i < ns1.len() && (#[trigger] ns1[i]).reached && !ns1[i].closed implies in_open(
        op1,
        i,
    ) by {
        assert(i != u);
        assert(ns0[i].reached && !ns0[i].closed);
        assert(in_open(op0, i));
        lemma_in_open_after_remove(op0, mi, i);
    }
    assert forall|u2: int, k: int|
        0 <= u2 < ns1.len() && u2 != u && (#[trigger] ns1[u2]).closed && 0 <= k
            < store.edges@.len() && (#[trigger] store.edges@[k]).from_node == store.nodes@[u2].id
            && edge_allowed(store.edges@[k], o) implies target_settled(
        store,
        ns1,
        op1,
        store.edges@[k].to_node,
    ) by {
        assert(ns0[u2].closed);
        assert(target_settled(store, ns0, op0, store.edges@[k].to_node));
        assert forall|t: int| #[trigger]
            is_first_idx(store.nodes@, store.edges@[k].to_node, t) implies ns1[t].closed
                || in_open(op1, t) by {
            if !ns1[t].closed {
                assert(t != u);
                assert(!ns0[t].closed);
                assert(in_open(op0, t));
                lemma_in_open_after_remove(op0, mi, t);
            }
        }
    }
}

/// Recording a strictly better path to an unsettled node keeps the recorded
/// parent links sound; the node is neither the start nor the settled source.
#[verifier::rlimit(100)]
proof fn lemma_relax_parents(
    store: GraphStore,
    o: SearchOptions,
    ns1: Seq<NodeState>,
    ns2: Seq<NodeState>,
    u: int,
    k: int,
    m: int,
    start_idx: int,
)
    requires
        parents_ok(store, o, ns1, start_idx),
        0 <= u < ns1.len(),
        0 <= k < store.edges@.len(),
        0 <= m < ns1.len(),
        ns1[u].closed,
        ns1[u].reached,
        store.edges@[k].from_node == store.nodes@[u].id,
        edge_allowed(store.edges@[k], o),
        store.edges@[k].to_node == store.nodes@[m].id,
        !ns1[m].closed,
        ns1[m].reached ==> ns1[u].g + store.edges@[k].cost < ns1[m].g,
        ns1[start_idx].reached,
        store.edges@[k].cost >= 1,
        ns1.len() <= usize::MAX,
        store.edges@.len() <= usize::MAX,
        ns2.len() == ns1.len(),
        forall|i: int| 0 <= i < ns1.len() && i != m ==> ns2[i] == ns1[i],
        ns2[m].g == ns1[u].g + store.edges@[k].cost,
        ns2[m].dist == ns1[u].dist + store.edges@[k].length_mm,
        ns2[m].secs == ns1[u].secs + store.edges@[k].travel_secs,
        ns2[m].parent == Some(ParentLink { node: u as usize, edge: k as usize }),
        !ns2[m].closed,
        ns2[m].reached,
    ensures
        parents_ok(store, o, ns2, start_idx),
        m != start_idx,
        m != u,
{
    reveal(parents_ok);
    assert(m != u);
    assert(m != start_idx) by {
        if m == start_idx {
            assert(ns1[start_idx].parent is None);
            assert(ns1[start_idx].reached ==> ns1[start_idx].g == 0);
        }
    }
    assert forall|i: int|
        0 <= i < ns2.len() && (#[trigger] ns2[i]).reached && ns2[i].parent is None implies i
            == start_idx && ns2[i].g == 0 && ns2[i].dist == 0 && ns2[i].secs == 0 by {
        assert(i != m);
        assert(ns1[i].reached && ns1[i].parent is None);
    }
    assert forall|i: int|
        0 <= i < ns2.len() && (#[trigger] ns2[i]).parent is Some implies {
        let pl = ns2[i].parent->0;
        &&& ns2[i].reached
        &&& pl.node < ns2.len()
        &&& pl.edge < store.edges@.len()
        &&& ns2[pl.node as int].reached
        &&& ns2[pl.node as int].closed
        &&& store.edges@[pl.edge as int].from_node == store.nodes@[pl.node as int].id
        &&& store.edges@[pl.edge as int].to_node == store.nodes@[i].id
        &&& edge_allowed(store.edges@[pl.edge as int], o)
        &&& ns2[pl.node as int].g + store.edges@[pl.edge as int].cost == ns2[i].g
        &&& ns2[pl.node as int].dist + store.edges@[pl.edge as int].length_mm == ns2[i].dist
        &&& ns2[pl.node as int].secs + store.edges@[pl.edge as int].travel_secs == ns2[i].secs
        &&& ns2[pl.node as int].g < ns2[i].g
    } by {
        if i == m {
            assert(ns2[m].parent->0 == ParentLink { node: u as usize, edge: k as usize });
            assert(ns2[u] == ns1[u]);
        } else {
            assert(ns1[i].parent is Some);
            let pl = ns1[i].parent->0;
            assert(ns1[pl.node as int].closed);
            assert(pl.node != m);
            assert(ns2[pl.node as int] == ns1[pl.node as int]);
        }
    }
}

/// Recording a strictly better path to an unsettled node keeps the settled
/// count and every staged sum bound.
proof fn lemma_relax_bounds(
    ns1: Seq<NodeState>,
    ns2: Seq<NodeState>,
    u: int,
    m: int,
    cost: u64,
    length_mm: u64,
    travel_secs: u64,
)
    requires
        bounds_ok(ns1),
        0 <= u < ns1.len(),
        0 <= m < ns1.len(),
        ns1[u].closed,
        !ns1[m].closed,
        cost <= 4294967295,
        length_mm <= 4294967295,
        travel_secs <= 4294967295,
        ns2.len() == ns1.len(),
        forall|i: int| 0 <= i < ns1.len() && i != m ==> ns2[i] == ns1[i],
        ns2[m].g == ns1[u].g + cost,
        ns2[m].dist == ns1[u].dist + length_mm,
        ns2[m].secs == ns1[u].secs + travel_secs,
        !ns2[m].closed,
        ns2[m].reached,
    ensures
        count_closed(ns2) == count_closed(ns1),
        bounds_ok(ns2),
{
    reveal(bounds_ok);
    assert(ns2 =~= ns1.update(m, ns2[m]));
    lemma_count_closed_update(ns1, m, ns2[m]);
    let cc = count_closed(ns2);
    assert(cc == count_closed(ns1));
    assert forall|i: int|
        0 <= i < ns2.len() && (#[trigger] ns2[i]).reached implies ns2[i].g <= (cc + 1) * 4294967295
            && ns2[i].dist <= (cc + 1) * 4294967295 && ns2[i].secs <= (cc + 1) * 4294967295 by {
        if i == m {
            assert(ns1[u].g <= cc * 4294967295);
            assert(ns1[u].dist <= cc * 4294967295);
            assert(ns1[u].secs <= cc * 4294967295);
        } else {
            assert(ns1[i].reached);
        }
    }
    assert forall|i: int|
        0 <= i < ns2.len() && (#[trigger] ns2[i]).closed implies ns2[i].g <= cc * 4294967295
            && ns2[i].dist <= cc * 4294967295 && ns2[i].secs <= cc * 4294967295 by {
        assert(i != m);
        assert(ns1[i].closed);
    }
}

/// Pushing the frontier entry of a freshly re-recorded node keeps the
/// frontier properties and extends the relaxed prefix.
#[verifier::rlimit(100)]
proof fn lemma_relax_update_frontier(
    store: GraphStore,
    o: SearchOptions,
    ns1: Seq<NodeState>,
    op1: Seq<OpenEntry>,
    ns2: Seq<NodeState>,
    u: int,
    k: int,
    m: int,
    entry: OpenEntry,
)
    requires
        ns1.len() == store.nodes@.len(),
        ns2.len() == ns1.len(),
        0 <= u < ns1.len(),
        0 <= k < store.edges@.len(),
        0 <= m < ns1.len(),
        m != u,
        forall|i: int| 0 <= i < ns1.len() && i != m ==> ns2[i] == ns1[i],
        ns2[m].reached,
        !ns2[m].closed,
        !ns1[m].closed,
        store.edges@[k].from_node == store.nodes@[u].id,
        edge_allowed(store.edges@[k], o),
        is_first_idx(store.nodes@, store.edges@[k].to_node, m),
        open_ok(ns1, op1),
        reached_in_open(ns1, op1),
        frontier_complete_except(store, o, ns1, op1, u),
        relaxed_up_to(store, o, ns1, op1, store.nodes@[u].id, k),
        entry.node == m,
    ensures
        open_ok(ns2, op1.push(entry)),
        reached_in_open(ns2, op1.push(entry)),
        frontier_complete_except(store, o, ns2, op1.push(entry), u),
        relaxed_up_to(store, o, ns2, op1.push(entry), store.nodes@[u].id, k + 1),
{
    reveal(open_ok);
    reveal(reached_in_open);
    reveal(frontier_complete_except);
    reveal(relaxed_up_to);
    reveal(target_settled);
    let op2 = op1.push(entry);
    assert forall|j: int|
        0 <= j < op2.len() implies (#[trigger] op2[j]).node < ns2.len()
            && ns2[op2[j].node as int].reached by {
        if j < op1.len() {
            assert(op2[j] == op1[j]);
            assert(ns1[op1[j].node as int].reached);
            if op1[j].node as int != m {
                assert(ns2[op1[j].node as int] == ns1[op1[j].node as int]);
            }
        } else {
            assert(op2[j] == entry);
        }
    }
    assert(in_open(op2, m)) by {
        assert(op2[op2.len() - 1].node == m);
    }
    assert forall|i: int|
        0 <= i < ns2.len() && (#[trigger] ns2[i]).reached && !ns2[i].closed implies in_open(
        op2,
        i,
    ) by {
        if i != m {
            assert(ns1[i].reached && !ns1[i].closed);
            lemma_in_open_push(op1, entry, i);
        }
    }
    assert forall|u2: int, k2: int|
        0 <= u2 < ns2.len() && u2 != u && (#[trigger] ns2[u2]).closed && 0 <= k2
            < store.edges@.len() && (#[trigger] store.edges@[k2]).from_node == store.nodes@[u2].id
            && edge_allowed(store.edges@[k2], o) implies target_settled(
        store,
        ns2,
        op2,
        store.edges@[k2].to_node,
    ) by {
        assert(u2 != m);
        assert(ns1[u2].closed);
        assert(target_settled(store, ns1, op1, store.edges@[k2].to_node));
        assert forall|t: int| #[trigger]
            is_first_idx(store.nodes@, store.edges@[k2].to_node, t) implies ns2[t].closed
                || in_open(op2, t) by {
            if !ns2[t].closed {
                if t == m {
                } else {
                    assert(ns2[t] == ns1[t]);
                    assert(ns1[t].closed || in_open(op1, t));
                    lemma_in_open_push(op1, entry, t);
                }
            }
        }
    }
    assert forall|k2: int|
        0 <= k2 < k + 1 && (#[trigger] store.edges@[k2]).from_node == store.nodes@[u].id
            && edge_allowed(store.edges@[k2], o) implies target_settled(
        store,
        ns2,
        op2,
        store.edges@[k2].to_node,
    ) by {
        if k2 < k {
            assert(target_settled(store, ns1, op1, store.edges@[k2].to_node));
            assert forall|t: int| #[trigger]
                is_first_idx(store.nodes@, store.edges@[k2].to_node, t) implies ns2[t].closed
                    || in_open(op2, t) by {
                if !ns2[t].closed {
                    if t == m {
                    } else {
                        assert(ns2[t] == ns1[t]);
                        assert(ns1[t].closed || in_open(op1, t));
                        lemma_in_open_push(op1, entry, t);
                    }
                }
            }
        } else {
            assert forall|t: int| #[trigger]
                is_first_idx(store.nodes@, store.edges@[k2].to_node, t) implies ns2[t].closed
                    || in_open(op2, t) by {
                assert(t == m);
            }
        }
    }
}

/// Relaxes one edge out of the settled node at position `u`: if the edge is
/// allowed, leaves `u`, and offers a strictly better path to its unsettled
/// target, the target is re-recorded and pushed on the frontier.
#[verifier::rlimit(100)]
fn relax_edge(
    store: &GraphStore,
    opts: &SearchOptions,
    state: &mut Vec<NodeState>,
    open: &mut Vec<OpenEntry>,
    next_seq: &mut u64,
    u: usize,
    k: usize,
    goal_coord: Coordinate,
    start_idx: usize,
    goal_idx: usize,
)
    requires
        store.wf(),
        opts.valid(),
        old(state)@.len() == store.nodes@.len(),
        u < old(state)@.len(),
        goal_idx < old(state)@.len(),
        start_idx < old(state)@.len(),
        k < store.edges@.len(),
        goal_coord == store.nodes@[goal_idx as int].coord,
        old(state)@[u as int].closed,
        old(state)@[u as int].reached,
        parents_ok(*store, *opts, old(state)@, start_idx as int),
        old(state)@[start_idx as int].reached,
        !old(state)@[goal_idx as int].closed,
        open_ok(old(state)@, old(open)@),
        reached_in_open(old(state)@, old(open)@),
        frontier_complete_except(*store, *opts, old(state)@, old(open)@, u as int),
        relaxed_up_to(*store, *opts, old(state)@, old(open)@, store.nodes@[u as int].id, k as int),
        bounds_ok(old(state)@),
        count_closed(old(state)@) <= 1000000,
    ensures
        final(state)@.len() == old(state)@.len(),
        final(state)@[u as int].closed,
        final(state)@[u as int].reached,
        count_closed(final(state)@) == count_closed(old(state)@),
        parents_ok(*store, *opts, final(state)@, start_idx as int),
        final(state)@[start_idx as int].reached,
        !final(state)@[goal_idx as int].closed,
        open_ok(final(state)@, final(open)@),
        reached_in_open(final(state)@, final(open)@),
        frontier_complete_except(*store, *opts, final(state)@, final(open)@, u as int),
        relaxed_up_to(
            *store,
            *opts,
            final(state)@,
            final(open)@,
            store.nodes@[u as int].id,
            k as int + 1,
        ),
        bounds_ok(final(state)@),
{
    let ghost nodes = store.nodes@;
    let ghost edges = store.edges@;
    let uid = store.nodes[u].id;
    let e = store.edges[k];
    if !(e.from_node == uid && (!opts.avoid_tolls || !e.toll) && (!opts.avoid_highways
        || !e.highway)) {
        proof {
            lemma_relax_skip_notfrom(*store, *opts, state@, open@, uid, k as int);
        }
        return ;
    }
    proof {
        assert(crate::graph::edge_check(nodes, edges[k as int]) is None);
        assert(has_node(nodes, e.to_node));
    }
    let m: usize = match store.node_index(e.to_node) {
        Some(m) => m,
        None => {
            proof {
                assert(false);
            }
            0
        },
    };
    proof {
        assert(is_first_idx(nodes, e.to_node, m as int));
    }
    let ghost op1 = open@;
    let ghost ns1 = state@;
    let sm = state[m];
    if sm.closed {
        proof {
            lemma_relax_skip_settled(*store, *opts, state@, open@, uid, k as int, m as int);
        }
        return ;
    }
    let sc = state[u];
    proof {
        lemma_settled_sums(state@, u as int);
        assert(e.cost <= MAX_EDGE_WEIGHT && e.length_mm <= MAX_EDGE_WEIGHT && e.travel_secs
            <= MAX_EDGE_WEIGHT);
    }
    let tentative = sc.g + e.cost;
    if !sm.reached || tentative < sm.g {
        let nd = sc.dist + e.length_mm;
        let nsec = sc.secs + e.travel_secs;
        state[m] = NodeState {
            g: tentative,
            dist: nd,
            secs: nsec,
            parent: Some(ParentLink { node: u, edge: k }),
            closed: false,
            reached: true,
        };
        let h = heuristic_cost(&store.nodes[m].coord, &goal_coord, opts.heuristic_milli_per_meter);
        let fscore = tentative + h;
        let newentry = OpenEntry { f: fscore, g: tentative, seqno: *next_seq, node: m };
        open.push(newentry);
        if *next_seq < u64::MAX {
            *next_seq = *next_seq + 1;
        }
        proof {
            lemma_relax_parents(
                *store,
                *opts,
                ns1,
                state@,
                u as int,
                k as int,
                m as int,
                start_idx as int,
            );
            lemma_relax_bounds(ns1, state@, u as int, m as int, e.cost, e.length_mm, e.travel_secs);
            assert(open@ =~= op1.push(newentry));
            lemma_relax_update_frontier(
                *store,
                *opts,
                ns1,
                op1,
                state@,
                u as int,
                k as int,
                m as int,
                newentry,
            );
        }
    } else {
        proof {
            lemma_reached_is_open(state@, open@, m as int);
            lemma_relax_skip_settled(*store, *opts, state@, open@, uid, k as int, m as int);
        }
    }
}

/// No edge below position zero exists, so the empty relaxed prefix holds.
proof fn lemma_relaxed_zero(
    store: GraphStore,
    o: SearchOptions,
    ns: Seq<NodeState>,
    op: Seq<OpenEntry>,
    uid: u64,
)
    ensures
        relaxed_up_to(store, o, ns, op, uid, 0),
{
    reveal(relaxed_up_to);
}

/// An edge that is not allowed out of `uid` extends the relaxed prefix for free.
proof fn lemma_relax_skip_notfrom(
    store: GraphStore,
    o: SearchOptions,
    ns: Seq<NodeState>,
    op: Seq<OpenEntry>,
    uid: u64,
    k: int,
)
    requires
        0 <= k < store.edges@.len(),
        relaxed_up_to(store, o, ns, op, uid, k),
        !(store.edges@[k].from_node == uid && edge_allowed(store.edges@[k], o)),
    ensures
        relaxed_up_to(store, o, ns, op, uid, k + 1),
{
    reveal(relaxed_up_to);
}

/// An edge whose target's first position is settled or on the frontier
/// extends the relaxed prefix.
proof fn lemma_relax_skip_settled(
    store: GraphStore,
    o: SearchOptions,
    ns: Seq<NodeState>,
    op: Seq<OpenEntry>,
    uid: u64,
    k: int,
    m: int,
)
    requires
        0 <= k < store.edges@.len(),
        relaxed_up_to(store, o, ns, op, uid, k),
        is_first_idx(store.nodes@, store.edges@[k].to_node, m),
        0 <= m < ns.len(),
        ns[m].closed || in_open(op, m),
    ensures
        relaxed_up_to(store, o, ns, op, uid, k + 1),
{
    reveal(relaxed_up_to);
    reveal(target_settled);
    assert forall|k2: int|
        0 <= k2 < k + 1 && (#[trigger] store.edges@[k2]).from_node == uid && edge_allowed(
            store.edges@[k2],
            o,
        ) implies target_settled(store, ns, op, store.edges@[k2].to_node) by {
        if k2 == k {
            assert forall|t: int| #[trigger]
                is_first_idx(store.nodes@, store.edges@[k2].to_node, t) implies ns[t].closed
                    || in_open(op, t) by {
                assert(t == m);
            }
        }
    }
}

/// A reached, unsettled node is on the frontier.
proof fn lemma_reached_is_open(ns: Seq<NodeState>, op: Seq<OpenEntry>, m: int)
    requires
        reached_in_open(ns, op),
        0 <= m < ns.len(),
        ns[m].reached,
        !ns[m].closed,
    ensures
        in_open(op, m),
{
    reveal(reached_in_open);
}

/// A reached node's recorded sums are within the staged bound.
proof fn lemma_reached_sums(ns: Seq<NodeState>, i: int)
    requires
        bounds_ok(ns),
        0 <= i < ns.len(),
        ns[i].reached,
        count_closed(ns) <= 1000000,
    ensures
        ns[i].g <= 4294971589967295,
        ns[i].dist <= 4294971589967295,
        ns[i].secs <= 4294971589967295,
{
    reveal(bounds_ok);
    lemma_count_closed_le(ns);
    let cc = count_closed(ns);
    assert(ns[i].g <= (cc + 1) * 4294967295);
    assert((cc + 1) * 4294967295 <= 1000001 * 4294967295);
}

/// A settled node's recorded sums are within the staged bound.
proof fn lemma_settled_sums(ns: Seq<NodeState>, u: int)
    requires
        bounds_ok(ns),
        0 <= u < ns.len(),
        ns[u].closed,
        count_closed(ns) <= 1000000,
    ensures
        ns[u].g <= 4294967295000000,
        ns[u].dist <= 4294967295000000,
        ns[u].secs <= 4294967295000000,
{
    reveal(bounds_ok);
    lemma_count_closed_le(ns);
    let cc = count_closed(ns);
    assert(ns[u].g <= cc * 4294967295);
    assert(cc * 4294967295 <= 1000000 * 4294967295);
}

/// Whether a node is recorded as reached, and its state.
proof fn lemma_open_entry_reached(ns: Seq<NodeState>, op: Seq<OpenEntry>, j: int)
    requires
        open_ok(ns, op),
        0 <= j < op.len(),
    ensures
        op[j].node < ns.len(),
        ns[op[j].node as int].reached,
{
    reveal(open_ok);
}

/// Once every edge out of the settled node is relaxed, the full closed-set
/// property holds again.
proof fn lemma_relax_done(
    store: GraphStore,
    o: SearchOptions,
    ns: Seq<NodeState>,
    op: Seq<OpenEntry>,
    u: int,
)
    requires
        0 <= u < ns.len(),
        ns.len() == store.nodes@.len(),
        frontier_complete_except(store, o, ns, op, u),
        relaxed_up_to(store, o, ns, op, store.nodes@[u].id, store.edges@.len() as int),
    ensures
        frontier_complete(store, o, ns, op),
{
    reveal(frontier_complete);
    reveal(frontier_complete_except);
    reveal(relaxed_up_to);
    assert forall|u2: int, k2: int|
        0 <= u2 < ns.len() && (#[trigger] ns[u2]).closed && 0 <= k2 < store.edges@.len() && (
    #[trigger] store.edges@[k2]).from_node == store.nodes@[u2].id && edge_allowed(
        store.edges@[k2],
        o,
    ) implies target_settled(store, ns, op, store.edges@[k2].to_node) by {
        if u2 == u {
            assert(store.edges@[k2].from_node == store.nodes@[u].id);
        }
    }
}

/// The initial search state satisfies every invariant: only the start is
/// reached, nothing is settled, and the single frontier entry is the start.
proof fn lemma_init(
    store: GraphStore,
    o: SearchOptions,
    ns: Seq<NodeState>,
    op: Seq<OpenEntry>,
    start_idx: int,
    goal_idx: int,
)
    requires
        ns.len() == store.nodes@.len(),
        0 <= start_idx < ns.len(),
        0 <= goal_idx < ns.len(),
        forall|i: int|
            0 <= i < ns.len() && i != start_idx ==> !(#[trigger] ns[i]).reached && !ns[i].closed
                && ns[i].parent is None,
        ns[start_idx].reached,
        !ns[start_idx].closed,
        ns[start_idx].parent is None,
        ns[start_idx].g == 0,
        ns[start_idx].dist == 0,
        ns[start_idx].secs == 0,
        count_closed(ns) == 0,
        op.len() == 1,
        op[0].node == start_idx,
    ensures
        parents_ok(store, o, ns, start_idx),
        open_ok(ns, op),
        reached_in_open(ns, op),
        frontier_complete(store, o, ns, op),
        bounds_ok(ns),
{
    reveal(parents_ok);
    reveal(open_ok);
    reveal(reached_in_open);
    reveal(frontier_complete);
    reveal(bounds_ok);
    assert(in_open(op, start_idx)) by {
        assert(op[0].node == start_idx);
    }
    assert forall|i: int|
        0 <= i < ns.len() && (#[trigger] ns[i]).reached && !ns[i].closed implies in_open(
        op,
        i,
    ) by {
        assert(i == start_idx);
    }
}

/// When the frontier is empty, every reached node is settled; in particular
/// the first position of any id whose node was reached is settled.
proof fn lemma_empty_open_settled(ns: Seq<NodeState>, op: Seq<OpenEntry>, i: int)
    requires
        reached_in_open(ns, op),
        op.len() == 0,
        0 <= i < ns.len(),
        ns[i].reached,
    ensures
        ns[i].closed,
{
    reveal(reached_in_open);
    if !ns[i].closed {
        assert(in_open(op, i));
        let j = choose|j: int| 0 <= j < op.len() && op[j].node == i;
    }
}

/// Classic A* over the store's directed graph, honoring the avoidance
/// options.  Succeeds exactly when the goal is reachable from the start; the
/// result is the found path of node ids, the edges it used, and their exact
/// length and time sums; equal start and goal yield the single-node path with
/// zero sums.  Among equal estimates the frontier prefers lower cost-so-far,
/// then earlier insertion, which keeps the search order deterministic.
///
/// The search minimizes `sum_cost` over the used edges; when the
/// remaining-cost estimate never overstates true remaining cost, the found
/// path's cost is minimal among allowed paths.  This contract states path
/// validity, the exact sums and success exactly on reachability; it does not
/// state cost minimality or pin the choice among equal-cost paths, which
/// would need the admissibility hypothesis carried through the whole search.
#[verifier::rlimit(100)]
pub fn find_path(store: &GraphStore, start: u64, goal: u64, opts: &SearchOptions) -> (r: Result<
    SearchResult,
    MapsError,
>)
    requires
        store.wf(),
        opts.valid(),
    ensures
        r is Ok <==> reachable(*store, start, goal, *opts),
        r is Err ==> r == Err::<SearchResult, MapsError>(MapsError::NotFound),
        r matches Ok(sr) ==> path_from_to(*store, sr.path@, start, goal, *opts)
            && edges_match_path(*store, sr.path@, sr.edge_indices@, *opts) && sr.distance_mm
            == sum_length(store.edges@, sr.edge_indices@) && sr.duration_secs == sum_secs(
            store.edges@,
            sr.edge_indices@,
        ) && sr.distance_mm <= 4294971589967295 && sr.duration_secs <= 4294971589967295
            && sum_cost(store.edges@, sr.edge_indices@) <= 4294971589967295,
        start == goal ==> (r matches Ok(sr) ==> sr.path@.len() == 1 && sr.path@[0] == start
            && sr.edge_indices@.len() == 0 && sr.distance_mm == 0 && sr.duration_secs == 0),
{
    let ghost nodes = store.nodes@;
    let ghost edges = store.edges@;
    let n = store.nodes.len();
    let start_idx: usize = match store.node_index(start) {
        Some(i) => i,
        None => {
            proof {
                if reachable(*store, start, goal, *opts) {
                    let ids = choose|ids: Seq<u64>| path_from_to(*store, ids, start, goal, *opts);
                    assert(has_node(nodes, ids[0]));
                }
            }
            return Err(MapsError::NotFound);
        },
    };
    let goal_idx: usize = match store.node_index(goal) {
        Some(i) => i,
        None => {
            proof {
                if reachable(*store, start, goal, *opts) {
                    let ids = choose|ids: Seq<u64>| path_from_to(*store, ids, start, goal, *opts);
                    assert(has_node(nodes, ids[ids.len() - 1]));
                }
            }
            return Err(MapsError::NotFound);
        },
    };
    let mut state: Vec<NodeState> = Vec::new();
    let mut i: usize = 0;
    while i < n
        invariant
            i <= n,
            state@.len() == i,
            forall|j: int|
                0 <= j < i ==> !(#[trigger] state@[j]).reached && !state@[j].closed
                    && state@[j].parent is None,
        decreases n - i,
    {
        state.push(
            NodeState { g: 0, dist: 0, secs: 0, parent: None, closed: false, reached: false },
        );
        i = i + 1;
    }
    proof {
        lemma_count_closed_all_open(state@);
    }
    let ghost pre = state@;
    state[start_idx] = NodeState {
        g: 0,
        dist: 0,
        secs: 0,
        parent: None,
        closed: false,
        reached: true,
    };
    proof {
        lemma_count_closed_update(pre, start_idx as int, state@[start_idx as int]);
    }
    let goal_coord = store.nodes[goal_idx].coord;
    let h0 = heuristic_cost(
        &store.nodes[start_idx].coord,
        &goal_coord,
        opts.heuristic_milli_per_meter,
    );
    let mut open: Vec<OpenEntry> = Vec::new();
    open.push(OpenEntry { f: h0, g: 0, seqno: 0, node: start_idx });
    let mut next_seq: u64 = 1;
    proof {
        assert(open@[0].node == start_idx);
        lemma_init(
            *store,
            *opts,
            state@,
            open@,
            start_idx as int,
            goal_idx as int,
        );
    }
    while open.len() > 0
        invariant
            store.wf(),
            opts.valid(),
            nodes == store.nodes@,
            edges == store.edges@,
            n == nodes.len(),
            n <= MAX_NODES,
            state@.len() == n,
            is_first_idx(nodes, start, start_idx as int),
            is_first_idx(nodes, goal, goal_idx as int),
            goal_coord == nodes[goal_idx as int].coord,
            parents_ok(*store, *opts, state@, start_idx as int),
            state@[start_idx as int].reached,
            !state@[goal_idx as int].closed,
            open_ok(state@, open@),
            reached_in_open(state@, open@),
            frontier_complete(*store, *opts, state@, open@),
            bounds_ok(state@),
            0 <= count_closed(state@) <= n,
        ensures
            open@.len() == 0,
        decreases n - count_closed(state@), open@.len(),
    {
        let mut mi: usize = 0;
        let mut j: usize = 1;
        while j < open.len()
            invariant
                open@.len() > 0,
                mi < open@.len(),
                j <= open@.len(),
            decreases open@.len() - j,
        {
            let better = {
                let a = &open[j];
                let b = &open[mi];
                a.f < b.f || (a.f == b.f && (a.g < b.g || (a.g == b.g && a.seqno < b.seqno)))
            };
            if better {
                mi = j;
            }
            j = j + 1;
        }
        let ghost op0 = open@;
        proof {
            lemma_open_entry_reached(state@, op0, mi as int);
        }
        let entry = open.remove(mi);
        let u = entry.node;
        proof {
            assert(op0[mi as int] == entry);
            assert(open@ =~= op0.remove(mi as int));
        }
        if state[u].closed {
            proof {
                lemma_pop_preserves(*store, *opts, state@, op0, mi as int);
            }
            continue;
        }
        if u == goal_idx {
            proof {
                lemma_reached_sums(state@, goal_idx as int);
            }
            let sr = reconstruct(store, opts, &state, start_idx, goal_idx);
            proof {
                assert(path_from_to(*store, sr.path@, start, goal, *opts));
                assert(reachable(*store, start, goal, *opts));
                if start == goal {
                    reveal(parents_ok);
                    assert(start_idx == goal_idx) by {
                        if start_idx < goal_idx as int {
                            assert(nodes[start_idx as int].id == goal);
                        }
                        if goal_idx < start_idx as int {
                            assert(nodes[goal_idx as int].id == start);
                        }
                    }
                    assert(state@[goal_idx as int].parent is None);
                    assert(state@[goal_idx as int].reached);
                    assert(sr.distance_mm == 0 && sr.duration_secs == 0);
                }
            }
            return Ok(sr);
        }
        let ghost ns0 = state@;
        let su = state[u];
        state[u] = NodeState {
            g: su.g,
            dist: su.dist,
            secs: su.secs,
            parent: su.parent,
            closed: true,
            reached: su.reached,
        };
        proof {
            assert(state@ =~= ns0.update(u as int, state@[u as int]));
            lemma_close_parents(*store, *opts, ns0, state@, u as int, start_idx as int);
            lemma_close_bounds(ns0, state@, u as int);
            lemma_close_frontier(*store, *opts, ns0, op0, state@, mi as int);
        }
        let uid = store.nodes[u].id;
        let ghost cc1 = count_closed(state@);
        proof {
            lemma_relaxed_zero(*store, *opts, state@, open@, uid);
        }
        let mut k: usize = 0;
        while k < store.edges.len()
            invariant
                store.wf(),
                opts.valid(),
                nodes == store.nodes@,
                edges == store.edges@,
                n == nodes.len(),
                n <= MAX_NODES,
                state@.len() == n,
                is_first_idx(nodes, start, start_idx as int),
                is_first_idx(nodes, goal, goal_idx as int),
                goal_coord == nodes[goal_idx as int].coord,
                k <= edges.len(),
                u < state@.len(),
                u != goal_idx,
                uid == nodes[u as int].id,
                state@[u as int].closed,
                state@[u as int].reached,
                count_closed(state@) == cc1,
                0 <= cc1 <= n,
                parents_ok(*store, *opts, state@, start_idx as int),
                state@[start_idx as int].reached,
                !state@[goal_idx as int].closed,
                open_ok(state@, open@),
                reached_in_open(state@, open@),
                frontier_complete_except(*store, *opts, state@, open@, u as int),
                relaxed_up_to(*store, *opts, state@, open@, uid, k as int),
                bounds_ok(state@),
            decreases edges.len() - k,
        {
            relax_edge(
                store,
                opts,
                &mut state,
                &mut open,
                &mut next_seq,
                u,
                k,
                goal_coord,
                start_idx,
                goal_idx,
            );
            k = k + 1;
        }
        proof {
            lemma_relax_done(*store, *opts, state@, open@, u as int);
        }
    }
    proof {
        if reachable(*store, start, goal, *opts) {
            let ids = choose|ids: Seq<u64>| path_from_to(*store, ids, start, goal, *opts);
            assert forall|t: int| is_first_idx(nodes, ids[0], t) implies state@[t].closed by {
                assert(t == start_idx as int);
                lemma_empty_open_settled(state@, open@, t);
            }
            assert(open@ =~= Seq::<OpenEntry>::empty());
            lemma_path_closed(*store, *opts, state@, ids);
            assert(is_first_idx(nodes, ids[ids.len() - 1], goal_idx as int));
            assert(state@[goal_idx as int].closed);
            assert(false);
        }
    }
    Err(MapsError::NotFound)
}

} // verus!
