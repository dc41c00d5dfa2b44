//! The directed graph under the entity hierarchy, the scene and the order of systems.
//!
//! The graph itself is petgraph's `StableGraph`; the items below state what its methods do to
//! the nodes and edges it holds. Node weights are 64-bit values (entities in their 64-bit form,
//! where the graph holds entities); edges carry no weight. Indices are `u32`, the graph's index
//! type.
use vstd::prelude::*;

use petgraph::stable_graph::{EdgeIndex, NodeIndex, StableGraph};
use petgraph::visit::{Bfs, EdgeRef, Walker};
use petgraph::{Directed, Direction};

verus! {

#[verifier::external_type_specification]
#[verifier::external_body]
#[verifier::reject_recursive_types(N)]
#[verifier::reject_recursive_types(E)]
#[verifier::reject_recursive_types(Ty)]
#[verifier::reject_recursive_types(Ix)]
pub struct ExStableGraph<N, E, Ty, Ix>(StableGraph<N, E, Ty, Ix>);

#[verifier::external_type_specification]
#[verifier::external_body]
pub struct ExDirected(Directed);

/// A directed graph with 64-bit node weights.
pub type RelationGraph = StableGraph<u64, (), Directed, u32>;

/// The live nodes of a graph: each node index it holds, with the node's weight.
pub uninterp spec fn graph_nodes(g: RelationGraph) -> Map<nat, u64>;

/// The live edges of a graph: each edge index it holds, with the edge's source and target.
pub uninterp spec fn graph_edges(g: RelationGraph) -> Map<nat, (nat, nat)>;

/// The number of node slots of a graph: its live nodes and the vacancies that removals left.
/// A new node takes a vacancy or the next slot.
pub uninterp spec fn graph_node_slots(g: RelationGraph) -> nat;

/// The number of edge slots of a graph, live or vacant.
pub uninterp spec fn graph_edge_slots(g: RelationGraph) -> nat;

/// There is an edge from `a` to `b`.
pub open spec fn has_edge(edges: Map<nat, (nat, nat)>, a: nat, b: nat) -> bool {
    exists|e: nat| #[trigger] edges.contains_key(e) && edges[e] == (a, b)
}

/// No edge reaches node `n`.
pub open spec fn no_incoming(edges: Map<nat, (nat, nat)>, n: nat) -> bool {
    forall|x: nat| !has_edge(edges, x, n)
}

/// There is an edge between `a` and `b`: from `a` to `b` when `outgoing`, else from `b` to `a`.
pub open spec fn has_edge_dir(edges: Map<nat, (nat, nat)>, a: nat, b: nat, outgoing: bool) -> bool {
    if outgoing {
        has_edge(edges, a, b)
    } else {
        has_edge(edges, b, a)
    }
}

/// Two distinct edges join `a` and `b` in the given direction.
pub open spec fn parallel_edges(edges: Map<nat, (nat, nat)>, a: nat, b: nat, outgoing: bool) -> bool {
    let pair = if outgoing { (a, b) } else { (b, a) };
    exists|e1: nat, e2: nat|
        #![trigger edges.contains_key(e1), edges.contains_key(e2)]
        e1 != e2 && edges.contains_key(e1) && edges.contains_key(e2) && edges[e1] == pair
            && edges[e2] == pair
}

/// What every graph satisfies: edges join live nodes, and indices lie below the slot counts.
pub open spec fn graph_inv(g: RelationGraph) -> bool {
    &&& graph_nodes(g).dom().finite()
    &&& graph_edges(g).dom().finite()
    &&& forall|e: nat| #[trigger]
        graph_edges(g).contains_key(e) ==> {
            &&& graph_nodes(g).contains_key(graph_edges(g)[e].0)
            &&& graph_nodes(g).contains_key(graph_edges(g)[e].1)
            &&& e < graph_edge_slots(g)
        }
    &&& forall|n: nat| #[trigger] graph_nodes(g).contains_key(n) ==> n < graph_node_slots(g)
    &&& graph_node_slots(g) <= u32::MAX
    &&& graph_edge_slots(g) <= u32::MAX
}

/// The edges of `edges` that do not touch node `a`.
pub open spec fn edges_without(edges: Map<nat, (nat, nat)>, a: nat) -> Map<nat, (nat, nat)> {
    edges.restrict(edges.dom().filter(|e: nat| edges[e].0 != a && edges[e].1 != a))
}

/// `StableGraph::new`: an empty graph with no slots.
#[verifier::external_body]
pub(crate) fn graph_new() -> (r: RelationGraph)
    ensures
        graph_nodes(r).is_empty(),
        graph_edges(r).is_empty(),
        graph_node_slots(r) == 0,
        graph_edge_slots(r) == 0,
{
    StableGraph::new()
}

/// `<StableGraph as Clone>::clone`: a graph with the same nodes, edges and slots.
#[verifier::external_body]
pub(crate) fn graph_clone(g: &RelationGraph) -> (r: RelationGraph)
    ensures
        graph_nodes(r) == graph_nodes(*g),
        graph_edges(r) == graph_edges(*g),
        graph_node_slots(r) == graph_node_slots(*g),
        graph_edge_slots(r) == graph_edge_slots(*g),
{
    g.clone()
}

/// `StableGraph::add_node`: the weight goes to a vacant slot, or to a new slot at the end.
/// The graph panics when that new slot's index would be `u32::MAX`; `requires` leaves that out.
#[verifier::external_body]
pub(crate) fn graph_add_node(g: &mut RelationGraph, weight: u64) -> (idx: u32)
    requires
        graph_node_slots(*old(g)) < u32::MAX,
    ensures
        !graph_nodes(*old(g)).contains_key(idx as nat),
        graph_nodes(*final(g)) == graph_nodes(*old(g)).insert(idx as nat, weight),
        graph_edges(*final(g)) == graph_edges(*old(g)),
        (idx as nat) < graph_node_slots(*final(g)),
        graph_node_slots(*old(g)) <= graph_node_slots(*final(g)) <= graph_node_slots(*old(g)) + 1,
        graph_edge_slots(*final(g)) == graph_edge_slots(*old(g)),
{
    g.add_node(weight).index() as u32
}

/// `StableGraph::add_edge`: a new edge from `a` to `b` in a vacant slot or a new one. The graph
/// panics when `a` or `b` is not a live node, or when the new slot's index would be `u32::MAX`.
#[verifier::external_body]
pub(crate) fn graph_add_edge(g: &mut RelationGraph, a: u32, b: u32) -> (e: u32)
    requires
        graph_nodes(*old(g)).contains_key(a as nat),
        graph_nodes(*old(g)).contains_key(b as nat),
        graph_edge_slots(*old(g)) < u32::MAX,
    ensures
        !graph_edges(*old(g)).contains_key(e as nat),
        graph_edges(*final(g)) == graph_edges(*old(g)).insert(e as nat, (a as nat, b as nat)),
        graph_nodes(*final(g)) == graph_nodes(*old(g)),
        (e as nat) < graph_edge_slots(*final(g)),
        graph_edge_slots(*old(g)) <= graph_edge_slots(*final(g)) <= graph_edge_slots(*old(g)) + 1,
        graph_node_slots(*final(g)) == graph_node_slots(*old(g)),
{
    g.add_edge(NodeIndex::new(a as usize), NodeIndex::new(b as usize), ()).index() as u32
}

/// `StableGraph::remove_edge`: the edge is removed if it is live; its slot becomes vacant.
#[verifier::external_body]
pub(crate) fn graph_remove_edge(g: &mut RelationGraph, e: u32) -> (removed: bool)
    ensures
        removed == graph_edges(*old(g)).contains_key(e as nat),
        graph_edges(*final(g)) == graph_edges(*old(g)).remove(e as nat),
        graph_nodes(*final(g)) == graph_nodes(*old(g)),
        graph_node_slots(*final(g)) == graph_node_slots(*old(g)),
        graph_edge_slots(*final(g)) == graph_edge_slots(*old(g)),
{
    g.remove_edge(EdgeIndex::new(e as usize)).is_some()
}

/// `StableGraph::remove_node`: the node is removed if it is live, with every edge from or to it.
#[verifier::external_body]
pub(crate) fn graph_remove_node(g: &mut RelationGraph, a: u32) -> (removed: bool)
    ensures
        removed == graph_nodes(*old(g)).contains_key(a as nat),
        graph_nodes(*final(g)) == graph_nodes(*old(g)).remove(a as nat),
        graph_edges(*final(g)) == edges_without(graph_edges(*old(g)), a as nat),
        graph_node_slots(*final(g)) == graph_node_slots(*old(g)),
        graph_edge_slots(*final(g)) == graph_edge_slots(*old(g)),
{
    g.remove_node(NodeIndex::new(a as usize)).is_some()
}

/// `StableGraph::contains_edge`: whether an edge goes from `a` to `b`.
#[verifier::external_body]
pub(crate) fn graph_contains_edge(g: &RelationGraph, a: u32, b: u32) -> (r: bool)
    ensures
        r == has_edge(graph_edges(*g), a as nat, b as nat),
{
    g.contains_edge(NodeIndex::new(a as usize), NodeIndex::new(b as usize))
}

/// `StableGraph::edges_connecting`: the edges from `a` to `b`, each once.
#[verifier::external_body]
pub(crate) fn graph_edges_connecting(g: &RelationGraph, a: u32, b: u32) -> (r: Vec<u32>)
    ensures
        r@.no_duplicates(),
        forall|i: int|
            0 <= i < r.len() ==> {
                &&& #[trigger] graph_edges(*g).contains_key(r[i] as nat)
                &&& graph_edges(*g)[r[i] as nat] == (a as nat, b as nat)
            },
        forall|e: nat|
            #[trigger] graph_edges(*g).contains_key(e) && graph_edges(*g)[e] == (a as nat, b as nat)
                ==> exists|i: int| 0 <= i < r.len() && r[i] == e,
{
    g.edges_connecting(NodeIndex::new(a as usize), NodeIndex::new(b as usize)).map(
        |edge| edge.id().index() as u32,
    ).collect()
}

/// `StableGraph::edges` on a directed graph: the edges that leave `a`, each once.
#[verifier::external_body]
pub(crate) fn graph_edges_from(g: &RelationGraph, a: u32) -> (r: Vec<u32>)
    ensures
        r@.no_duplicates(),
        forall|i: int|
            0 <= i < r.len() ==> {
                &&& #[trigger] graph_edges(*g).contains_key(r[i] as nat)
                &&& graph_edges(*g)[r[i] as nat].0 == a
            },
        forall|e: nat|
            #[trigger] graph_edges(*g).contains_key(e) && graph_edges(*g)[e].0 == a
                ==> exists|i: int| 0 <= i < r.len() && r[i] == e,
{
    g.edges(NodeIndex::new(a as usize)).map(|edge| edge.id().index() as u32).collect()
}

/// `StableGraph::neighbors_directed`: the nodes at the other end of the edges that leave `a`
/// (`outgoing`) or reach it. Each edge yields its node once, so a node is listed twice only
/// when two edges join it to `a`.
#[verifier::external_body]
pub(crate) fn graph_neighbors(g: &RelationGraph, a: u32, outgoing: bool) -> (r: Vec<u32>)
    ensures
        forall|i: int|
            #![trigger r[i]]
            0 <= i < r.len() ==> has_edge_dir(graph_edges(*g), a as nat, r[i] as nat, outgoing),
        forall|b: nat|
            has_edge_dir(graph_edges(*g), a as nat, b, outgoing) ==> exists|i: int|
                #![trigger r[i]]
                0 <= i < r.len() && r[i] as nat == b,
        forall|i: int, j: int|
            #![trigger r[i], r[j]]
            0 <= i < j < r.len() && r[i] == r[j] ==> parallel_edges(
                graph_edges(*g),
                a as nat,
                r[i] as nat,
                outgoing,
            ),
{
    let dir = match outgoing {
        true => Direction::Outgoing,
        false => Direction::Incoming,
    };
    g.neighbors_directed(NodeIndex::new(a as usize), dir).map(|n| n.index() as u32).collect()
}

/// `StableGraph::node_indices`: the live node indices, in increasing order.
#[verifier::external_body]
pub(crate) fn graph_node_indices(g: &RelationGraph) -> (r: Vec<u32>)
    ensures
        forall|i: int, j: int| 0 <= i < j < r.len() ==> r[i] < r[j],
        forall|i: int| 0 <= i < r.len() ==> graph_nodes(*g).contains_key(#[trigger] r[i] as nat),
        forall|n: nat|
            #[trigger] graph_nodes(*g).contains_key(n) ==> exists|i: int|
                0 <= i < r.len() && r[i] == n,
{
    g.node_indices().map(|n| n.index() as u32).collect()
}


/// `StableGraph::find_edge`: an edge from `a` to `b`, if there is one.
#[verifier::external_body]
pub(crate) fn graph_find_edge(g: &RelationGraph, a: u32, b: u32) -> (r: Option<u32>)
    ensures
        r is None <==> !has_edge(graph_edges(*g), a as nat, b as nat),
        r matches Some(e) ==> graph_edges(*g).contains_key(e as nat) && graph_edges(*g)[e as nat] == (
            a as nat,
            b as nat,
        ),
{
    g.find_edge(NodeIndex::new(a as usize), NodeIndex::new(b as usize)).map(|e| e.index() as u32)
}

/// `<StableGraph as Index<NodeIndex>>::index`: the weight of a live node. It panics on a node
/// that is not live; `requires` leaves that out.
#[verifier::external_body]
pub(crate) fn graph_node_weight(g: &RelationGraph, a: u32) -> (r: u64)
    requires
        graph_nodes(*g).contains_key(a as nat),
    ensures
        r == graph_nodes(*g)[a as nat],
{
    g[NodeIndex::new(a as usize)]
}

/// `StableGraph::edges_directed` on a directed graph: the edges that leave `a` (`outgoing`)
/// or reach it, each once.
#[verifier::external_body]
pub(crate) fn graph_edges_directed(g: &RelationGraph, a: u32, outgoing: bool) -> (r: Vec<u32>)
    ensures
        r@.no_duplicates(),
        forall|i: int|
            0 <= i < r.len() ==> {
                &&& #[trigger] graph_edges(*g).contains_key(r[i] as nat)
                &&& if outgoing {
                    graph_edges(*g)[r[i] as nat].0 == a
                } else {
                    graph_edges(*g)[r[i] as nat].1 == a
                }
            },
        forall|e: nat|
            #[trigger] graph_edges(*g).contains_key(e) && (if outgoing {
                graph_edges(*g)[e].0 == a
            } else {
                graph_edges(*g)[e].1 == a
            }) ==> exists|i: int| 0 <= i < r.len() && r[i] == e,
{
    let dir = match outgoing {
        true => Direction::Outgoing,
        false => Direction::Incoming,
    };
    g.edges_directed(NodeIndex::new(a as usize), dir).map(|edge| edge.id().index() as u32).collect()
}

/// `StableGraph::node_count`: the number of live nodes.
#[verifier::external_body]
pub(crate) fn graph_node_count(g: &RelationGraph) -> (r: usize)
    ensures
        r == graph_nodes(*g).dom().len(),
{
    g.node_count()
}

/// `StableGraph::externals` toward `Incoming`: the live nodes that no edge reaches, in
/// increasing order.
#[verifier::external_body]
pub(crate) fn graph_sources(g: &RelationGraph) -> (r: Vec<u32>)
    ensures
        forall|i: int, j: int| 0 <= i < j < r.len() ==> r[i] < r[j],
        forall|i: int|
            0 <= i < r.len() ==> graph_nodes(*g).contains_key(#[trigger] r[i] as nat) && no_incoming(
                graph_edges(*g),
                r[i] as nat,
            ),
        forall|n: nat|
            #[trigger] graph_nodes(*g).contains_key(n) && no_incoming(graph_edges(*g), n) ==> exists|i: int|
                0 <= i < r.len() && r[i] == n,
{
    g.externals(Direction::Incoming).map(|n| n.index() as u32).collect()
}

/// petgraph's breadth-first walk `Bfs` over `g`, made with `Bfs::new` from `starts[0]` and
/// with the other starts pushed onto its queue: the nodes in the order the walk yields them.
/// `Bfs::new` marks only its start discovered; each node taken from the queue has its
/// undiscovered successors marked and queued. The order in which the graph lists a node's
/// successors comes from how its edges were added and removed, so the contract does not pin
/// the order down: it states what holds of every walk. `Bfs::new` panics on a start past the
/// last live node; `requires` takes the starts among the live nodes.
#[verifier::external_body]
pub(crate) fn graph_bfs(g: &RelationGraph, starts: &Vec<u32>) -> (r: Vec<u32>)
    requires
        starts.len() > 0,
        forall|i: int| 0 <= i < starts.len() ==> graph_nodes(*g).contains_key(#[trigger] starts[i] as nat),
    ensures
        starts.len() <= r.len(),
        r@.take(starts.len() as int) == starts@,
        forall|i: int|
            #![trigger r[i]]
            starts.len() <= i < r.len() ==> r[i] != starts[0] && exists|j: int|
                0 <= j < i && has_edge(graph_edges(*g), r[j] as nat, r[i] as nat),
        forall|i: int, j: int|
            #![trigger r[i], r[j]]
            starts.len() <= i < j < r.len() ==> r[i] != r[j],
        forall|i: int, b: nat|
            #![trigger r[i], has_edge(graph_edges(*g), r[i] as nat, b)]
            0 <= i < r.len() && has_edge(graph_edges(*g), r[i] as nat, b) ==> exists|k: int|
                0 <= k < r.len() && r[k] as nat == b,
{
    let mut bfs = Bfs::new(g, NodeIndex::new(starts[0] as usize));
    bfs.stack.extend(starts[1..].iter().map(|s| NodeIndex::new(*s as usize)));
    bfs.iter(g).map(|n| n.index() as u32).collect()
}

} // verus!
