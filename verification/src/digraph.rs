//! The petgraph directed graph that holds a loaded crawl, seen through the
//! operations the explorer makes on it.
//!
//! The graph's contents are named by two functions: its node weights in
//! index order ([`graph_nodes`]) and its edges in insertion order as
//! (source, target, kind) triples ([`graph_edges`]). Each wrapper states
//! what petgraph's `Graph` does to them.
use vstd::prelude::*;

use petgraph::graph::{DiGraph, NodeIndex};
use petgraph::visit::EdgeRef;

use crate::graph::{EdgeKind, first_kind_to, incoming_of, is_walk, outgoing_of};
use crate::model::AeoNode;

verus! {

#[verifier::external_type_specification]
#[verifier::external_body]
#[verifier::reject_recursive_types(N)]
#[verifier::reject_recursive_types(E)]
#[verifier::reject_recursive_types(Ty)]
#[verifier::reject_recursive_types(Ix)]
pub struct ExPetGraph<N, E, Ty, Ix>(petgraph::graph::Graph<N, E, Ty, Ix>);

#[verifier::external_type_specification]
#[verifier::external_body]
pub struct ExPetDirected(petgraph::Directed);

/// The node weights of `g`, in index order.
pub uninterp spec fn graph_nodes(g: DiGraph<AeoNode, EdgeKind>) -> Seq<AeoNode>;

/// The edges of `g` as (source, target, kind), in the order they were added.
pub uninterp spec fn graph_edges(g: DiGraph<AeoNode, EdgeKind>) -> Seq<(usize, usize, EdgeKind)>;

/// The path that petgraph's `astar` returns for a search from `from` to
/// `to` with unit edge costs and a zero estimate, over a graph with
/// `node_count` nodes and the edges `edges` (in insertion order).
pub uninterp spec fn astar_unit_path(
    node_count: nat,
    edges: Seq<(usize, usize, EdgeKind)>,
    from: usize,
    to: usize,
) -> Option<(u32, Seq<usize>)>;

/// Largest node or edge count a `DiGraph` (32-bit indices) can hold: the
/// last index value is reserved by petgraph as "no index".
pub open spec fn index_limit() -> nat {
    0xffff_ffffnat
}

/// `DiGraph::new`: a graph without nodes and edges.
#[verifier::external_body]
pub(crate) fn digraph_new() -> (g: DiGraph<AeoNode, EdgeKind>)
    ensures
        graph_nodes(g) == Seq::<AeoNode>::empty(),
        graph_edges(g) == Seq::<(usize, usize, EdgeKind)>::empty(),
{
    DiGraph::new()
}

/// `Graph::add_node`: appends `node` and returns its index. petgraph
/// panics when the graph already holds the largest number of nodes its
/// index type allows.
#[verifier::external_body]
pub(crate) fn digraph_add_node(g: &mut DiGraph<AeoNode, EdgeKind>, node: AeoNode) -> (i: usize)
    requires
        graph_nodes(*old(g)).len() < index_limit(),
    ensures
        i == graph_nodes(*old(g)).len(),
        graph_nodes(*final(g)) == graph_nodes(*old(g)).push(node),
        graph_edges(*final(g)) == graph_edges(*old(g)),
{
    g.add_node(node).index()
}

/// `graph[i] = node` (`IndexMut`): replaces the weight of node `i`; panics
/// when `i` is not a node.
#[verifier::external_body]
pub(crate) fn digraph_set_node(g: &mut DiGraph<AeoNode, EdgeKind>, i: usize, node: AeoNode)
    requires
        i < graph_nodes(*old(g)).len(),
    ensures
        graph_nodes(*final(g)) == graph_nodes(*old(g)).update(i as int, node),
        graph_edges(*final(g)) == graph_edges(*old(g)),
{
    g[NodeIndex::new(i)] = node;
}

/// `&graph[i]` (`Index`): the weight of node `i`; panics when `i` is not a
/// node.
#[verifier::external_body]
pub(crate) fn digraph_node(g: &DiGraph<AeoNode, EdgeKind>, i: usize) -> (r: &AeoNode)
    requires
        i < graph_nodes(*g).len(),
    ensures
        *r == graph_nodes(*g)[i as int],
{
    &g[NodeIndex::new(i)]
}

/// `Graph::add_edge`: appends the edge `a -> b` with weight `kind`. petgraph
/// panics when an endpoint is not a node, or when the graph already holds
/// the largest number of edges its index type allows.
#[verifier::external_body]
pub(crate) fn digraph_add_edge(g: &mut DiGraph<AeoNode, EdgeKind>, a: usize, b: usize, kind: EdgeKind)
    requires
        a < graph_nodes(*old(g)).len(),
        b < graph_nodes(*old(g)).len(),
        graph_edges(*old(g)).len() < index_limit(),
    ensures
        graph_nodes(*final(g)) == graph_nodes(*old(g)),
        graph_edges(*final(g)) == graph_edges(*old(g)).push((a, b, kind)),
{
    g.add_edge(NodeIndex::new(a), NodeIndex::new(b), kind);
}

/// `Graph::node_count`.
#[verifier::external_body]
pub(crate) fn digraph_node_count(g: &DiGraph<AeoNode, EdgeKind>) -> (n: usize)
    ensures
        n == graph_nodes(*g).len(),
{
    g.node_count()
}

/// `Graph::edge_count`.
#[verifier::external_body]
pub(crate) fn digraph_edge_count(g: &DiGraph<AeoNode, EdgeKind>) -> (n: usize)
    ensures
        n == graph_edges(*g).len(),
{
    g.edge_count()
}

/// `Graph::edges_directed(a, Outgoing)`, each edge taken as (target, kind).
/// petgraph keeps each node's outgoing edges in a list to which a new edge
/// is prepended, so they come out newest first.
#[verifier::external_body]
pub(crate) fn digraph_outgoing(g: &DiGraph<AeoNode, EdgeKind>, a: usize) -> (r: Vec<(usize, EdgeKind)>)
    requires
        a < graph_nodes(*g).len(),
    ensures
        r@ == outgoing_of(graph_edges(*g), a),
{
    g.edges_directed(NodeIndex::new(a), petgraph::Outgoing).map(|e| (e.target().index(), *e.weight())).collect()
}

/// `Graph::edges_directed(a, Incoming)`, each edge taken as (source, kind),
/// newest first like the outgoing list.
#[verifier::external_body]
pub(crate) fn digraph_incoming(g: &DiGraph<AeoNode, EdgeKind>, a: usize) -> (r: Vec<(usize, EdgeKind)>)
    requires
        a < graph_nodes(*g).len(),
    ensures
        r@ == incoming_of(graph_edges(*g), a),
{
    g.edges_directed(NodeIndex::new(a), petgraph::Incoming).map(|e| (e.source().index(), *e.weight())).collect()
}

/// `Graph::edges_connecting(a, b).next()`: the kind of the first edge
/// `a -> b` in `a`'s outgoing list (the newest such edge), if any.
#[verifier::external_body]
pub(crate) fn digraph_first_edge_kind(g: &DiGraph<AeoNode, EdgeKind>, a: usize, b: usize) -> (r: Option<EdgeKind>)
    requires
        a < graph_nodes(*g).len(),
        b < graph_nodes(*g).len(),
    ensures
        r == first_kind_to(outgoing_of(graph_edges(*g), a), b),
{
    g.edges_connecting(NodeIndex::new(a), NodeIndex::new(b)).next().map(|e| *e.weight())
}

/// The cost of every edge in a path search: one per hop.
pub(crate) fn unit_cost<T>(_edge: T) -> (c: u32)
    ensures
        c == 1,
{
    1
}

/// The estimate of the remaining cost in a path search: none.
pub(crate) fn zero_estimate<T>(_node: T) -> (c: u32)
    ensures
        c == 0,
{
    0
}

/// Is `n` the goal node `goal` of a path search?
pub(crate) fn is_goal_node(n: usize, goal: usize) -> (r: bool)
    ensures
        r == (n == goal),
{
    n == goal
}

/// `petgraph::algo::astar` from `from` to `to` with unit edge costs and a
/// zero estimate (an admissible one), the path taken as node indices.
/// petgraph documents that it computes the shortest path and its cost, and
/// returns `None` when no path is found.
#[verifier::external_body]
pub(crate) fn digraph_astar(g: &DiGraph<AeoNode, EdgeKind>, from: usize, to: usize) -> (r: Option<(u32, Vec<usize>)>)
    requires
        from < graph_nodes(*g).len(),
        to < graph_nodes(*g).len(),
    ensures
        match r {
            Some((cost, path)) => astar_unit_path(graph_nodes(*g).len(), graph_edges(*g), from, to)
                == Some((cost, path@)),
            None => astar_unit_path(graph_nodes(*g).len(), graph_edges(*g), from, to) is None,
        },
        match r {
            Some((cost, path)) => {
                &&& is_walk(graph_edges(*g), path@, from, to)
                &&& cost == path@.len() - 1
                &&& forall|q: Seq<usize>| is_walk(graph_edges(*g), q, from, to) ==> path@.len() <= q.len()
            },
            None => forall|q: Seq<usize>| !is_walk(graph_edges(*g), q, from, to),
        },
{
    petgraph::algo::astar(g, NodeIndex::new(from), |n| is_goal_node(n.index(), to), unit_cost, zero_estimate)
        .map(|(cost, path)| (cost, path.into_iter().map(|n| n.index()).collect()))
}

} // verus!
