//! The in-memory typed graph of a loaded crawl.
//!
//! Nodes are the ingested documents, held in a petgraph `DiGraph` in the
//! order they were first seen; an index maps each node id to its position.
//! Edges are inferred from two well-known body fields:
//!
//! | Body field | Edge kind | Direction |
//! | --- | --- | --- |
//! | `peers[].id` | `DeclaresPeer` | from -> to |
//! | `authority.primary_sources[]` (matching another node's id) | `CitesAuthority` | from -> to |
//!
//! References to ids that are not loaded are dropped.
use vstd::prelude::*;
use vstd::hash_map::StringHashMap;

use petgraph::graph::DiGraph;

use crate::digraph::{
    digraph_add_edge, digraph_add_node, digraph_edge_count, digraph_new, digraph_node,
    digraph_node_count, digraph_set_node, graph_edges, graph_nodes, index_limit,
};
use crate::json::{JsonModel, JsonValue, json_as_str, json_get, member_get, members_lookup, members_model};
use crate::error::GraphError;
use crate::model::{AeoNode, NodeModel, node_wf};

verus! {

/// Relationship kinds the explorer cares about.
#[derive(Clone, Copy, Debug, PartialEq, Eq, Structural)]
pub enum EdgeKind {
    /// `from.peers[]` declared `to` as a peer entity.
    DeclaresPeer,
    /// `from.authority.primary_sources` chained through `to`.
    CitesAuthority,
}

/// An edge as (source, target, kind).
pub type EdgeModel = (usize, usize, EdgeKind);

// ---------------------------------------------------------------------------
// Edges
// ---------------------------------------------------------------------------

/// The edges leaving `a`, as (target, kind), newest first.
pub open spec fn outgoing_of(edges: Seq<EdgeModel>, a: usize) -> Seq<(usize, EdgeKind)>
    decreases edges.len(),
{
    if edges.len() == 0 {
        Seq::empty()
    } else {
        let e = edges.last();
        let rest = outgoing_of(edges.drop_last(), a);
        if e.0 == a {
            seq![(e.1, e.2)] + rest
        } else {
            rest
        }
    }
}

/// The edges entering `a`, as (source, kind), newest first.
pub open spec fn incoming_of(edges: Seq<EdgeModel>, a: usize) -> Seq<(usize, EdgeKind)>
    decreases edges.len(),
{
    if edges.len() == 0 {
        Seq::empty()
    } else {
        let e = edges.last();
        let rest = incoming_of(edges.drop_last(), a);
        if e.1 == a {
            seq![(e.0, e.2)] + rest
        } else {
            rest
        }
    }
}

/// The kind of the first entry of `out` whose target is `b`.
pub open spec fn first_kind_to(out: Seq<(usize, EdgeKind)>, b: usize) -> Option<EdgeKind>
    decreases out.len(),
{
    if out.len() == 0 {
        None
    } else if out[0].0 == b {
        Some(out[0].1)
    } else {
        first_kind_to(out.drop_first(), b)
    }
}

/// Is there an edge `a -> b`?
pub open spec fn has_edge(edges: Seq<EdgeModel>, a: usize, b: usize) -> bool {
    exists|k: int| 0 <= k < edges.len() && edges[k].0 == a && edges[k].1 == b
}

/// `p` is a walk along `edges` that starts at `from` and ends at `to`.
pub open spec fn is_walk(edges: Seq<EdgeModel>, p: Seq<usize>, from: usize, to: usize) -> bool {
    &&& p.len() >= 1
    &&& p[0] == from
    &&& p[p.len() - 1] == to
    &&& forall|i: int| 0 <= i < p.len() - 1 ==> #[trigger] has_edge(edges, p[i], p[i + 1])
}

// ---------------------------------------------------------------------------
// The model of a graph
// ---------------------------------------------------------------------------

/// The model of an [`AeoGraph`]: its nodes in index order and its edges in
/// insertion order.
pub struct GraphModel {
    pub nodes: Seq<NodeModel>,
    pub edges: Seq<EdgeModel>,
}

/// Does some node have the id `id`?
pub open spec fn has_id(nodes: Seq<NodeModel>, id: Seq<char>) -> bool {
    exists|i: int| 0 <= i < nodes.len() && nodes[i].id == id
}

/// The position of the node with the id `id` (meaningful when `has_id`).
pub open spec fn node_position(nodes: Seq<NodeModel>, id: Seq<char>) -> int {
    choose|i: int| 0 <= i < nodes.len() && nodes[i].id == id
}

/// No two nodes share an id.
pub open spec fn ids_unique(nodes: Seq<NodeModel>) -> bool {
    forall|i: int, j: int|
        0 <= i < nodes.len() && 0 <= j < nodes.len() && nodes[i].id == nodes[j].id ==> i == j
}

/// Every edge joins two nodes.
pub open spec fn edges_in_range(m: GraphModel) -> bool {
    forall|k: int| 0 <= k < m.edges.len() ==> (#[trigger] m.edges[k]).0 < m.nodes.len() && m.edges[k].1
        < m.nodes.len()
}

/// The graph after inserting `n`, or replacing the node with `n`'s id.
pub open spec fn upserted(m: GraphModel, n: NodeModel) -> GraphModel {
    if has_id(m.nodes, n.id) {
        GraphModel { nodes: m.nodes.update(node_position(m.nodes, n.id), n), edges: m.edges }
    } else {
        GraphModel { nodes: m.nodes.push(n), edges: m.edges }
    }
}

// ---------------------------------------------------------------------------
// Edge inference
// ---------------------------------------------------------------------------

/// The string values of the member `key` of the elements of `xs`, in order;
/// elements without such a string member contribute nothing.
pub open spec fn string_members(xs: Seq<JsonModel>, key: Seq<char>) -> Seq<Seq<char>>
    decreases xs.len(),
{
    if xs.len() == 0 {
        Seq::empty()
    } else {
        let rest = string_members(xs.drop_last(), key);
        match json_get(xs.last(), key) {
            Some(v) => match json_as_str(v) {
                Some(s) => rest.push(s),
                None => rest,
            },
            None => rest,
        }
    }
}

/// The elements of `xs` that are strings, in order.
pub open spec fn strings_in(xs: Seq<JsonModel>) -> Seq<Seq<char>>
    decreases xs.len(),
{
    if xs.len() == 0 {
        Seq::empty()
    } else {
        let rest = strings_in(xs.drop_last());
        match json_as_str(xs.last()) {
            Some(s) => rest.push(s),
            None => rest,
        }
    }
}

/// The ids a body declares as peers: `peers[].id`.
pub open spec fn declared_peers(body: Seq<(Seq<char>, JsonModel)>) -> Seq<Seq<char>> {
    match member_get(body, "peers"@) {
        Some(JsonModel::Array(xs)) => string_members(xs, "id"@),
        _ => Seq::empty(),
    }
}

/// The URLs a body cites as primary sources: `authority.primary_sources[]`.
pub open spec fn primary_sources(body: Seq<(Seq<char>, JsonModel)>) -> Seq<Seq<char>> {
    match member_get(body, "authority"@) {
        Some(a) => match json_get(a, "primary_sources"@) {
            Some(JsonModel::Array(xs)) => strings_in(xs),
            _ => Seq::empty(),
        },
        None => Seq::empty(),
    }
}

/// The edges `from -> (node with id)` of kind `kind` for each id of `ids`
/// that names a loaded node, in order; with `skip_self`, an id naming
/// `from` itself gives no edge.
pub open spec fn links(
    nodes: Seq<NodeModel>,
    from: usize,
    ids: Seq<Seq<char>>,
    kind: EdgeKind,
    skip_self: bool,
) -> Seq<EdgeModel>
    decreases ids.len(),
{
    if ids.len() == 0 {
        Seq::empty()
    } else {
        let rest = links(nodes, from, ids.drop_last(), kind, skip_self);
        let id = ids.last();
        if has_id(nodes, id) && !(skip_self && node_position(nodes, id) == from) {
            rest.push((from, node_position(nodes, id) as usize, kind))
        } else {
            rest
        }
    }
}

/// The edges inferred from the body of node `i`: its peers, then its
/// primary sources.
pub open spec fn node_links(nodes: Seq<NodeModel>, i: usize) -> Seq<EdgeModel> {
    links(nodes, i, declared_peers(nodes[i as int].body), EdgeKind::DeclaresPeer, false) + links(
        nodes,
        i,
        primary_sources(nodes[i as int].body),
        EdgeKind::CitesAuthority,
        true,
    )
}

/// The edges inferred from the bodies of the first `count` nodes, node by
/// node.
pub open spec fn inferred_edges(nodes: Seq<NodeModel>, count: nat) -> Seq<EdgeModel>
    decreases count,
{
    if count == 0 {
        Seq::empty()
    } else {
        inferred_edges(nodes, (count - 1) as nat) + node_links(nodes, (count - 1) as usize)
    }
}


/// The string values of the member `key` of the elements of `xs`.
fn collect_string_members<'a>(xs: &'a Vec<JsonValue>, key: &str) -> (r: Vec<&'a String>)
    ensures
        r@.map_values(|s: &String| s@) == string_members(
            Seq::new(xs@.len(), |k: int| xs@[k]@),
            key@,
        ),
{
    let ghost ms = Seq::new(xs@.len(), |k: int| xs@[k]@);
    let mut out: Vec<&String> = Vec::new();
    let mut k: usize = 0;
    while k < xs.len()
        invariant
            0 <= k <= xs@.len(),
            ms == Seq::new(xs@.len(), |k: int| xs@[k]@),
            out@.map_values(|s: &String| s@) == string_members(ms.take(k as int), key@),
        decreases xs@.len() - k,
    {
        assert(ms.take(k + 1).drop_last() =~= ms.take(k as int));
        assert(ms.take(k + 1).last() == xs@[k as int]@);
        match xs[k].get(key) {
            Some(v) => match v.as_str() {
                Some(s) => {
                    out.push(s);
                    assert(out@.map_values(|s: &String| s@) =~= string_members(
                        ms.take(k as int),
                        key@,
                    ).push(s@));
                },
                None => {},
            },
            None => {},
        }
        k += 1;
    }
    assert(ms.take(xs@.len() as int) =~= ms);
    out
}

/// The elements of `xs` that are strings.
fn collect_strings<'a>(xs: &'a Vec<JsonValue>) -> (r: Vec<&'a String>)
    ensures
        r@.map_values(|s: &String| s@) == strings_in(Seq::new(xs@.len(), |k: int| xs@[k]@)),
{
    let ghost ms = Seq::new(xs@.len(), |k: int| xs@[k]@);
    let mut out: Vec<&String> = Vec::new();
    let mut k: usize = 0;
    while k < xs.len()
        invariant
            0 <= k <= xs@.len(),
            ms == Seq::new(xs@.len(), |k: int| xs@[k]@),
            out@.map_values(|s: &String| s@) == strings_in(ms.take(k as int)),
        decreases xs@.len() - k,
    {
        assert(ms.take(k + 1).drop_last() =~= ms.take(k as int));
        assert(ms.take(k + 1).last() == xs@[k as int]@);
        match xs[k].as_str() {
            Some(s) => {
                out.push(s);
                assert(out@.map_values(|s: &String| s@) =~= strings_in(ms.take(k as int)).push(s@));
            },
            None => {},
        }
        k += 1;
    }
    assert(ms.take(xs@.len() as int) =~= ms);
    out
}

/// The ids a body declares as peers.
fn body_peers(body: &Vec<(String, JsonValue)>) -> (r: Vec<&String>)
    ensures
        r@.map_values(|s: &String| s@) == declared_peers(members_model(body@)),
{
    match members_lookup(body, "peers") {
        Some(peers) => match peers.as_array() {
            Some(xs) => {
                let r = collect_string_members(xs, "id");
                proof {
                    let m = peers@;
                    assert(m->Array_0 =~= Seq::new(xs@.len(), |k: int| xs@[k]@));
                }
                r
            },
            None => Vec::new(),
        },
        None => Vec::new(),
    }
}

/// The URLs a body cites as primary sources.
fn body_primary_sources(body: &Vec<(String, JsonValue)>) -> (r: Vec<&String>)
    ensures
        r@.map_values(|s: &String| s@) == primary_sources(members_model(body@)),
{
    match members_lookup(body, "authority") {
        Some(authority) => match authority.get("primary_sources") {
            Some(sources) => match sources.as_array() {
                Some(xs) => {
                    let r = collect_strings(xs);
                    proof {
                        let m = sources@;
                        assert(m->Array_0 =~= Seq::new(xs@.len(), |k: int| xs@[k]@));
                    }
                    r
                },
                None => Vec::new(),
            },
            None => Vec::new(),
        },
        None => Vec::new(),
    }
}

// ---------------------------------------------------------------------------
// Loading
// ---------------------------------------------------------------------------

/// The graph that upserting `nodes` in order into an empty graph gives.
pub open spec fn loaded(nodes: Seq<NodeModel>) -> GraphModel
    decreases nodes.len(),
{
    if nodes.len() == 0 {
        GraphModel { nodes: Seq::empty(), edges: Seq::empty() }
    } else {
        upserted(loaded(nodes.drop_last()), nodes.last())
    }
}

/// `m` with the edges inferred from its bodies appended.
pub open spec fn wired(m: GraphModel) -> GraphModel {
    GraphModel { nodes: m.nodes, edges: m.edges + inferred_edges(m.nodes, m.nodes.len()) }
}

/// One framed JSONL line after decoding: its 1-based number and either the
/// document or the reason it could not be read.
#[derive(Debug)]
pub struct DecodedLine {
    /// 1-based line number in the input.
    pub number: usize,
    /// The decoded document, or the decoder's message.
    pub node: Result<AeoNode, String>,
}

/// Every line decoded.
pub open spec fn all_decoded(lines: Seq<DecodedLine>) -> bool {
    forall|i: int| 0 <= i < lines.len() ==> (#[trigger] lines[i]).node is Ok
}

/// The models of the decoded documents (meaningful when `all_decoded`).
pub open spec fn decoded_models(lines: Seq<DecodedLine>) -> Seq<NodeModel> {
    Seq::new(lines.len(), |i: int| lines[i].node->Ok_0@)
}

/// `k` is the first line that failed to decode.
pub open spec fn is_first_failure(lines: Seq<DecodedLine>, k: int) -> bool {
    &&& 0 <= k < lines.len()
    &&& lines[k].node is Err
    &&& all_decoded(lines.take(k))
}

/// Loading never yields more nodes than documents.
pub proof fn lemma_loaded_len(nodes: Seq<NodeModel>)
    ensures
        loaded(nodes).nodes.len() <= nodes.len(),
        loaded(nodes).edges == Seq::<EdgeModel>::empty(),
    decreases nodes.len(),
{
    if nodes.len() > 0 {
        lemma_loaded_len(nodes.drop_last());
    }
}

// ---------------------------------------------------------------------------
// The graph
// ---------------------------------------------------------------------------

/// The model of a petgraph graph of documents.
spec fn graph_model(graph: DiGraph<AeoNode, EdgeKind>) -> GraphModel {
    GraphModel { nodes: graph_nodes(graph).map_values(|n: AeoNode| n@), edges: graph_edges(graph) }
}

/// The index maps each node id to the node's position, and nothing else;
/// every edge joins two nodes; every node body is a map.
spec fn parts_wf(graph: DiGraph<AeoNode, EdgeKind>, index: StringHashMap<usize>) -> bool {
    let nodes = graph_nodes(graph);
    &&& nodes.len() <= index_limit()
    &&& forall|i: int| 0 <= i < nodes.len() ==> node_wf(#[trigger] nodes[i]@)
    &&& forall|i: int|
        0 <= i < nodes.len() ==> #[trigger] index@.contains_key(nodes[i].id@) && index@[nodes[i].id@]
            == i
    &&& forall|k: Seq<char>|
        #[trigger] index@.contains_key(k) ==> index@[k] < nodes.len() && nodes[index@[k] as int].id@
            == k
    &&& edges_in_range(graph_model(graph))
}

/// Container for a single loaded crawl.
pub struct AeoGraph {
    graph: DiGraph<AeoNode, EdgeKind>,
    index: StringHashMap<usize>,
}

impl View for AeoGraph {
    type V = GraphModel;

    closed spec fn view(&self) -> GraphModel {
        graph_model(self.graph)
    }
}

impl AeoGraph {
    /// The invariant every graph keeps: the index maps each node id to the
    /// node's position, and nothing else; every edge joins two nodes; every
    /// node body is a map.
    #[verifier::type_invariant]
    pub closed spec fn wf(&self) -> bool {
        parts_wf(self.graph, self.index)
    }

    /// What a well-formed graph's model satisfies.
    pub proof fn lemma_wf(&self)
        requires
            self.wf(),
        ensures
            ids_unique(self@.nodes),
            edges_in_range(self@),
            self@.nodes.len() <= index_limit(),
            forall|i: int| 0 <= i < self@.nodes.len() ==> node_wf(#[trigger] self@.nodes[i]),
    {
        let nodes = graph_nodes(self.graph);
        assert forall|i: int, j: int|
            0 <= i < self@.nodes.len() && 0 <= j < self@.nodes.len() && self@.nodes[i].id
                == self@.nodes[j].id implies i == j by {
            assert(self.index@.contains_key(nodes[i].id@));
            assert(self.index@.contains_key(nodes[j].id@));
        }
    }

    /// The position of the node with id `id`, read from the index.
    pub(crate) fn position(&self, id: &str) -> (r: Option<usize>)
        ensures
            match r {
                Some(i) => has_id(self@.nodes, id@) && i == node_position(self@.nodes, id@) && i
                    < self@.nodes.len(),
                None => !has_id(self@.nodes, id@),
            },
    {
        proof {
            use_type_invariant(self);
            self.lemma_wf();
        }
        match self.index.get(id) {
            Some(i) => {
                let ghost nodes = self@.nodes;
                assert(nodes[*i as int].id == id@);
                assert(has_id(nodes, id@));
                let ghost p = node_position(nodes, id@);
                assert(nodes[p].id == id@);
                Some(*i)
            },
            None => {
                proof {
                    if has_id(self@.nodes, id@) {
                        let p = node_position(self@.nodes, id@);
                        assert(self.index@.contains_key(graph_nodes(self.graph)[p].id@));
                    }
                }
                None
            },
        }
    }

    /// The petgraph graph that holds the nodes and edges.
    pub(crate) fn petgraph(&self) -> (r: &DiGraph<AeoNode, EdgeKind>)
        ensures
            graph_nodes(*r).len() == self@.nodes.len(),
            forall|i: int| 0 <= i < self@.nodes.len() ==> #[trigger] graph_nodes(*r)[i]@ == self@.nodes[i],
            graph_edges(*r) == self@.edges,
    {
        &self.graph
    }

    /// An empty graph.
    pub fn new() -> (g: AeoGraph)
        ensures
            g@.nodes == Seq::<NodeModel>::empty(),
            g@.edges == Seq::<EdgeModel>::empty(),
    {
        let g = AeoGraph { graph: digraph_new(), index: StringHashMap::new() };
        assert(g@.nodes =~= Seq::<NodeModel>::empty());
        g
    }

    /// Number of nodes in the graph.
    pub fn node_count(&self) -> (n: usize)
        ensures
            n == self@.nodes.len(),
    {
        digraph_node_count(&self.graph)
    }

    /// Number of edges in the graph.
    pub fn edge_count(&self) -> (n: usize)
        ensures
            n == self@.edges.len(),
    {
        digraph_edge_count(&self.graph)
    }

    /// Look up a node by id.
    pub fn node(&self, id: &str) -> (r: Option<&AeoNode>)
        ensures
            match r {
                Some(n) => has_id(self@.nodes, id@) && n.id@ == id@ && n@ == self@.nodes[node_position(
                    self@.nodes,
                    id@,
                )],
                None => !has_id(self@.nodes, id@),
            },
    {
        match self.position(id) {
            Some(i) => Some(digraph_node(&self.graph, i)),
            None => None,
        }
    }

    /// The node at position `i`.
    pub fn node_at(&self, i: usize) -> (r: &AeoNode)
        requires
            i < self@.nodes.len(),
        ensures
            r@ == self@.nodes[i as int],
    {
        digraph_node(&self.graph, i)
    }

    /// All loaded nodes, in index order.
    pub fn nodes(&self) -> (r: Vec<&AeoNode>)
        ensures
            r@.len() == self@.nodes.len(),
            forall|i: int| 0 <= i < r@.len() ==> (#[trigger] r@[i])@ == self@.nodes[i],
    {
        let n = digraph_node_count(&self.graph);
        let mut out: Vec<&AeoNode> = Vec::new();
        let mut i: usize = 0;
        while i < n
            invariant
                n == self@.nodes.len(),
                0 <= i <= n,
                out@.len() == i,
                forall|j: int| 0 <= j < i ==> (#[trigger] out@[j])@ == self@.nodes[j],
            decreases n - i,
        {
            out.push(digraph_node(&self.graph, i));
            i += 1;
        }
        out
    }

    /// The edges `from -> (node with id)` for the ids of `ids`, as
    /// [`links`] states them.
    fn resolve_links(&self, from: usize, ids: &Vec<&String>, kind: EdgeKind, skip_self: bool) -> (r: Vec<
        EdgeModel,
    >)
        requires
            from < self@.nodes.len(),
        ensures
            r@ == links(self@.nodes, from, ids@.map_values(|s: &String| s@), kind, skip_self),
            forall|k: int|
                0 <= k < r@.len() ==> (#[trigger] r@[k]).0 == from && r@[k].1 < self@.nodes.len(),
    {
        let ghost ms = ids@.map_values(|s: &String| s@);
        let mut out: Vec<EdgeModel> = Vec::new();
        let mut k: usize = 0;
        while k < ids.len()
            invariant
                from < self@.nodes.len(),
                0 <= k <= ids@.len(),
                ms == ids@.map_values(|s: &String| s@),
                out@ == links(self@.nodes, from, ms.take(k as int), kind, skip_self),
                forall|j: int|
                    0 <= j < out@.len() ==> (#[trigger] out@[j]).0 == from && out@[j].1
                        < self@.nodes.len(),
            decreases ids@.len() - k,
        {
            assert(ms.take(k + 1).drop_last() =~= ms.take(k as int));
            assert(ms.take(k + 1).last() == ids@[k as int]@);
            match self.position(ids[k].as_str()) {
                Some(j) => {
                    if !(skip_self && j == from) {
                        out.push((from, j, kind));
                    }
                },
                None => {},
            }
            k += 1;
        }
        assert(ms.take(ids@.len() as int) =~= ms);
        out
    }

    /// The edges inferred from the body of node `i`.
    fn node_links_of(&self, i: usize) -> (r: Vec<EdgeModel>)
        requires
            i < self@.nodes.len(),
        ensures
            r@ == node_links(self@.nodes, i),
            forall|k: int|
                0 <= k < r@.len() ==> (#[trigger] r@[k]).0 == i && r@[k].1 < self@.nodes.len(),
    {
        let node = digraph_node(&self.graph, i);
        assert(node@ == self@.nodes[i as int]);
        let peers = body_peers(&node.body);
        let sources = body_primary_sources(&node.body);
        let mut out = self.resolve_links(i, &peers, EdgeKind::DeclaresPeer, false);
        let mut cited = self.resolve_links(i, &sources, EdgeKind::CitesAuthority, true);
        let ghost first = out@;
        let ghost second = cited@;
        out.append(&mut cited);
        assert(out@ == first + second);
        out
    }

    /// The edges inferred from all loaded bodies, as [`inferred_edges`]
    /// states them.
    fn inferred_links(&self) -> (r: Vec<EdgeModel>)
        ensures
            r@ == inferred_edges(self@.nodes, self@.nodes.len()),
            forall|k: int|
                0 <= k < r@.len() ==> (#[trigger] r@[k]).0 < self@.nodes.len() && r@[k].1
                    < self@.nodes.len(),
    {
        let ghost nodes = self@.nodes;
        let n = digraph_node_count(&self.graph);
        let mut out: Vec<EdgeModel> = Vec::new();
        let mut i: usize = 0;
        while i < n
            invariant
                n == nodes.len(),
                nodes == self@.nodes,
                0 <= i <= n,
                out@ == inferred_edges(nodes, i as nat),
                forall|k: int| 0 <= k < out@.len() ==> (#[trigger] out@[k]).0 < n && out@[k].1 < n,
            decreases n - i,
        {
            let mut links = self.node_links_of(i);
            let ghost first = out@;
            let ghost second = links@;
            out.append(&mut links);
            assert(out@ == first + second);
            assert(inferred_edges(nodes, (i + 1) as nat) == first + second);
            assert forall|k: int| 0 <= k < out@.len() implies (#[trigger] out@[k]).0 < n && out@[k].1
                < n by {
                if k >= first.len() {
                    assert(out@[k] == second[k - first.len()]);
                } else {
                    assert(out@[k] == first[k]);
                }
            }
            i += 1;
        }
        out
    }

    /// Walk the loaded bodies and add the inferred edges: for each node in
    /// index order, its peer edges, then its primary-source edges.
    pub fn wire_edges(&mut self)
        requires
            old(self)@.edges.len() + inferred_edges(old(self)@.nodes, old(self)@.nodes.len()).len()
                <= index_limit(),
        ensures
            final(self)@.nodes == old(self)@.nodes,
            final(self)@.edges == old(self)@.edges + inferred_edges(
                old(self)@.nodes,
                old(self)@.nodes.len(),
            ),
    {
        let links = self.inferred_links();
        self.add_links(links);
    }

    /// Append the edges `links`, in order.
    fn add_links(&mut self, links: Vec<EdgeModel>)
        requires
            forall|j: int|
                0 <= j < links@.len() ==> (#[trigger] links@[j]).0 < old(self)@.nodes.len()
                    && links@[j].1 < old(self)@.nodes.len(),
            old(self)@.edges.len() + links@.len() <= index_limit(),
        ensures
            final(self)@.nodes == old(self)@.nodes,
            final(self)@.edges == old(self)@.edges + links@,
    {
        let ghost nodes = self@.nodes;
        let ghost before = self@.edges;
        let mut taken = AeoGraph::new();
        std::mem::swap(self, &mut taken);
        proof {
            use_type_invariant(&taken);
        }
        let AeoGraph { mut graph, index } = taken;
        let mut k: usize = 0;
        while k < links.len()
            invariant
                parts_wf(graph, index),
                graph_model(graph).nodes == nodes,
                forall|j: int|
                    0 <= j < links@.len() ==> (#[trigger] links@[j]).0 < nodes.len() && links@[j].1
                        < nodes.len(),
                0 <= k <= links@.len(),
                before.len() + links@.len() <= index_limit(),
                graph_model(graph).edges == before + links@.take(k as int),
            decreases links@.len() - k,
        {
            let e = links[k];
            let ghost g0 = graph_nodes(graph);
            let ghost m0 = graph_model(graph);
            digraph_add_edge(&mut graph, e.0, e.1, e.2);
            proof {
                assert(graph_nodes(graph) == g0);
                assert(graph_model(graph).nodes =~= nodes);
                assert(graph_model(graph).edges =~= before + links@.take(k + 1));
                let m = graph_model(graph);
                assert forall|j: int| 0 <= j < m.edges.len() implies (#[trigger] m.edges[j]).0
                    < m.nodes.len() && m.edges[j].1 < m.nodes.len() by {
                    if j < m0.edges.len() {
                        assert(m.edges[j] == m0.edges[j]);
                    }
                }
            }
            k += 1;
        }
        assert(links@.take(links@.len() as int) =~= links@);
        *self = AeoGraph { graph, index };
    }

    /// Upsert the documents of `lines` in line order into an empty graph;
    /// the first line that did not decode is reported with its line number.
    fn load_nodes(lines: Vec<DecodedLine>) -> (r: Result<AeoGraph, GraphError>)
        requires
            lines@.len() < index_limit(),
            forall|i: int|
                0 <= i < lines@.len() && (#[trigger] lines@[i]).node is Ok ==> node_wf(
                    lines@[i].node->Ok_0@,
                ),
        ensures
            match r {
                Ok(g) => all_decoded(lines@) && g@ == loaded(decoded_models(lines@)),
                Err(e) => exists|k: int|
                    {
                        &&& #[trigger] is_first_failure(lines@, k)
                        &&& e matches GraphError::JsonLine { line, message }
                        &&& line == lines@[k].number
                        &&& message@ == lines@[k].node->Err_0@
                    },
            },
    {
        let ghost ls = lines@;
        let mut graph = AeoGraph::new();
        let mut count: usize = 0;
        for line in it: lines
            invariant
                it.seq() == ls,
                ls.len() < index_limit(),
                forall|i: int|
                    0 <= i < ls.len() && (#[trigger] ls[i]).node is Ok ==> node_wf(ls[i].node->Ok_0@),
                count == it.index(),
                all_decoded(ls.take(count as int)),
                graph@ == loaded(decoded_models(ls.take(count as int))),
        {
            let ghost l = line;
            assert(ls[count as int] == l);
            match line.node {
                Ok(node) => {
                    proof {
                        lemma_loaded_len(decoded_models(ls.take(count as int)));
                        assert(l.node is Ok && l.node->Ok_0 == node);
                    }
                    graph.upsert(node);
                    proof {
                        let ms = decoded_models(ls.take(count + 1));
                        assert(ms.drop_last() =~= decoded_models(ls.take(count as int)));
                        assert(ls.take(count + 1)[count as int] == l);
                        assert(all_decoded(ls.take(count + 1))) by {
                            assert forall|i: int| 0 <= i < count + 1 implies (#[trigger] ls.take(count + 1)[i]).node is Ok by {
                                if i < count {
                                    assert(ls.take(count + 1)[i] == ls.take(count as int)[i]);
                                }
                            }
                        }
                    }
                    count += 1;
                },
                Err(message) => {
                    proof {
                        assert(is_first_failure(ls, count as int));
                    }
                    return Err(GraphError::JsonLine { line: line.number, message });
                },
            }
        }
        assert(ls.take(count as int) =~= ls);
        Ok(graph)
    }


    /// Build a graph from framed and decoded JSONL lines: every document is
    /// upserted in line order, then the edges are inferred once. The first
    /// line that did not decode is reported with its line number, and no
    /// graph is built.
    pub fn from_jsonl(lines: Vec<DecodedLine>) -> (r: Result<AeoGraph, GraphError>)
        requires
            lines@.len() < index_limit(),
            forall|i: int|
                0 <= i < lines@.len() && (#[trigger] lines@[i]).node is Ok ==> node_wf(
                    lines@[i].node->Ok_0@,
                ),
            all_decoded(lines@) ==> inferred_edges(
                loaded(decoded_models(lines@)).nodes,
                loaded(decoded_models(lines@)).nodes.len(),
            ).len() <= index_limit(),
        ensures
            match r {
                Ok(g) => {
                    &&& all_decoded(lines@)
                    &&& g@ == wired(loaded(decoded_models(lines@)))
                },
                Err(e) => exists|k: int|
                    {
                        &&& #[trigger] is_first_failure(lines@, k)
                        &&& e matches GraphError::JsonLine { line, message }
                        &&& line == lines@[k].number
                        &&& message@ == lines@[k].node->Err_0@
                    },
            },
    {
        let ghost ls = lines@;
        match Self::load_nodes(lines) {
            Ok(mut graph) => {
                proof {
                    lemma_loaded_len(decoded_models(ls));
                }
                graph.wire_edges();
                Ok(graph)
            },
            Err(e) => Err(e),
        }
    }

    /// [`Self::from_jsonl`] where the inferred edges may not fit: `None`
    /// exactly when every line decoded and the graph would need more edges
    /// than petgraph's 32-bit edge index allows.
    pub fn from_jsonl_checked(lines: Vec<DecodedLine>) -> (r: Option<Result<AeoGraph, GraphError>>)
        requires
            lines@.len() < index_limit(),
            forall|i: int|
                0 <= i < lines@.len() && (#[trigger] lines@[i]).node is Ok ==> node_wf(
                    lines@[i].node->Ok_0@,
                ),
        ensures
            r is None <==> all_decoded(lines@) && inferred_edges(
                loaded(decoded_models(lines@)).nodes,
                loaded(decoded_models(lines@)).nodes.len(),
            ).len() > index_limit(),
            match r {
                Some(Ok(g)) => {
                    &&& all_decoded(lines@)
                    &&& g@ == wired(loaded(decoded_models(lines@)))
                },
                Some(Err(e)) => exists|k: int|
                    {
                        &&& #[trigger] is_first_failure(lines@, k)
                        &&& e matches GraphError::JsonLine { line, message }
                        &&& line == lines@[k].number
                        &&& message@ == lines@[k].node->Err_0@
                    },
                None => true,
            },
    {
        let ghost ls = lines@;
        match Self::load_nodes(lines) {
            Ok(mut graph) => {
                proof {
                    lemma_loaded_len(decoded_models(ls));
                }
                let links = graph.inferred_links();
                if links.len() > 0xffff_ffff {
                    None
                } else {
                    graph.add_links(links);
                    Some(Ok(graph))
                }
            },
            Err(e) => {
                proof {
                    if all_decoded(ls) {
                        let k = choose|k: int| #[trigger] is_first_failure(ls, k);
                        assert(ls[k].node is Err);
                    }
                }
                Some(Err(e))
            },
        }
    }

    /// Insert `node`, or replace the node with the same id, and return its
    /// position. Edges are left as they are; [`Self::wire_edges`] infers
    /// them once all nodes are loaded.
    pub fn upsert(&mut self, node: AeoNode) -> (i: usize)
        requires
            node_wf(node@),
            has_id(old(self)@.nodes, node.id@) || old(self)@.nodes.len() < index_limit(),
        ensures
            final(self)@ == upserted(old(self)@, node@),
            i < final(self)@.nodes.len(),
            final(self)@.nodes[i as int] == node@,
    {
        let ghost n = node@;
        let pos = self.position(node.id.as_str());
        let mut taken = AeoGraph::new();
        std::mem::swap(self, &mut taken);
        proof {
            use_type_invariant(&taken);
        }
        let AeoGraph { mut graph, mut index } = taken;
        let ghost old_nodes = graph_nodes(graph);
        let ghost old_index = index@;
        let ghost before = graph_model(graph);
        let i = match pos {
            Some(i) => {
                digraph_set_node(&mut graph, i, node);
                proof {
                    let nodes = graph_nodes(graph);
                    assert(graph_model(graph).nodes =~= before.nodes.update(i as int, n));
                    assert forall|j: int| 0 <= j < nodes.len() implies #[trigger] index@.contains_key(
                        nodes[j].id@,
                    ) && index@[nodes[j].id@] == j by {
                        if j != i {
                            assert(nodes[j] == old_nodes[j]);
                        }
                    }
                    assert forall|k: Seq<char>| #[trigger] index@.contains_key(k) implies index@[k]
                        < nodes.len() && nodes[index@[k] as int].id@ == k by {
                        if index@[k] != i {
                            assert(nodes[index@[k] as int] == old_nodes[index@[k] as int]);
                        }
                    }
                    assert forall|j: int| 0 <= j < nodes.len() implies node_wf(#[trigger] nodes[j]@) by {
                        if j != i {
                            assert(nodes[j] == old_nodes[j]);
                        }
                    }
                    let m = graph_model(graph);
                    assert(m.edges == before.edges);
                    assert forall|k: int| 0 <= k < m.edges.len() implies (#[trigger] m.edges[k]).0
                        < m.nodes.len() && m.edges[k].1 < m.nodes.len() by {
                        assert(before.edges[k] == m.edges[k]);
                    }
                }
                i
            },
            None => {
                let id = node.id.clone();
                let i = digraph_add_node(&mut graph, node);
                index.insert(id, i);
                proof {
                    let nodes = graph_nodes(graph);
                    assert(graph_model(graph).nodes =~= before.nodes.push(n));
                    assert forall|j: int| 0 <= j < nodes.len() implies #[trigger] index@.contains_key(
                        nodes[j].id@,
                    ) && index@[nodes[j].id@] == j by {
                        if j < i {
                            assert(nodes[j] == old_nodes[j]);
                            assert(before.nodes[j].id == old_nodes[j].id@);
                            assert(old_index.contains_key(old_nodes[j].id@));
                            assert(old_nodes[j].id@ != n.id);
                        } else {
                            assert(nodes[j].id@ == n.id);
                        }
                    }
                    assert forall|k: Seq<char>| #[trigger] index@.contains_key(k) implies index@[k]
                        < nodes.len() && nodes[index@[k] as int].id@ == k by {
                        if k != n.id {
                            assert(old_index.contains_key(k));
                        }
                    }
                    assert forall|j: int| 0 <= j < nodes.len() implies node_wf(#[trigger] nodes[j]@) by {
                        if j < i {
                            assert(nodes[j] == old_nodes[j]);
                        }
                    }
                    let m = graph_model(graph);
                    assert(m.edges == before.edges);
                    assert forall|k: int| 0 <= k < m.edges.len() implies (#[trigger] m.edges[k]).0
                        < m.nodes.len() && m.edges[k].1 < m.nodes.len() by {
                        assert(before.edges[k] == m.edges[k]);
                    }
                }
                i
            },
        };
        *self = AeoGraph { graph, index };
        i
    }
}

impl Default for AeoGraph {
    /// An empty graph.
    fn default() -> (g: AeoGraph)
        ensures
            g@.nodes == Seq::<NodeModel>::empty(),
            g@.edges == Seq::<EdgeModel>::empty(),
    {
        AeoGraph::new()
    }
}

} // verus!
