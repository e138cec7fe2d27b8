//! Query operations on top of [`AeoGraph`].
use vstd::prelude::*;

use crate::digraph::{
    astar_unit_path, digraph_astar, digraph_first_edge_kind, digraph_incoming, digraph_outgoing,
};
use crate::error::GraphError;
use crate::graph::{
    AeoGraph, EdgeKind, EdgeModel, GraphModel, first_kind_to, has_edge, has_id, incoming_of, is_walk,
    node_position, outgoing_of,
};
use crate::json::{
    JsonModel, JsonValue, json_as_str, json_eq, json_equal, json_get, json_text_value, member_get,
    members_lookup, parse_json_text,
};
use crate::laws::lemma_path_hops_connected;
use crate::model::{AeoEntity, AeoNode, EntityModel, NodeModel};

verus! {

// ---------------------------------------------------------------------------
// Neighbourhoods
// ---------------------------------------------------------------------------

/// One side of a [`NeighborView`].
#[derive(Debug, Clone)]
pub struct NeighborEdge {
    /// Edge kind.
    pub edge: EdgeKind,
    /// The other end of the edge.
    pub entity: AeoEntity,
}

impl View for NeighborEdge {
    type V = (EdgeKind, EntityModel);

    open spec fn view(&self) -> (EdgeKind, EntityModel) {
        (self.edge, self.entity@)
    }
}

/// Neighbourhood of one node.
#[derive(Debug, Clone)]
pub struct NeighborView {
    /// The center node of the neighbourhood (just the summary).
    pub center: AeoEntity,
    /// Outbound: things `center` declared.
    pub outbound: Vec<NeighborEdge>,
    /// Inbound: things that declared `center`.
    pub inbound: Vec<NeighborEdge>,
}

/// The entries of an edge list, each (other end, kind) taken as (kind,
/// summary of the other end).
pub open spec fn neighbor_models(nodes: Seq<NodeModel>, list: Seq<(usize, EdgeKind)>) -> Seq<
    (EdgeKind, EntityModel),
> {
    Seq::new(list.len(), |j: int| (list[j].1, nodes[list[j].0 as int].entity))
}

/// The models of a list of neighbour entries.
pub open spec fn neighbor_edges_model(v: Seq<NeighborEdge>) -> Seq<(EdgeKind, EntityModel)> {
    Seq::new(v.len(), |j: int| v[j]@)
}

/// Summaries of the other ends of an edge list.
fn neighbor_entries(graph: &AeoGraph, list: &Vec<(usize, EdgeKind)>) -> (r: Vec<NeighborEdge>)
    requires
        forall|j: int| 0 <= j < list@.len() ==> (#[trigger] list@[j]).0 < graph@.nodes.len(),
    ensures
        neighbor_edges_model(r@) == neighbor_models(graph@.nodes, list@),
{
    let mut out: Vec<NeighborEdge> = Vec::new();
    let mut j: usize = 0;
    while j < list.len()
        invariant
            forall|k: int| 0 <= k < list@.len() ==> (#[trigger] list@[k]).0 < graph@.nodes.len(),
            0 <= j <= list@.len(),
            out@.len() == j,
            forall|k: int|
                0 <= k < j ==> (#[trigger] out@[k])@ == (list@[k].1, graph@.nodes[list@[k].0 as int].entity),
        decreases list@.len() - j,
    {
        let (other, kind) = list[j];
        let entity = graph.node_at(other).entity.copy();
        out.push(NeighborEdge { edge: kind, entity });
        j += 1;
    }
    assert(neighbor_edges_model(out@) =~= neighbor_models(graph@.nodes, list@));
    out
}

/// The neighbourhood of the node `id`: its summary, the edges leaving it
/// (with their targets) and the edges entering it (with their sources),
/// each list newest edge first. Unknown ids are `NotFound`.
pub fn neighbors(graph: &AeoGraph, id: &str) -> (r: Result<NeighborView, GraphError>)
    ensures
        match r {
            Ok(v) => {
                let i = node_position(graph@.nodes, id@);
                &&& has_id(graph@.nodes, id@)
                &&& v.center@ == graph@.nodes[i].entity
                &&& neighbor_edges_model(v.outbound@) == neighbor_models(
                    graph@.nodes,
                    outgoing_of(graph@.edges, i as usize),
                )
                &&& neighbor_edges_model(v.inbound@) == neighbor_models(
                    graph@.nodes,
                    incoming_of(graph@.edges, i as usize),
                )
            },
            Err(e) => !has_id(graph@.nodes, id@) && (e matches GraphError::NotFound(s) && s@ == id@),
        },
{
    let idx = match graph.position(id) {
        Some(i) => i,
        None => {
            return Err(GraphError::NotFound(id.to_owned()));
        },
    };
    proof {
        use_type_invariant(graph);
        graph.lemma_wf();
        lemma_edge_lists_in_range(graph@, idx);
    }
    let center = graph.node_at(idx).entity.copy();
    let out_list = digraph_outgoing(graph.petgraph(), idx);
    let in_list = digraph_incoming(graph.petgraph(), idx);
    let outbound = neighbor_entries(graph, &out_list);
    let inbound = neighbor_entries(graph, &in_list);
    Ok(NeighborView { center, outbound, inbound })
}

/// The other ends of the edge lists of a node are nodes.
pub proof fn lemma_edge_lists_in_range(m: GraphModel, a: usize)
    requires
        forall|k: int|
            0 <= k < m.edges.len() ==> (#[trigger] m.edges[k]).0 < m.nodes.len() && m.edges[k].1
                < m.nodes.len(),
    ensures
        forall|j: int|
            0 <= j < outgoing_of(m.edges, a).len() ==> (#[trigger] outgoing_of(m.edges, a)[j]).0
                < m.nodes.len(),
        forall|j: int|
            0 <= j < incoming_of(m.edges, a).len() ==> (#[trigger] incoming_of(m.edges, a)[j]).0
                < m.nodes.len(),
    decreases m.edges.len(),
{
    if m.edges.len() > 0 {
        let rest = GraphModel { nodes: m.nodes, edges: m.edges.drop_last() };
        lemma_edge_lists_in_range(rest, a);
        let e = m.edges[m.edges.len() - 1];
        assert(m.edges.last() == e);
        let out = outgoing_of(m.edges, a);
        let inc = incoming_of(m.edges, a);
        assert forall|j: int| 0 <= j < out.len() implies (#[trigger] out[j]).0 < m.nodes.len() by {
            if e.0 == a {
                if j > 0 {
                    assert(out[j] == outgoing_of(rest.edges, a)[j - 1]);
                }
            } else {
                assert(out[j] == outgoing_of(rest.edges, a)[j]);
            }
        }
        assert forall|j: int| 0 <= j < inc.len() implies (#[trigger] inc[j]).0 < m.nodes.len() by {
            if e.1 == a {
                if j > 0 {
                    assert(inc[j] == incoming_of(rest.edges, a)[j - 1]);
                }
            } else {
                assert(inc[j] == incoming_of(rest.edges, a)[j]);
            }
        }
    }
}

// ---------------------------------------------------------------------------
// Shortest paths
// ---------------------------------------------------------------------------

/// One step in a [`PathResult`].
#[derive(Debug, Clone)]
pub struct PathHop {
    /// Entity at this step.
    pub entity: AeoEntity,
    /// Edge kind that connects this step to the next one; `None` for the
    /// final hop.
    pub via: Option<EdgeKind>,
}

impl View for PathHop {
    type V = (EntityModel, Option<EdgeKind>);

    open spec fn view(&self) -> (EntityModel, Option<EdgeKind>) {
        (self.entity@, self.via)
    }
}

/// Output of a shortest-path search.
#[derive(Debug, Clone)]
pub struct PathResult {
    /// Whether the search found a path at all.
    pub found: bool,
    /// Number of edges (= hops.len() - 1 when `found` is true).
    pub length: u32,
    /// Ordered path, source to destination.
    pub hops: Vec<PathHop>,
}

/// The hops along the node path `p`: each node's summary, and the kind of
/// the first edge to the next node of the path (none after the last).
pub open spec fn hops_model(m: GraphModel, p: Seq<usize>) -> Seq<(EntityModel, Option<EdgeKind>)> {
    Seq::new(
        p.len(),
        |j: int|
            (
                m.nodes[p[j] as int].entity,
                if j + 1 < p.len() {
                    first_kind_to(outgoing_of(m.edges, p[j]), p[j + 1])
                } else {
                    None
                },
            ),
    )
}

/// The models of a list of hops.
pub open spec fn hops_of(v: Seq<PathHop>) -> Seq<(EntityModel, Option<EdgeKind>)> {
    Seq::new(v.len(), |j: int| v[j]@)
}

/// A shortest path from the node `from` to the node `to` (every edge counts
/// one). With a path, `found` holds, `length` is its number of edges and
/// `hops` walks it; without one, `found` is false, `length` 0 and `hops`
/// empty. Unknown ids are `NotFound`, `from` checked first.
pub fn shortest_path(graph: &AeoGraph, from: &str, to: &str) -> (r: Result<PathResult, GraphError>)
    ensures
        match r {
            Ok(res) => {
                let f = node_position(graph@.nodes, from@) as usize;
                let t = node_position(graph@.nodes, to@) as usize;
                &&& has_id(graph@.nodes, from@)
                &&& has_id(graph@.nodes, to@)
                &&& match astar_unit_path(graph@.nodes.len(), graph@.edges, f, t) {
                    Some((cost, p)) => {
                        &&& res.found
                        &&& res.length == cost
                        &&& hops_of(res.hops@) == hops_model(graph@, p)
                        &&& is_walk(graph@.edges, p, f, t)
                        &&& forall|j: int|
                            0 <= j < p.len() - 1 ==> ((#[trigger] res.hops@[j]).via matches Some(k)
                                && graph@.edges.contains((p[j], p[j + 1], k)))
                    },
                    None => !res.found && res.length == 0 && res.hops@.len() == 0,
                }
                &&& res.found <==> exists|q: Seq<usize>| is_walk(graph@.edges, q, f, t)
                &&& res.found ==> {
                    &&& res.hops@.len() >= 1
                    &&& res.hops@[0].entity@ == graph@.nodes[f as int].entity
                    &&& res.hops@[res.hops@.len() - 1].entity@ == graph@.nodes[t as int].entity
                    &&& res.hops@[res.hops@.len() - 1].via is None
                    &&& res.length == res.hops@.len() - 1
                    &&& forall|q: Seq<usize>| is_walk(graph@.edges, q, f, t) ==> res.hops@.len() <= q.len()
                }
            },
            Err(e) => {
                ||| !has_id(graph@.nodes, from@) && (e matches GraphError::NotFound(s) && s@ == from@)
                ||| has_id(graph@.nodes, from@) && !has_id(graph@.nodes, to@) && (e matches GraphError::NotFound(s) && s@ == to@)
            },
        },
{
    let from_idx = match graph.position(from) {
        Some(i) => i,
        None => {
            return Err(GraphError::NotFound(from.to_owned()));
        },
    };
    let to_idx = match graph.position(to) {
        Some(i) => i,
        None => {
            return Err(GraphError::NotFound(to.to_owned()));
        },
    };
    proof {
        use_type_invariant(graph);
        graph.lemma_wf();
    }
    let path = digraph_astar(graph.petgraph(), from_idx, to_idx);
    match path {
        None => {
            proof {
                assert(!exists|q: Seq<usize>| is_walk(graph@.edges, q, from_idx, to_idx));
            }
            Ok(PathResult { found: false, length: 0, hops: Vec::new() })
        },
        Some((cost, nodes)) => {
            let ghost p = nodes@;
            assert(is_walk(graph@.edges, p, from_idx, to_idx));
            proof {
                lemma_walk_in_range(graph@, p, from_idx, to_idx);
            }
            let mut hops: Vec<PathHop> = Vec::new();
            let mut j: usize = 0;
            while j < nodes.len()
                invariant
                    p == nodes@,
                    graph.wf(),
                    forall|k: int| 0 <= k < p.len() ==> (#[trigger] p[k]) < graph@.nodes.len(),
                    0 <= j <= p.len(),
                    hops@.len() == j,
                    forall|k: int| 0 <= k < j ==> (#[trigger] hops@[k])@ == hops_model(graph@, p)[k],
                decreases p.len() - j,
            {
                let at = nodes[j];
                let via = if j + 1 < nodes.len() {
                    digraph_first_edge_kind(graph.petgraph(), at, nodes[j + 1])
                } else {
                    None
                };
                let entity = graph.node_at(at).entity.copy();
                hops.push(PathHop { entity, via });
                j += 1;
            }
            assert(hops_of(hops@) =~= hops_model(graph@, p));
            proof {
                lemma_path_hops_connected(graph@, p, from_idx, to_idx);
                assert forall|j: int| 0 <= j < p.len() - 1 implies ((#[trigger] hops@[j]).via matches Some(k)
                    && graph@.edges.contains((p[j], p[j + 1], k))) by {
                    assert(hops@[j]@ == hops_model(graph@, p)[j]);
                }
                assert(hops@[0]@ == hops_model(graph@, p)[0]);
                assert(hops@[hops@.len() - 1]@ == hops_model(graph@, p)[p.len() - 1]);
            }
            Ok(PathResult { found: true, length: cost, hops })
        },
    }
}

/// The nodes of a walk are nodes of the graph.
pub proof fn lemma_walk_in_range(m: GraphModel, p: Seq<usize>, from: usize, to: usize)
    requires
        is_walk(m.edges, p, from, to),
        from < m.nodes.len(),
        forall|k: int|
            0 <= k < m.edges.len() ==> (#[trigger] m.edges[k]).0 < m.nodes.len() && m.edges[k].1
                < m.nodes.len(),
    ensures
        forall|k: int| 0 <= k < p.len() ==> (#[trigger] p[k]) < m.nodes.len(),
{
    assert forall|k: int| 0 <= k < p.len() implies (#[trigger] p[k]) < m.nodes.len() by {
        if k > 0 {
            assert(has_edge(m.edges, p[k - 1], p[(k - 1) + 1]));
            let e = choose|e: int| 0 <= e < m.edges.len() && m.edges[e].0 == p[k - 1] && m.edges[e].1 == p[k];
            assert(m.edges[e].1 < m.nodes.len());
        }
    }
}

// ---------------------------------------------------------------------------
// Claim search
// ---------------------------------------------------------------------------

/// The value half of a claim search: the text the caller gave, and that
/// text read as a JSON document when it is one.
#[derive(Clone, Debug)]
pub struct ValueQuery {
    /// The searched value, verbatim.
    pub text: String,
    /// `text` decoded as JSON, `None` when it is not a JSON document.
    pub json: Option<JsonValue>,
}

/// The model of a [`ValueQuery`].
pub struct ValueQueryModel {
    pub text: Seq<char>,
    pub json: Option<JsonModel>,
}

impl View for ValueQuery {
    type V = ValueQueryModel;

    open spec fn view(&self) -> ValueQueryModel {
        ValueQueryModel {
            text: self.text@,
            json: match self.json {
                Some(j) => Some(j@),
                None => None,
            },
        }
    }
}

/// Match for a claim search.
#[derive(Clone, Debug)]
pub struct ClaimMatch {
    /// The entity that made the claim.
    pub entity: AeoEntity,
    /// Claim id within the entity's `claims` array (empty when it has none).
    pub claim_id: String,
    /// The matched predicate.
    pub predicate: String,
    /// The matched value (verbatim; `null` when the claim has none).
    pub value: JsonValue,
}

/// The model of a [`ClaimMatch`].
pub struct ClaimMatchModel {
    pub entity: EntityModel,
    pub claim_id: Seq<char>,
    pub predicate: Seq<char>,
    pub value: JsonModel,
}

impl View for ClaimMatch {
    type V = ClaimMatchModel;

    open spec fn view(&self) -> ClaimMatchModel {
        ClaimMatchModel {
            entity: self.entity@,
            claim_id: self.claim_id@,
            predicate: self.predicate@,
            value: self.value@,
        }
    }
}

/// The models of a list of matches.
pub open spec fn matches_of(v: Seq<ClaimMatch>) -> Seq<ClaimMatchModel> {
    Seq::new(v.len(), |j: int| v[j]@)
}

/// Does the claim value `actual` match the searched value? A string value
/// matches when it equals the searched text; any other value matches when
/// the searched text is a JSON document equal to it.
pub open spec fn value_matches_spec(actual: JsonModel, query: ValueQueryModel) -> bool {
    match actual {
        JsonModel::Str(s) => s == query.text,
        _ => match query.json {
            Some(q) => json_eq(q, actual),
            None => false,
        },
    }
}

/// The claims a body lists under `claims` (none unless it is an array).
pub open spec fn claims_of(body: Seq<(Seq<char>, JsonModel)>) -> Seq<JsonModel> {
    match member_get(body, "claims"@) {
        Some(JsonModel::Array(xs)) => xs,
        _ => Seq::empty(),
    }
}

/// The match that the claim `raw` of `entity` gives, if any: the claim needs
/// a string `predicate` (equal to `predicate` when one is searched) and a
/// `value` (`null` when missing) that matches `value` when one is searched.
pub open spec fn claim_match(
    entity: EntityModel,
    raw: JsonModel,
    predicate: Option<Seq<char>>,
    value: Option<ValueQueryModel>,
) -> Option<ClaimMatchModel> {
    match json_get(raw, "predicate"@) {
        Some(pv) => match json_as_str(pv) {
            Some(pred) => {
                let claim_value = match json_get(raw, "value"@) {
                    Some(v) => v,
                    None => JsonModel::Null,
                };
                let claim_id = match json_get(raw, "id"@) {
                    Some(iv) => match json_as_str(iv) {
                        Some(s) => s,
                        None => Seq::empty(),
                    },
                    None => Seq::empty(),
                };
                if (predicate matches Some(want) && pred != want) || (value matches Some(q)
                    && !value_matches_spec(claim_value, q)) {
                    None
                } else {
                    Some(ClaimMatchModel { entity, claim_id, predicate: pred, value: claim_value })
                }
            },
            None => None,
        },
        None => None,
    }
}

/// The matches among the claims `raws` of `entity`, in order.
pub open spec fn claims_matches(
    entity: EntityModel,
    raws: Seq<JsonModel>,
    predicate: Option<Seq<char>>,
    value: Option<ValueQueryModel>,
) -> Seq<ClaimMatchModel>
    decreases raws.len(),
{
    if raws.len() == 0 {
        Seq::empty()
    } else {
        let rest = claims_matches(entity, raws.drop_last(), predicate, value);
        match claim_match(entity, raws.last(), predicate, value) {
            Some(m) => rest.push(m),
            None => rest,
        }
    }
}

/// The matches among the claims of `node`.
pub open spec fn node_matches(
    node: NodeModel,
    predicate: Option<Seq<char>>,
    value: Option<ValueQueryModel>,
) -> Seq<ClaimMatchModel> {
    claims_matches(node.entity, claims_of(node.body), predicate, value)
}

/// The matches among the claims of all `nodes`, node by node.
pub open spec fn all_matches(
    nodes: Seq<NodeModel>,
    predicate: Option<Seq<char>>,
    value: Option<ValueQueryModel>,
) -> Seq<ClaimMatchModel>
    decreases nodes.len(),
{
    if nodes.len() == 0 {
        Seq::empty()
    } else {
        all_matches(nodes.drop_last(), predicate, value) + node_matches(nodes.last(), predicate, value)
    }
}

/// Does the claim value `actual` match the searched value?
fn value_matches(actual: &JsonValue, query: &ValueQuery) -> (r: bool)
    ensures
        r == value_matches_spec(actual@, query@),
{
    match actual.as_str() {
        Some(s) => *s == query.text,
        None => match &query.json {
            Some(q) => json_equal(q, actual),
            None => false,
        },
    }
}

/// The model of an optional searched predicate.
pub open spec fn opt_text(s: Option<String>) -> Option<Seq<char>> {
    match s {
        Some(t) => Some(t@),
        None => None,
    }
}

/// The model of an optional value query.
pub open spec fn opt_query(q: Option<&ValueQuery>) -> Option<ValueQueryModel> {
    match q {
        Some(v) => Some(v@),
        None => None,
    }
}

/// The match the claim `raw` of `node` gives, if any.
fn match_claim(node: &AeoNode, raw: &JsonValue, predicate: &Option<String>, value: Option<&ValueQuery>) -> (r: Option<ClaimMatch>)
    ensures
        match claim_match(node.entity@, raw@, opt_text(*predicate), opt_query(value)) {
            Some(m) => r matches Some(c) && c@ == m,
            None => r is None,
        },
{
    let pred = match raw.get("predicate") {
        Some(pv) => match pv.as_str() {
            Some(p) => p,
            None => {
                return None;
            },
        },
        None => {
            return None;
        },
    };
    match predicate {
        Some(want) => {
            if *pred != *want {
                return None;
            }
        },
        None => {},
    }
    let claim_value = match raw.get("value") {
        Some(v) => v.deep_copy(),
        None => JsonValue::Null,
    };
    match value {
        Some(q) => {
            if !value_matches(&claim_value, q) {
                return None;
            }
        },
        None => {},
    }
    let claim_id = match raw.get("id") {
        Some(iv) => match iv.as_str() {
            Some(s) => s.clone(),
            None => String::new(),
        },
        None => String::new(),
    };
    Some(ClaimMatch { entity: node.entity.copy(), claim_id, predicate: pred.clone(), value: claim_value })
}

/// Append the matches among the claims of `node` to `out`.
fn match_node(node: &AeoNode, predicate: &Option<String>, value: Option<&ValueQuery>, out: &mut Vec<ClaimMatch>)
    ensures
        matches_of(final(out)@) == matches_of(old(out)@) + node_matches(node@, opt_text(*predicate), opt_query(value)),
{
    let ghost start = matches_of(out@);
    let claims = match members_lookup(&node.body, "claims") {
        Some(c) => match c.as_array() {
            Some(xs) => xs,
            None => {
                assert(matches_of(out@) =~= start + node_matches(node@, opt_text(*predicate), opt_query(value)));
                return;
            },
        },
        None => {
            assert(matches_of(out@) =~= start + node_matches(node@, opt_text(*predicate), opt_query(value)));
            return;
        },
    };
    let ghost raws = claims_of(node@.body);
    assert(raws.len() == claims@.len());
    let mut k: usize = 0;
    while k < claims.len()
        invariant
            raws == claims_of(node@.body),
            raws.len() == claims@.len(),
            forall|j: int| 0 <= j < raws.len() ==> #[trigger] claims@[j]@ == raws[j],
            0 <= k <= claims@.len(),
            matches_of(out@) == start + claims_matches(node.entity@, raws.take(k as int), opt_text(*predicate), opt_query(value)),
        decreases claims@.len() - k,
    {
        assert(raws.take(k + 1).drop_last() =~= raws.take(k as int));
        assert(raws.take(k + 1).last() == claims@[k as int]@);
        let ghost before = out@;
        match match_claim(node, &claims[k], predicate, value) {
            Some(m) => {
                out.push(m);
                assert(matches_of(out@) =~= matches_of(before).push(out@[out@.len() - 1]@));
            },
            None => {},
        }
        k += 1;
    }
    assert(raws.take(claims@.len() as int) =~= raws);
}

/// Linear scan over every node's claims, node by node and claim by claim,
/// with the searched value already read. At least one of `predicate` and
/// `value` must be given (`EmptyQuery` otherwise). A searched predicate
/// must equal the claim's `predicate` string; a searched value must match
/// the claim's value as [`value_matches_spec`] states.
pub fn find_by_claim_query(graph: &AeoGraph, predicate: Option<&str>, value: Option<&ValueQuery>) -> (r: Result<Vec<ClaimMatch>, GraphError>)
    ensures
        match r {
            Ok(v) => !(predicate is None && value is None) && matches_of(v@) == all_matches(
                graph@.nodes,
                match predicate {
                    Some(p) => Some(p@),
                    None => None,
                },
                opt_query(value),
            ),
            Err(e) => predicate is None && value is None && e is EmptyQuery,
        },
{
    if predicate.is_none() && value.is_none() {
        return Err(GraphError::EmptyQuery);
    }
    let wanted: Option<String> = match predicate {
        Some(p) => Some(p.to_owned()),
        None => None,
    };
    let ghost pm = opt_text(wanted);
    let nodes = graph.nodes();
    let mut out: Vec<ClaimMatch> = Vec::new();
    let mut i: usize = 0;
    while i < nodes.len()
        invariant
            nodes@.len() == graph@.nodes.len(),
            forall|j: int| 0 <= j < nodes@.len() ==> (#[trigger] nodes@[j])@ == graph@.nodes[j],
            0 <= i <= nodes@.len(),
            pm == opt_text(wanted),
            matches_of(out@) == all_matches(graph@.nodes.take(i as int), pm, opt_query(value)),
        decreases nodes@.len() - i,
    {
        assert(graph@.nodes.take(i + 1).drop_last() =~= graph@.nodes.take(i as int));
        assert(graph@.nodes.take(i + 1).last() == nodes@[i as int]@);
        match_node(nodes[i], &wanted, value, &mut out);
        i += 1;
    }
    assert(graph@.nodes.take(nodes@.len() as int) =~= graph@.nodes);
    Ok(out)
}

/// The searched value `text` as a [`ValueQuery`]: the text, and the
/// document serde_json reads from it, if any.
pub open spec fn text_query(text: Seq<char>) -> ValueQueryModel {
    ValueQueryModel { text, json: json_text_value(text) }
}

/// Linear scan over every node's claims. Both `predicate` and `value` are
/// optional but at least one must be supplied (`EmptyQuery` otherwise).
/// A searched predicate is exact equality against the claim's `predicate`
/// string. A searched value is exact equality on the claim's `value`: a
/// string value is compared with the text as it is; any other value with
/// the document the text reads as, by JSON equality (never equal when the
/// text is not a JSON document).
pub fn find_by_claim(graph: &AeoGraph, predicate: Option<&str>, value: Option<&str>) -> (r: Result<
    Vec<ClaimMatch>,
    GraphError,
>)
    ensures
        match r {
            Ok(v) => !(predicate is None && value is None) && matches_of(v@) == all_matches(
                graph@.nodes,
                match predicate {
                    Some(p) => Some(p@),
                    None => None,
                },
                match value {
                    Some(t) => Some(text_query(t@)),
                    None => None,
                },
            ),
            Err(e) => predicate is None && value is None && e is EmptyQuery,
        },
{
    let query = match value {
        Some(t) => Some(ValueQuery { text: t.to_owned(), json: parse_json_text(t) }),
        None => None,
    };
    find_by_claim_query(graph, predicate, query.as_ref())
}

} // verus!
