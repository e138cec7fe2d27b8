//! Properties of the library that relate several of its operations.
use vstd::prelude::*;

use crate::digraph::index_limit;
use crate::model::NodeModel;
use crate::json::{
    JsonModel, JsonNumber, json_eq, json_get, keys_distinct, member_get, member_matched, number_eq,
};
use crate::jsonl::{
    is_white_space, jsonl_frames, kept_lines, newline_pieces, trim_end, trim_start, trimmed,
};
use crate::model::EntityModel;
use crate::query::{
    ClaimMatchModel, ValueQueryModel, all_matches, lemma_edge_lists_in_range, neighbor_models, claim_match, claims_matches, claims_of, hops_model, node_matches,
    value_matches_spec,
};
use crate::graph::{
    EdgeKind, EdgeModel, GraphModel, declared_peers, string_members, strings_in, first_kind_to, has_edge, has_id, is_walk, ids_unique, incoming_of,
    inferred_edges, lemma_loaded_len, links, loaded, DecodedLine, all_decoded, decoded_models, wired, node_position, outgoing_of, primary_sources,
    upserted,
};

verus! {

/// How often `x` occurs in `s`.
pub open spec fn occurrences(s: Seq<(usize, EdgeKind)>, x: (usize, EdgeKind)) -> nat
    decreases s.len(),
{
    if s.len() == 0 {
        0
    } else {
        (if s[0] == x {
            1nat
        } else {
            0nat
        }) + occurrences(s.drop_first(), x)
    }
}

/// How many edges `a -> b` of kind `k` there are.
pub open spec fn edge_multiplicity(edges: Seq<EdgeModel>, a: usize, b: usize, k: EdgeKind) -> nat
    decreases edges.len(),
{
    if edges.len() == 0 {
        0
    } else {
        (if edges.last() == (a, b, k) {
            1nat
        } else {
            0nat
        }) + edge_multiplicity(edges.drop_last(), a, b, k)
    }
}

proof fn lemma_occurrences_prepend(y: (usize, EdgeKind), rest: Seq<(usize, EdgeKind)>, x: (usize, EdgeKind))
    ensures
        occurrences(seq![y] + rest, x) == (if y == x {
            1nat
        } else {
            0nat
        }) + occurrences(rest, x),
{
    assert((seq![y] + rest).drop_first() =~= rest);
}

/// Neighbourhoods agree: `b` appears in the outgoing list of `a` with kind
/// `k` exactly as often as `a` appears in the incoming list of `b` with
/// kind `k` (both count the edges `a -> b` of kind `k`).
pub proof fn lemma_neighbors_symmetric(m: GraphModel, a: usize, b: usize, k: EdgeKind)
    ensures
        occurrences(outgoing_of(m.edges, a), (b, k)) == edge_multiplicity(m.edges, a, b, k),
        occurrences(incoming_of(m.edges, b), (a, k)) == edge_multiplicity(m.edges, a, b, k),
    decreases m.edges.len(),
{
    if m.edges.len() > 0 {
        let rest = GraphModel { nodes: m.nodes, edges: m.edges.drop_last() };
        lemma_neighbors_symmetric(rest, a, b, k);
        let e = m.edges.last();
        if e.0 == a {
            lemma_occurrences_prepend((e.1, e.2), outgoing_of(rest.edges, a), (b, k));
        }
        if e.1 == b {
            lemma_occurrences_prepend((e.0, e.2), incoming_of(rest.edges, b), (a, k));
        }
    }
}

/// How often the entry `x` occurs among neighbour entries.
pub open spec fn entry_count(s: Seq<(EdgeKind, EntityModel)>, x: (EdgeKind, EntityModel)) -> nat
    decreases s.len(),
{
    if s.len() == 0 {
        0
    } else {
        (if s[0] == x {
            1nat
        } else {
            0nat
        }) + entry_count(s.drop_first(), x)
    }
}

/// No two nodes share an entity summary.
pub open spec fn entities_distinct(nodes: Seq<NodeModel>) -> bool {
    forall|i: int, j: int|
        0 <= i < nodes.len() && 0 <= j < nodes.len() && nodes[i].entity == nodes[j].entity ==> i == j
}

proof fn lemma_entry_count(nodes: Seq<NodeModel>, list: Seq<(usize, EdgeKind)>, b: usize, k: EdgeKind)
    requires
        entities_distinct(nodes),
        b < nodes.len(),
        forall|j: int| 0 <= j < list.len() ==> (#[trigger] list[j]).0 < nodes.len(),
    ensures
        entry_count(neighbor_models(nodes, list), (k, nodes[b as int].entity)) == occurrences(list, (b, k)),
    decreases list.len(),
{
    if list.len() > 0 {
        assert forall|j: int| 0 <= j < list.drop_first().len() implies (#[trigger] list.drop_first()[j]).0
            < nodes.len() by {
            assert(list.drop_first()[j] == list[j + 1]);
        }
        lemma_entry_count(nodes, list.drop_first(), b, k);
        assert(neighbor_models(nodes, list).drop_first() =~= neighbor_models(nodes, list.drop_first()));
        assert(list[0].0 < nodes.len());
    }
}

/// Neighbourhoods agree entity by entity: where no two nodes share an
/// entity summary, `b`'s entity appears among `a`'s outbound entries with
/// kind `k` exactly as often as `a`'s entity appears among `b`'s inbound
/// entries with kind `k`.
pub proof fn lemma_neighbor_entries_symmetric(m: GraphModel, a: usize, b: usize, k: EdgeKind)
    requires
        entities_distinct(m.nodes),
        a < m.nodes.len(),
        b < m.nodes.len(),
        forall|e: int|
            0 <= e < m.edges.len() ==> (#[trigger] m.edges[e]).0 < m.nodes.len() && m.edges[e].1
                < m.nodes.len(),
    ensures
        entry_count(neighbor_models(m.nodes, outgoing_of(m.edges, a)), (k, m.nodes[b as int].entity))
            == entry_count(neighbor_models(m.nodes, incoming_of(m.edges, b)), (k, m.nodes[a as int].entity)),
{
    lemma_edge_lists_in_range(m, a);
    lemma_edge_lists_in_range(m, b);
    lemma_entry_count(m.nodes, outgoing_of(m.edges, a), b, k);
    lemma_entry_count(m.nodes, incoming_of(m.edges, b), a, k);
    lemma_neighbors_symmetric(m, a, b, k);
}

/// Reading back a write: after upserting `n`, the node with `n`'s id is
/// `n`; every other id names the same node as before; the ids stay
/// unique; the node count grows by one exactly when the id was new; the
/// edges are untouched.
pub proof fn lemma_upsert_then_lookup(m: GraphModel, n: NodeModel)
    requires
        ids_unique(m.nodes),
    ensures
        ids_unique(upserted(m, n).nodes),
        has_id(upserted(m, n).nodes, n.id),
        upserted(m, n).nodes[node_position(upserted(m, n).nodes, n.id)] == n,
        forall|id: Seq<char>|
            id != n.id ==> (has_id(upserted(m, n).nodes, id) <==> has_id(m.nodes, id)),
        forall|id: Seq<char>|
            id != n.id && has_id(m.nodes, id) ==> upserted(m, n).nodes[node_position(
                upserted(m, n).nodes,
                id,
            )] == m.nodes[node_position(m.nodes, id)],
        upserted(m, n).nodes.len() == m.nodes.len() + (if has_id(m.nodes, n.id) {
            0int
        } else {
            1int
        }),
        upserted(m, n).edges == m.edges,
{
    let u = upserted(m, n);
    if has_id(m.nodes, n.id) {
        let p = node_position(m.nodes, n.id);
        assert(u.nodes[p] == n);
        assert forall|id: Seq<char>| id != n.id implies (has_id(u.nodes, id) <==> has_id(m.nodes, id)) by {
            if has_id(u.nodes, id) {
                let i = choose|i: int| 0 <= i < u.nodes.len() && u.nodes[i].id == id;
                assert(m.nodes[i].id == id);
            }
            if has_id(m.nodes, id) {
                let i = choose|i: int| 0 <= i < m.nodes.len() && m.nodes[i].id == id;
                assert(i != p);
                assert(u.nodes[i].id == id);
            }
        }
    } else {
        let p = m.nodes.len() as int;
        assert(u.nodes[p] == n);
        assert forall|id: Seq<char>| id != n.id implies (has_id(u.nodes, id) <==> has_id(m.nodes, id)) by {
            if has_id(u.nodes, id) {
                let i = choose|i: int| 0 <= i < u.nodes.len() && u.nodes[i].id == id;
                assert(i != p);
                assert(m.nodes[i].id == id);
            }
            if has_id(m.nodes, id) {
                let i = choose|i: int| 0 <= i < m.nodes.len() && m.nodes[i].id == id;
                assert(u.nodes[i].id == id);
            }
        }
    }
    assert(has_id(u.nodes, n.id));
    assert forall|id: Seq<char>| id != n.id && has_id(m.nodes, id) implies u.nodes[node_position(
        u.nodes,
        id,
    )] == m.nodes[node_position(m.nodes, id)] by {
        let q = node_position(m.nodes, id);
        let r = node_position(u.nodes, id);
        assert(u.nodes[q].id == id);
        assert(u.nodes[r].id == id);
    }
}

/// The ids of a list of documents.
pub open spec fn ids_of(ns: Seq<NodeModel>) -> Seq<Seq<char>> {
    ns.map_values(|n: NodeModel| n.id)
}

/// `ns[i]` is the last document of `ns` with its id.
pub open spec fn is_last_with_id(ns: Seq<NodeModel>, i: int) -> bool {
    &&& 0 <= i < ns.len()
    &&& forall|j: int| i < j < ns.len() ==> (#[trigger] ns[j]).id != ns[i].id
}

/// The ids of `prev.push(n)` as a set, and when that set grows.
proof fn lemma_ids_set_push(prev: Seq<NodeModel>, n: NodeModel)
    ensures
        ids_of(prev.push(n)).to_set() == ids_of(prev).to_set().insert(n.id),
        ids_of(prev).to_set().contains(n.id) <==> exists|i: int|
            0 <= i < prev.len() && #[trigger] prev[i].id == n.id,
        ids_of(prev).to_set().finite(),
{
    let ns = prev.push(n);
    let ids = ids_of(ns);
    let pids = ids_of(prev);
    assert(ids =~= pids.push(n.id));
    assert(ids.to_set() =~= pids.to_set().insert(n.id)) by {
        assert forall|x: Seq<char>| ids.to_set().contains(x) <==> pids.to_set().insert(n.id).contains(x) by {
            if ids.to_set().contains(x) {
                let i = choose|i: int| 0 <= i < ids.len() && ids[i] == x;
                if i < ids.len() - 1 {
                    assert(pids[i] == x);
                }
            }
            if pids.to_set().contains(x) {
                let i = choose|i: int| 0 <= i < pids.len() && pids[i] == x;
                assert(ids[i] == x);
            }
            if x == n.id {
                assert(ids[ids.len() - 1] == x);
            }
        }
    }
    if pids.to_set().contains(n.id) {
        let i = choose|i: int| 0 <= i < pids.len() && pids[i] == n.id;
        assert(prev[i].id == n.id);
    }
    if exists|i: int| 0 <= i < prev.len() && #[trigger] prev[i].id == n.id {
        let i = choose|i: int| 0 <= i < prev.len() && #[trigger] prev[i].id == n.id;
        assert(pids[i] == n.id);
    }
}

/// Loading a list of documents gives one node per distinct id, holding the
/// last document with that id, and no edges.
#[verifier::rlimit(60)]
#[verifier::spinoff_prover]
pub proof fn lemma_loaded_last_wins(ns: Seq<NodeModel>)
    ensures
        ids_unique(loaded(ns).nodes),
        forall|id: Seq<char>|
            has_id(loaded(ns).nodes, id) <==> exists|i: int| 0 <= i < ns.len() && #[trigger] ns[i].id == id,
        forall|i: int|
            is_last_with_id(ns, i) ==> loaded(ns).nodes[node_position(loaded(ns).nodes, ns[i].id)]
                == ns[i],
        loaded(ns).nodes.len() == ids_of(ns).to_set().len(),
        loaded(ns).edges == Seq::<EdgeModel>::empty(),
    decreases ns.len(),
{
    lemma_loaded_len(ns);
    if ns.len() > 0 {
        let prev = ns.drop_last();
        let n = ns.last();
        lemma_loaded_last_wins(prev);
        let lp = loaded(prev);
        let l = loaded(ns);
        assert(l == upserted(lp, n));
        lemma_upsert_then_lookup(lp, n);
        assert forall|id: Seq<char>|
            has_id(l.nodes, id) <==> exists|i: int| 0 <= i < ns.len() && #[trigger] ns[i].id == id by {
            if id == n.id {
                assert(ns[ns.len() - 1].id == id);
                assert(has_id(l.nodes, id));
            } else {
                assert(has_id(l.nodes, id) == has_id(lp.nodes, id));
                assert(has_id(lp.nodes, id) <==> exists|i: int| 0 <= i < prev.len() && #[trigger] prev[i].id == id);
                if has_id(l.nodes, id) {
                    let i = choose|i: int| 0 <= i < prev.len() && #[trigger] prev[i].id == id;
                    assert(ns[i].id == id);
                }
                if exists|i: int| 0 <= i < ns.len() && #[trigger] ns[i].id == id {
                    let i = choose|i: int| 0 <= i < ns.len() && #[trigger] ns[i].id == id;
                    assert(i < ns.len() - 1);
                    assert(prev[i].id == id);
                }
            }
        }
        assert forall|i: int| is_last_with_id(ns, i) implies l.nodes[node_position(l.nodes, ns[i].id)]
            == ns[i] by {
            if i < ns.len() - 1 {
                assert(ns[ns.len() - 1].id != ns[i].id);
                assert(is_last_with_id(prev, i)) by {
                    assert forall|j: int| i < j < prev.len() implies (#[trigger] prev[j]).id != prev[i].id by {
                        assert(ns[j].id != ns[i].id);
                    }
                }
                assert(prev[i] == ns[i]);
                assert(has_id(lp.nodes, ns[i].id)) by {
                    assert(prev[i].id == ns[i].id);
                }
            }
        }
        lemma_ids_set_push(prev, n);
        assert(prev.push(n) =~= ns);
        let pset = ids_of(prev).to_set();
        if has_id(lp.nodes, n.id) {
            let i = choose|i: int| 0 <= i < prev.len() && #[trigger] prev[i].id == n.id;
            assert(pset.contains(n.id));
            assert(pset.insert(n.id) =~= pset);
        } else {
            assert(!pset.contains(n.id));
            assert(pset.insert(n.id).len() == pset.len() + 1);
        }
    } else {
        assert(ids_of(ns).to_set() =~= Set::<Seq<char>>::empty());
    }
}

/// What an entry of [`links`] is made of, and that each named loaded node
/// gives one.
pub proof fn lemma_links(
    nodes: Seq<NodeModel>,
    from: usize,
    ids: Seq<Seq<char>>,
    kind: EdgeKind,
    skip_self: bool,
)
    requires
        nodes.len() <= index_limit(),
    ensures
        forall|e: EdgeModel|
            #[trigger] links(nodes, from, ids, kind, skip_self).contains(e) ==> {
                &&& e.0 == from
                &&& e.2 == kind
                &&& 0 <= e.1 < nodes.len()
                &&& ids.contains(nodes[e.1 as int].id)
                &&& skip_self ==> e.1 != from
            },
        forall|id: Seq<char>|
            ids.contains(id) && has_id(nodes, id) && !(skip_self && node_position(nodes, id) == from)
                ==> #[trigger] links(nodes, from, ids, kind, skip_self).contains(
                (from, node_position(nodes, id) as usize, kind),
            ),
    decreases ids.len(),
{
    if ids.len() > 0 {
        let prev = ids.drop_last();
        lemma_links(nodes, from, prev, kind, skip_self);
        let l = links(nodes, from, ids, kind, skip_self);
        let lp = links(nodes, from, prev, kind, skip_self);
        assert forall|e: EdgeModel| #[trigger] l.contains(e) implies {
            &&& e.0 == from
            &&& e.2 == kind
            &&& 0 <= e.1 < nodes.len()
            &&& ids.contains(nodes[e.1 as int].id)
            &&& skip_self ==> e.1 != from
        } by {
            let j = choose|j: int| 0 <= j < l.len() && l[j] == e;
            if j < lp.len() {
                assert(lp[j] == e);
                assert(lp.contains(e));
                let k = choose|k: int| 0 <= k < prev.len() && prev[k] == nodes[e.1 as int].id;
                assert(ids[k] == prev[k]);
            } else {
                let id = ids.last();
                let p = node_position(nodes, id);
                assert(nodes[p].id == id);
                assert(ids[ids.len() - 1] == id);
            }
        }
        assert forall|id: Seq<char>|
            ids.contains(id) && has_id(nodes, id) && !(skip_self && node_position(nodes, id) == from)
            implies #[trigger] l.contains((from, node_position(nodes, id) as usize, kind)) by {
            let e = (from, node_position(nodes, id) as usize, kind);
            if id == ids.last() {
                assert(l[l.len() - 1] == e);
            } else {
                let k = choose|k: int| 0 <= k < ids.len() && ids[k] == id;
                assert(k < ids.len() - 1);
                assert(prev[k] == id);
                assert(lp.contains(e));
                let j = choose|j: int| 0 <= j < lp.len() && lp[j] == e;
                assert(l[j] == e);
            }
        }
    }
}

/// Edge inference, one way: every inferred edge starts at one of the first
/// `count` nodes and ends at a node; a `DeclaresPeer` edge ends at a node
/// whose id the source lists under `peers[].id`; a `CitesAuthority` edge
/// ends at another node whose id the source lists under
/// `authority.primary_sources`.
pub proof fn lemma_inferred_edges_sound(nodes: Seq<NodeModel>, count: nat, e: EdgeModel)
    requires
        count <= nodes.len() <= index_limit(),
        inferred_edges(nodes, count).contains(e),
    ensures
        e.0 < count,
        e.1 < nodes.len(),
        e.2 == EdgeKind::DeclaresPeer ==> declared_peers(nodes[e.0 as int].body).contains(
            nodes[e.1 as int].id,
        ),
        e.2 == EdgeKind::CitesAuthority ==> primary_sources(nodes[e.0 as int].body).contains(
            nodes[e.1 as int].id,
        ) && e.0 != e.1,
    decreases count,
{
    if count > 0 {
        let i = (count - 1) as usize;
        let before = inferred_edges(nodes, (count - 1) as nat);
        let peers = links(nodes, i, declared_peers(nodes[i as int].body), EdgeKind::DeclaresPeer, false);
        let cited = links(nodes, i, primary_sources(nodes[i as int].body), EdgeKind::CitesAuthority, true);
        assert(inferred_edges(nodes, count) == before + (peers + cited));
        let all = before + (peers + cited);
        let j = choose|j: int| 0 <= j < all.len() && all[j] == e;
        if j < before.len() {
            assert(before[j] == e);
            assert(before.contains(e));
            lemma_inferred_edges_sound(nodes, (count - 1) as nat, e);
        } else if j < before.len() + peers.len() {
            assert(peers[j - before.len()] == e);
            assert(peers.contains(e));
            lemma_links(nodes, i, declared_peers(nodes[i as int].body), EdgeKind::DeclaresPeer, false);
        } else {
            assert(cited[j - before.len() - peers.len()] == e);
            assert(cited.contains(e));
            lemma_links(nodes, i, primary_sources(nodes[i as int].body), EdgeKind::CitesAuthority, true);
        }
    }
}

/// Edge inference, the other way: for each of the first `count` nodes,
/// every id listed under `peers[].id` that names a loaded node gives a
/// `DeclaresPeer` edge to it, and every URL under
/// `authority.primary_sources` that names another loaded node gives a
/// `CitesAuthority` edge to it.
pub proof fn lemma_inferred_edges_complete(nodes: Seq<NodeModel>, count: nat, i: usize, id: Seq<char>)
    requires
        i < count <= nodes.len() <= index_limit(),
        has_id(nodes, id),
    ensures
        declared_peers(nodes[i as int].body).contains(id) ==> inferred_edges(nodes, count).contains(
            (i, node_position(nodes, id) as usize, EdgeKind::DeclaresPeer),
        ),
        primary_sources(nodes[i as int].body).contains(id) && node_position(nodes, id) != i
            ==> inferred_edges(nodes, count).contains(
            (i, node_position(nodes, id) as usize, EdgeKind::CitesAuthority),
        ),
    decreases count,
{
    let k = (count - 1) as usize;
    let before = inferred_edges(nodes, (count - 1) as nat);
    let peers = links(nodes, k, declared_peers(nodes[k as int].body), EdgeKind::DeclaresPeer, false);
    let cited = links(nodes, k, primary_sources(nodes[k as int].body), EdgeKind::CitesAuthority, true);
    let all = before + (peers + cited);
    assert(inferred_edges(nodes, count) == all);
    let pd = (i, node_position(nodes, id) as usize, EdgeKind::DeclaresPeer);
    let pc = (i, node_position(nodes, id) as usize, EdgeKind::CitesAuthority);
    if i < k {
        lemma_inferred_edges_complete(nodes, (count - 1) as nat, i, id);
        if before.contains(pd) {
            let j = choose|j: int| 0 <= j < before.len() && before[j] == pd;
            assert(all[j] == pd);
        }
        if before.contains(pc) {
            let j = choose|j: int| 0 <= j < before.len() && before[j] == pc;
            assert(all[j] == pc);
        }
    } else {
        lemma_links(nodes, k, declared_peers(nodes[k as int].body), EdgeKind::DeclaresPeer, false);
        lemma_links(nodes, k, primary_sources(nodes[k as int].body), EdgeKind::CitesAuthority, true);
        if peers.contains(pd) {
            let j = choose|j: int| 0 <= j < peers.len() && peers[j] == pd;
            assert(all[before.len() + j] == pd);
        }
        if cited.contains(pc) {
            let j = choose|j: int| 0 <= j < cited.len() && cited[j] == pc;
            assert(all[before.len() + peers.len() + j] == pc);
        }
    }
}

/// The first edge to `b` in `a`'s outgoing list is an edge `a -> b`, and
/// there is one whenever some edge `a -> b` exists.
pub proof fn lemma_first_kind_names_edge(edges: Seq<EdgeModel>, a: usize, b: usize)
    ensures
        has_edge(edges, a, b) ==> first_kind_to(outgoing_of(edges, a), b) is Some,
        first_kind_to(outgoing_of(edges, a), b) matches Some(k) ==> edges.contains((a, b, k)),
    decreases edges.len(),
{
    if edges.len() > 0 {
        let prev = edges.drop_last();
        lemma_first_kind_names_edge(prev, a, b);
        let e = edges.last();
        let out = outgoing_of(edges, a);
        let rest = outgoing_of(prev, a);
        if e.0 == a {
            assert(out.drop_first() =~= rest);
        }
        if has_edge(edges, a, b) {
            let k = choose|k: int| 0 <= k < edges.len() && edges[k].0 == a && edges[k].1 == b;
            if k < edges.len() - 1 {
                assert(prev[k] == edges[k]);
                assert(has_edge(prev, a, b));
            }
        }
        if first_kind_to(out, b) is Some {
            let kind = first_kind_to(out, b)->Some_0;
            if e.0 == a && e.1 == b {
                assert(edges[edges.len() - 1] == (a, b, kind));
            } else {
                assert(first_kind_to(rest, b) == Some(kind));
                let j = choose|j: int| 0 <= j < prev.len() && prev[j] == (a, b, kind);
                assert(edges[j] == (a, b, kind));
            }
        }
    }
}

/// The hops of a shortest path walk it: the first hop is the source, the
/// last the destination; every hop but the last names the kind of an edge
/// to the next hop, and the last names none.
pub proof fn lemma_path_hops_connected(m: GraphModel, p: Seq<usize>, from: usize, to: usize)
    requires
        is_walk(m.edges, p, from, to),
    ensures
        hops_model(m, p).len() == p.len(),
        hops_model(m, p)[0].0 == m.nodes[from as int].entity,
        hops_model(m, p)[p.len() - 1].0 == m.nodes[to as int].entity,
        hops_model(m, p)[p.len() - 1].1 is None,
        forall|j: int|
            0 <= j < p.len() - 1 ==> ((#[trigger] hops_model(m, p)[j]).1 matches Some(k)
                && m.edges.contains((p[j], p[j + 1], k))),
{
    assert forall|j: int| 0 <= j < p.len() - 1 implies ((#[trigger] hops_model(m, p)[j]).1 matches Some(k)
        && m.edges.contains((p[j], p[j + 1], k))) by {
        assert(has_edge(m.edges, p[j], p[j + 1]));
        lemma_first_kind_names_edge(m.edges, p[j], p[j + 1]);
    }
}

/// Every match among the claims `raws` has the searched predicate and a
/// value that matches the searched value.
proof fn lemma_claims_matches_filtered(
    entity: EntityModel,
    raws: Seq<JsonModel>,
    predicate: Option<Seq<char>>,
    value: Option<ValueQueryModel>,
)
    ensures
        forall|j: int|
            0 <= j < claims_matches(entity, raws, predicate, value).len() ==> {
                let c = #[trigger] claims_matches(entity, raws, predicate, value)[j];
                &&& c.entity == entity
                &&& (predicate matches Some(w) ==> c.predicate == w)
                &&& (value matches Some(q) ==> value_matches_spec(c.value, q))
            },
    decreases raws.len(),
{
    if raws.len() > 0 {
        lemma_claims_matches_filtered(entity, raws.drop_last(), predicate, value);
    }
}

/// A claim search returns only claims that satisfy it: each match has the
/// searched predicate, and a value that matches the searched value.
pub proof fn lemma_claim_matches_filtered(
    nodes: Seq<NodeModel>,
    predicate: Option<Seq<char>>,
    value: Option<ValueQueryModel>,
)
    ensures
        forall|j: int|
            0 <= j < all_matches(nodes, predicate, value).len() ==> {
                let c = #[trigger] all_matches(nodes, predicate, value)[j];
                &&& (predicate matches Some(w) ==> c.predicate == w)
                &&& (value matches Some(q) ==> value_matches_spec(c.value, q))
            },
    decreases nodes.len(),
{
    if nodes.len() > 0 {
        let prev = nodes.drop_last();
        lemma_claim_matches_filtered(prev, predicate, value);
        let n = nodes.last();
        lemma_claims_matches_filtered(n.entity, claims_of(n.body), predicate, value);
        let a = all_matches(prev, predicate, value);
        let b = node_matches(n, predicate, value);
        assert forall|j: int| 0 <= j < all_matches(nodes, predicate, value).len() implies {
            let c = #[trigger] all_matches(nodes, predicate, value)[j];
            &&& (predicate matches Some(w) ==> c.predicate == w)
            &&& (value matches Some(q) ==> value_matches_spec(c.value, q))
        } by {
            if j < a.len() {
                assert(all_matches(nodes, predicate, value)[j] == a[j]);
            } else {
                assert(all_matches(nodes, predicate, value)[j] == b[j - a.len()]);
            }
        }
    }
}

/// JSON equality is reflexive: a claim value matches a searched JSON
/// document with the same model.
pub proof fn lemma_json_eq_reflexive(a: JsonModel)
    ensures
        json_eq(a, a),
    decreases a,
{
    match a {
        JsonModel::Array(xs) => {
            assert forall|i: int| 0 <= i < xs.len() implies json_eq(xs[i], xs[i]) by {
                lemma_json_eq_reflexive(xs[i]);
            }
        },
        JsonModel::Object(xs) => {
            assert forall|i: int| 0 <= i < xs.len() implies member_matched(#[trigger] xs[i], xs) by {
                lemma_json_eq_reflexive(xs[i].1);
                assert(xs[i].0 == xs[i].0 && json_eq(xs[i].1, xs[i].1));
            }
        },
        JsonModel::Number(n) => {
        },
        _ => {},
    }
}

/// `trim_start` drops a prefix and leaves no leading white space.
proof fn lemma_trim_start(s: Seq<char>)
    ensures
        trim_start(s).len() <= s.len(),
        trim_start(s) == s.skip(s.len() - trim_start(s).len()),
        trim_start(s).len() > 0 ==> !is_white_space(trim_start(s)[0]),
    decreases s.len(),
{
    if s.len() > 0 && is_white_space(s[0]) {
        lemma_trim_start(s.drop_first());
        assert(s.drop_first().skip(s.drop_first().len() - trim_start(s).len()) =~= s.skip(
            s.len() - trim_start(s).len(),
        ));
    } else {
        assert(s.skip(0) =~= s);
    }
}

/// `trim_end` keeps a prefix and leaves no trailing white space.
proof fn lemma_trim_end(s: Seq<char>)
    ensures
        trim_end(s).len() <= s.len(),
        trim_end(s) == s.take(trim_end(s).len() as int),
        trim_end(s).len() > 0 ==> !is_white_space(trim_end(s).last()),
    decreases s.len(),
{
    if s.len() > 0 && is_white_space(s.last()) {
        lemma_trim_end(s.drop_last());
        assert(s.drop_last().take(trim_end(s).len() as int) =~= s.take(trim_end(s).len() as int));
    } else {
        assert(s.take(s.len() as int) =~= s);
    }
}

/// A trimmed text that is not empty starts and ends with a character that
/// is not white space.
pub proof fn lemma_trimmed(s: Seq<char>)
    ensures
        trimmed(s).len() > 0 ==> !is_white_space(trimmed(s)[0]) && !is_white_space(trimmed(s).last()),
{
    lemma_trim_start(s);
    lemma_trim_end(trim_start(s));
    if trimmed(s).len() > 0 {
        assert(trimmed(s)[0] == trim_start(s)[0]);
    }
}

/// What the framing of a list of pieces keeps: lines numbered from 1 in
/// increasing order, each with a non-empty text that neither starts nor
/// ends with white space.
pub proof fn lemma_kept_lines(pieces: Seq<Seq<char>>)
    ensures
        forall|j: int|
            0 <= j < kept_lines(pieces).len() ==> {
                let l = #[trigger] kept_lines(pieces)[j];
                &&& 1 <= l.0 <= pieces.len()
                &&& l.1 == trimmed(pieces[l.0 - 1])
                &&& l.1.len() > 0
                &&& !is_white_space(l.1[0])
                &&& !is_white_space(l.1.last())
            },
        forall|i: int, j: int|
            0 <= i < j < kept_lines(pieces).len() ==> (#[trigger] kept_lines(pieces)[i]).0
                < (#[trigger] kept_lines(pieces)[j]).0,
    decreases pieces.len(),
{
    if pieces.len() > 0 {
        let prev = pieces.drop_last();
        lemma_kept_lines(prev);
        lemma_trimmed(pieces.last());
        let k = kept_lines(pieces);
        let kp = kept_lines(prev);
        assert forall|j: int| 0 <= j < kp.len() implies (#[trigger] kp[j]).0 <= prev.len() && pieces[kp[j].0 - 1] == prev[kp[j].0 - 1] by {}
    }
}

/// Framing JSON Lines: every kept line has a 1-based number no larger than
/// the number of lines of the input, the numbers increase, and every text
/// is the trimmed line, neither empty nor starting or ending with white
/// space.
pub proof fn lemma_jsonl_frames(raw: Seq<char>)
    ensures
        forall|j: int|
            0 <= j < jsonl_frames(raw).len() ==> {
                let l = #[trigger] jsonl_frames(raw)[j];
                &&& 1 <= l.0 <= newline_pieces(raw).len()
                &&& l.1 == trimmed(newline_pieces(raw)[l.0 - 1])
                &&& l.1.len() > 0
                &&& !is_white_space(l.1[0])
                &&& !is_white_space(l.1.last())
            },
        forall|i: int, j: int|
            0 <= i < j < jsonl_frames(raw).len() ==> (#[trigger] jsonl_frames(raw)[i]).0
                < (#[trigger] jsonl_frames(raw)[j]).0,
{
    lemma_kept_lines(newline_pieces(raw));
}

/// The trimmed texts of the pieces that are not blank, in order.
pub open spec fn non_blank(pieces: Seq<Seq<char>>) -> Seq<Seq<char>>
    decreases pieces.len(),
{
    if pieces.len() == 0 {
        Seq::empty()
    } else {
        let rest = non_blank(pieces.drop_last());
        if trimmed(pieces.last()).len() > 0 {
            rest.push(trimmed(pieces.last()))
        } else {
            rest
        }
    }
}

/// The texts of a list of framed lines.
pub open spec fn frame_texts(f: Seq<(nat, Seq<char>)>) -> Seq<Seq<char>> {
    f.map_values(|l: (nat, Seq<char>)| l.1)
}

/// The framed texts are the trimmed non-blank pieces.
pub proof fn lemma_kept_texts(pieces: Seq<Seq<char>>)
    ensures
        frame_texts(kept_lines(pieces)) == non_blank(pieces),
    decreases pieces.len(),
{
    if pieces.len() > 0 {
        lemma_kept_texts(pieces.drop_last());
        assert(frame_texts(kept_lines(pieces)) =~= non_blank(pieces));
    } else {
        assert(frame_texts(kept_lines(pieces)) =~= non_blank(pieces));
    }
}

/// Blank lines change nothing but line numbers: two inputs whose non-blank
/// lines trim to the same texts frame to the same texts, in the same order.
pub proof fn lemma_blank_lines_only_renumber(raw1: Seq<char>, raw2: Seq<char>)
    requires
        non_blank(newline_pieces(raw1)) == non_blank(newline_pieces(raw2)),
    ensures
        frame_texts(jsonl_frames(raw1)) == frame_texts(jsonl_frames(raw2)),
{
    lemma_kept_texts(newline_pieces(raw1));
    lemma_kept_texts(newline_pieces(raw2));
}

/// Line numbers do not matter to loading: two lists of decoded lines that
/// hold the same documents in the same order load to the same graph.
pub proof fn lemma_load_ignores_line_numbers(lines1: Seq<DecodedLine>, lines2: Seq<DecodedLine>)
    requires
        all_decoded(lines1),
        all_decoded(lines2),
        lines1.len() == lines2.len(),
        forall|i: int| 0 <= i < lines1.len() ==> (#[trigger] lines1[i]).node->Ok_0@ == lines2[i].node->Ok_0@,
    ensures
        wired(loaded(decoded_models(lines1))) == wired(loaded(decoded_models(lines2))),
{
    assert(decoded_models(lines1) =~= decoded_models(lines2));
}

/// `lines` are the framed lines of `raw`, in order and with their numbers,
/// each decoded by `decode` (`None` for a line that does not decode).
pub open spec fn decoded_from(
    lines: Seq<DecodedLine>,
    raw: Seq<char>,
    decode: spec_fn(Seq<char>) -> Option<NodeModel>,
) -> bool {
    let f = jsonl_frames(raw);
    &&& lines.len() == f.len()
    &&& forall|i: int|
        0 <= i < lines.len() ==> {
            &&& (#[trigger] lines[i]).number == f[i].0
            &&& (lines[i].node is Ok <==> decode(f[i].1) is Some)
            &&& (lines[i].node is Ok ==> decode(f[i].1) == Some(lines[i].node->Ok_0@))
        }
}

/// Blank lines change nothing in a load but line numbers: two inputs whose
/// non-blank lines trim to the same texts, decoded line by line alike,
/// either both decode in full or neither does, and when they do they load
/// to the same graph.
pub proof fn lemma_blank_lines_load_alike(
    raw1: Seq<char>,
    raw2: Seq<char>,
    lines1: Seq<DecodedLine>,
    lines2: Seq<DecodedLine>,
    decode: spec_fn(Seq<char>) -> Option<NodeModel>,
)
    requires
        non_blank(newline_pieces(raw1)) == non_blank(newline_pieces(raw2)),
        decoded_from(lines1, raw1, decode),
        decoded_from(lines2, raw2, decode),
    ensures
        all_decoded(lines1) <==> all_decoded(lines2),
        all_decoded(lines1) ==> wired(loaded(decoded_models(lines1))) == wired(
            loaded(decoded_models(lines2)),
        ),
{
    lemma_blank_lines_only_renumber(raw1, raw2);
    let f1 = jsonl_frames(raw1);
    let f2 = jsonl_frames(raw2);
    assert(frame_texts(f1).len() == frame_texts(f2).len());
    assert(lines1.len() == lines2.len());
    assert forall|i: int| 0 <= i < lines1.len() implies f1[i].1 == f2[i].1 by {
        assert(frame_texts(f1)[i] == frame_texts(f2)[i]);
    }
    assert forall|i: int| 0 <= i < lines1.len() implies ((#[trigger] lines1[i]).node is Ok <==> lines2[i].node is Ok) by {
        assert(f1[i].1 == f2[i].1);
    }
    if all_decoded(lines1) {
        assert forall|i: int| 0 <= i < lines2.len() implies (#[trigger] lines2[i]).node is Ok by {
            assert(lines1[i].node is Ok);
            assert(f1[i].1 == f2[i].1);
        }
        assert forall|i: int| 0 <= i < lines1.len() implies (#[trigger] lines1[i]).node->Ok_0@
            == lines2[i].node->Ok_0@ by {
            assert(f1[i].1 == f2[i].1);
        }
        lemma_load_ignores_line_numbers(lines1, lines2);
    }
    if all_decoded(lines2) {
        assert forall|i: int| 0 <= i < lines1.len() implies (#[trigger] lines1[i]).node is Ok by {
            assert(lines2[i].node is Ok);
            assert(f1[i].1 == f2[i].1);
        }
    }
}

/// The number of edges leaving the nodes `0 .. n`, summed.
pub open spec fn out_degree_sum(edges: Seq<EdgeModel>, n: nat) -> nat
    decreases n,
{
    if n == 0 {
        0
    } else {
        out_degree_sum(edges, (n - 1) as nat) + outgoing_of(edges, (n - 1) as usize).len()
    }
}

/// The number of edges entering the nodes `0 .. n`, summed.
pub open spec fn in_degree_sum(edges: Seq<EdgeModel>, n: nat) -> nat
    decreases n,
{
    if n == 0 {
        0
    } else {
        in_degree_sum(edges, (n - 1) as nat) + incoming_of(edges, (n - 1) as usize).len()
    }
}

proof fn lemma_degree_sums_last(edges: Seq<EdgeModel>, n: nat)
    requires
        edges.len() > 0,
        n <= index_limit(),
    ensures
        out_degree_sum(edges, n) == out_degree_sum(edges.drop_last(), n) + (if edges.last().0 < n {
            1nat
        } else {
            0nat
        }),
        in_degree_sum(edges, n) == in_degree_sum(edges.drop_last(), n) + (if edges.last().1 < n {
            1nat
        } else {
            0nat
        }),
    decreases n,
{
    if n > 0 {
        lemma_degree_sums_last(edges, (n - 1) as nat);
    }
}

proof fn lemma_degree_sums_empty(edges: Seq<EdgeModel>, n: nat)
    requires
        edges.len() == 0,
    ensures
        out_degree_sum(edges, n) == 0,
        in_degree_sum(edges, n) == 0,
    decreases n,
{
    if n > 0 {
        lemma_degree_sums_empty(edges, (n - 1) as nat);
    }
}

/// Every edge is listed once among the outgoing edges of its source and
/// once among the incoming edges of its target: summed over all nodes, the
/// outbound and the inbound list lengths each equal the edge count.
pub proof fn lemma_degree_sums(m: GraphModel)
    requires
        m.nodes.len() <= index_limit(),
        forall|k: int|
            0 <= k < m.edges.len() ==> (#[trigger] m.edges[k]).0 < m.nodes.len() && m.edges[k].1
                < m.nodes.len(),
    ensures
        out_degree_sum(m.edges, m.nodes.len()) == m.edges.len(),
        in_degree_sum(m.edges, m.nodes.len()) == m.edges.len(),
    decreases m.edges.len(),
{
    if m.edges.len() > 0 {
        let rest = GraphModel { nodes: m.nodes, edges: m.edges.drop_last() };
        assert(m.edges.last() == m.edges[m.edges.len() - 1]);
        lemma_degree_sums(rest);
        lemma_degree_sums_last(m.edges, m.nodes.len());
        assert(m.edges.last().0 < m.nodes.len());
        assert(m.edges.last().1 < m.nodes.len());
        assert(rest.edges.len() + 1 == m.edges.len());
    } else {
        lemma_degree_sums_empty(m.edges, m.nodes.len());
    }
}

/// The matches of `ms` whose value matches `q`, in order.
pub open spec fn keep_value(ms: Seq<ClaimMatchModel>, q: ValueQueryModel) -> Seq<ClaimMatchModel>
    decreases ms.len(),
{
    if ms.len() == 0 {
        Seq::empty()
    } else {
        let rest = keep_value(ms.drop_last(), q);
        if value_matches_spec(ms.last().value, q) {
            rest.push(ms.last())
        } else {
            rest
        }
    }
}

/// The matches of `ms` with the predicate `w`, in order.
pub open spec fn keep_predicate(ms: Seq<ClaimMatchModel>, w: Seq<char>) -> Seq<ClaimMatchModel>
    decreases ms.len(),
{
    if ms.len() == 0 {
        Seq::empty()
    } else {
        let rest = keep_predicate(ms.drop_last(), w);
        if ms.last().predicate == w {
            rest.push(ms.last())
        } else {
            rest
        }
    }
}

proof fn lemma_keep_append(a: Seq<ClaimMatchModel>, b: Seq<ClaimMatchModel>, q: ValueQueryModel, w: Seq<char>)
    ensures
        keep_value(a + b, q) == keep_value(a, q) + keep_value(b, q),
        keep_predicate(a + b, w) == keep_predicate(a, w) + keep_predicate(b, w),
    decreases b.len(),
{
    if b.len() == 0 {
        assert(a + b =~= a);
        assert(keep_value(a, q) + keep_value(b, q) =~= keep_value(a, q));
        assert(keep_predicate(a, w) + keep_predicate(b, w) =~= keep_predicate(a, w));
    } else {
        lemma_keep_append(a, b.drop_last(), q, w);
        assert((a + b).drop_last() =~= a + b.drop_last());
        assert((a + b).last() == b.last());
        assert(keep_value(a + b, q) =~= keep_value(a, q) + keep_value(b, q));
        assert(keep_predicate(a + b, w) =~= keep_predicate(a, w) + keep_predicate(b, w));
    }
}

proof fn lemma_claims_search_composes(
    entity: EntityModel,
    raws: Seq<JsonModel>,
    w: Seq<char>,
    q: ValueQueryModel,
)
    ensures
        claims_matches(entity, raws, Some(w), Some(q)) == keep_value(
            claims_matches(entity, raws, Some(w), None),
            q,
        ),
        claims_matches(entity, raws, Some(w), Some(q)) == keep_predicate(
            claims_matches(entity, raws, None, Some(q)),
            w,
        ),
    decreases raws.len(),
{
    if raws.len() > 0 {
        let prev = raws.drop_last();
        lemma_claims_search_composes(entity, prev, w, q);
        let by_pred = claims_matches(entity, prev, Some(w), None);
        let by_value = claims_matches(entity, prev, None, Some(q));
        match claim_match(entity, raws.last(), Some(w), None) {
            Some(m) => {
                assert(by_pred.push(m).drop_last() =~= by_pred);
            },
            None => {},
        }
        match claim_match(entity, raws.last(), None, Some(q)) {
            Some(m) => {
                assert(by_value.push(m).drop_last() =~= by_value);
            },
            None => {},
        }
    }
}

/// Searching by predicate and value is searching by either one and keeping
/// the matches that satisfy the other: the same matches in the same order.
pub proof fn lemma_claim_search_composes(nodes: Seq<NodeModel>, w: Seq<char>, q: ValueQueryModel)
    ensures
        all_matches(nodes, Some(w), Some(q)) == keep_value(all_matches(nodes, Some(w), None), q),
        all_matches(nodes, Some(w), Some(q)) == keep_predicate(all_matches(nodes, None, Some(q)), w),
    decreases nodes.len(),
{
    if nodes.len() > 0 {
        let prev = nodes.drop_last();
        let n = nodes.last();
        lemma_claim_search_composes(prev, w, q);
        lemma_claims_search_composes(n.entity, claims_of(n.body), w, q);
        lemma_keep_append(all_matches(prev, Some(w), None), node_matches(n, Some(w), None), q, w);
        lemma_keep_append(all_matches(prev, None, Some(q)), node_matches(n, None, Some(q)), q, w);
    }
}

// ---------------------------------------------------------------------------
// Laws stated over the documents themselves
// ---------------------------------------------------------------------------

/// The peer ids of a list of entries are exactly the string `key` members
/// of its entries: every entry whose `key` member is a string gives that
/// string, whatever the entries around it hold, and nothing else is given.
pub proof fn lemma_string_members_exact(xs: Seq<JsonModel>, key: Seq<char>)
    ensures
        forall|j: int|
            0 <= j < xs.len() ==> (json_get(#[trigger] xs[j], key) matches Some(JsonModel::Str(s))
                ==> string_members(xs, key).contains(s)),
        forall|s: Seq<char>|
            #[trigger] string_members(xs, key).contains(s) ==> exists|j: int|
                0 <= j < xs.len() && json_get(#[trigger] xs[j], key) == Some(JsonModel::Str(s)),
    decreases xs.len(),
{
    if xs.len() > 0 {
        let prev = xs.drop_last();
        lemma_string_members_exact(prev, key);
        let r = string_members(xs, key);
        let rp = string_members(prev, key);
        assert forall|j: int|
            0 <= j < xs.len() implies (json_get(#[trigger] xs[j], key) matches Some(JsonModel::Str(s))
                ==> r.contains(s)) by {
            if let Some(JsonModel::Str(s)) = json_get(xs[j], key) {
                if j < xs.len() - 1 {
                    assert(prev[j] == xs[j]);
                    assert(rp.contains(s));
                    let k = choose|k: int| 0 <= k < rp.len() && rp[k] == s;
                    assert(r[k] == s);
                } else {
                    assert(xs.last() == xs[j]);
                    assert(r[r.len() - 1] == s);
                }
            }
        }
        assert forall|s: Seq<char>| #[trigger] r.contains(s) implies exists|j: int|
            0 <= j < xs.len() && json_get(#[trigger] xs[j], key) == Some(JsonModel::Str(s)) by {
            let k = choose|k: int| 0 <= k < r.len() && r[k] == s;
            if k < rp.len() {
                assert(rp[k] == s);
                assert(rp.contains(s));
                let j = choose|j: int| 0 <= j < prev.len() && json_get(#[trigger] prev[j], key) == Some(JsonModel::Str(s));
                assert(prev[j] == xs[j]);
            } else {
                assert(xs.last() == xs[xs.len() - 1]);
            }
        }
    }
}

/// The strings of a list are exactly its string elements.
pub proof fn lemma_strings_in_exact(xs: Seq<JsonModel>)
    ensures
        forall|j: int|
            0 <= j < xs.len() ==> ((#[trigger] xs[j]) matches JsonModel::Str(s) ==> strings_in(xs).contains(s)),
        forall|s: Seq<char>|
            #[trigger] strings_in(xs).contains(s) ==> exists|j: int|
                0 <= j < xs.len() && #[trigger] xs[j] == JsonModel::Str(s),
    decreases xs.len(),
{
    if xs.len() > 0 {
        let prev = xs.drop_last();
        lemma_strings_in_exact(prev);
        let r = strings_in(xs);
        let rp = strings_in(prev);
        assert forall|j: int|
            0 <= j < xs.len() implies ((#[trigger] xs[j]) matches JsonModel::Str(s) ==> r.contains(s)) by {
            if let JsonModel::Str(s) = xs[j] {
                if j < xs.len() - 1 {
                    assert(prev[j] == xs[j]);
                    assert(rp.contains(s));
                    let k = choose|k: int| 0 <= k < rp.len() && rp[k] == s;
                    assert(r[k] == s);
                } else {
                    assert(xs.last() == xs[j]);
                    assert(r[r.len() - 1] == s);
                }
            }
        }
        assert forall|s: Seq<char>| #[trigger] r.contains(s) implies exists|j: int|
            0 <= j < xs.len() && #[trigger] xs[j] == JsonModel::Str(s) by {
            let k = choose|k: int| 0 <= k < r.len() && r[k] == s;
            if k < rp.len() {
                assert(rp[k] == s);
                assert(rp.contains(s));
                let j = choose|j: int| 0 <= j < prev.len() && #[trigger] prev[j] == JsonModel::Str(s);
                assert(prev[j] == xs[j]);
            } else {
                assert(xs.last() == xs[xs.len() - 1]);
            }
        }
    }
}

/// Wiring adds an edge for every declared peer of every node, the last one
/// included: when node `i`'s body has `peers[j].id == s` and `s` is the id
/// of a node, the wired graph has the edge `i -> (node s)` of kind
/// `DeclaresPeer`.
pub proof fn lemma_wired_has_peer_edge(m: GraphModel, i: int, xs: Seq<JsonModel>, j: int, s: Seq<char>)
    requires
        m.nodes.len() <= index_limit(),
        0 <= i < m.nodes.len(),
        member_get(m.nodes[i].body, "peers"@) == Some(JsonModel::Array(xs)),
        0 <= j < xs.len(),
        json_get(xs[j], "id"@) == Some(JsonModel::Str(s)),
        has_id(m.nodes, s),
    ensures
        wired(m).edges.contains((i as usize, node_position(m.nodes, s) as usize, EdgeKind::DeclaresPeer)),
{
    lemma_string_members_exact(xs, "id"@);
    assert(declared_peers(m.nodes[i].body).contains(s));
    lemma_inferred_edges_complete(m.nodes, m.nodes.len(), i as usize, s);
    let e = (i as usize, node_position(m.nodes, s) as usize, EdgeKind::DeclaresPeer);
    let inf = inferred_edges(m.nodes, m.nodes.len());
    let k = choose|k: int| 0 <= k < inf.len() && inf[k] == e;
    assert(wired(m).edges[m.edges.len() + k] == e);
}

/// Wiring adds an edge for every primary source of every node that names
/// another node: when node `i`'s body has
/// `authority.primary_sources[j] == s`, `s` is the id of a node other than
/// `i`, the wired graph has the edge `i -> (node s)` of kind
/// `CitesAuthority`.
pub proof fn lemma_wired_has_source_edge(
    m: GraphModel,
    i: int,
    a: JsonModel,
    xs: Seq<JsonModel>,
    j: int,
    s: Seq<char>,
)
    requires
        m.nodes.len() <= index_limit(),
        0 <= i < m.nodes.len(),
        member_get(m.nodes[i].body, "authority"@) == Some(a),
        json_get(a, "primary_sources"@) == Some(JsonModel::Array(xs)),
        0 <= j < xs.len(),
        xs[j] == JsonModel::Str(s),
        has_id(m.nodes, s),
        node_position(m.nodes, s) != i,
    ensures
        wired(m).edges.contains(
            (i as usize, node_position(m.nodes, s) as usize, EdgeKind::CitesAuthority),
        ),
{
    lemma_strings_in_exact(xs);
    assert(primary_sources(m.nodes[i].body).contains(s));
    lemma_inferred_edges_complete(m.nodes, m.nodes.len(), i as usize, s);
    let e = (i as usize, node_position(m.nodes, s) as usize, EdgeKind::CitesAuthority);
    let inf = inferred_edges(m.nodes, m.nodes.len());
    let k = choose|k: int| 0 <= k < inf.len() && inf[k] == e;
    assert(wired(m).edges[m.edges.len() + k] == e);
}

/// Wiring adds no other edge: every edge of the wired graph that was not
/// there before leaves a node whose body lists the target's id under
/// `peers[].id` (a `DeclaresPeer` edge) or under
/// `authority.primary_sources` (a `CitesAuthority` edge to another node).
pub proof fn lemma_wired_edges_are_declared(m: GraphModel, k: int)
    requires
        m.nodes.len() <= index_limit(),
        m.edges.len() <= k < wired(m).edges.len(),
    ensures
        ({
            let e = wired(m).edges[k];
            let src = m.nodes[e.0 as int].body;
            let t = m.nodes[e.1 as int].id;
            &&& e.0 < m.nodes.len()
            &&& e.1 < m.nodes.len()
            &&& e.2 == EdgeKind::DeclaresPeer ==> exists|xs: Seq<JsonModel>, j: int|
                member_get(src, "peers"@) == Some(JsonModel::Array(xs)) && 0 <= j < xs.len()
                    && json_get(#[trigger] xs[j], "id"@) == Some(JsonModel::Str(t))
            &&& e.2 == EdgeKind::CitesAuthority ==> e.0 != e.1 && exists|a: JsonModel, xs: Seq<JsonModel>, j: int|
                #![trigger json_get(a, "primary_sources"@), xs[j]]
                member_get(src, "authority"@) == Some(a) && json_get(a, "primary_sources"@) == Some(
                    JsonModel::Array(xs),
                ) && 0 <= j < xs.len() && xs[j] == JsonModel::Str(t)
        }),
{
    let inf = inferred_edges(m.nodes, m.nodes.len());
    let e = wired(m).edges[k];
    assert(inf[k - m.edges.len()] == e);
    assert(inf.contains(e));
    lemma_inferred_edges_sound(m.nodes, m.nodes.len(), e);
    let src = m.nodes[e.0 as int].body;
    let t = m.nodes[e.1 as int].id;
    if e.2 == EdgeKind::DeclaresPeer {
        match member_get(src, "peers"@) {
            Some(JsonModel::Array(xs)) => {
                lemma_string_members_exact(xs, "id"@);
                assert(string_members(xs, "id"@).contains(t));
            },
            _ => {},
        }
    }
    if e.2 == EdgeKind::CitesAuthority {
        match member_get(src, "authority"@) {
            Some(a) => match json_get(a, "primary_sources"@) {
                Some(JsonModel::Array(xs)) => {
                    lemma_strings_in_exact(xs);
                    assert(strings_in(xs).contains(t));
                    let j = choose|j: int| 0 <= j < xs.len() && #[trigger] xs[j] == JsonModel::Str(t);
                    assert(json_get(a, "primary_sources"@) == Some(JsonModel::Array(xs)) && xs[j] == JsonModel::Str(t));
                },
                _ => {},
            },
            None => {},
        }
    }
}

/// A claim whose value is a string matches a searched value exactly when
/// the string is the searched text, whatever the text reads as in JSON.
pub proof fn lemma_string_value_matches_text(s: Seq<char>, q: ValueQueryModel)
    ensures
        value_matches_spec(JsonModel::Str(s), q) <==> s == q.text,
{
}

/// Two JSON numbers are equal exactly when they are the same number: the
/// same shape and value, where `+0.0` and `-0.0` are one value.
pub proof fn lemma_number_eq_is_value_equality(a: JsonNumber, b: JsonNumber)
    ensures
        number_eq(a, b) <==> (a == b || (a matches JsonNumber::Float(x) && b matches JsonNumber::Float(y)
            && (x == 0 || x == 0x8000_0000_0000_0000u64) && (y == 0 || y == 0x8000_0000_0000_0000u64))),
{
}

/// JSON equality on scalars is equality of the scalars: `null` equals only
/// `null`, a boolean or a string only the same boolean or string, and a
/// number only a number of the same value; an array equals only an array
/// of as many elements, each equal to its counterpart.
pub proof fn lemma_json_eq_scalars(a: JsonModel, b: JsonModel)
    ensures
        a is Null ==> (json_eq(a, b) <==> b is Null),
        a matches JsonModel::Bool(x) ==> (json_eq(a, b) <==> b == JsonModel::Bool(x)),
        a matches JsonModel::Str(x) ==> (json_eq(a, b) <==> b == JsonModel::Str(x)),
        a matches JsonModel::Number(x) ==> (json_eq(a, b) <==> (b matches JsonModel::Number(y) && (x
            == y || (x matches JsonNumber::Float(u) && y matches JsonNumber::Float(v) && (u == 0 || u
            == 0x8000_0000_0000_0000u64) && (v == 0 || v == 0x8000_0000_0000_0000u64))))),
        a matches JsonModel::Array(xs) ==> (json_eq(a, b) <==> (b matches JsonModel::Array(ys) && xs.len()
            == ys.len() && forall|i: int| 0 <= i < xs.len() ==> json_eq(#[trigger] xs[i], ys[i]))),
        a matches JsonModel::Object(_) ==> (json_eq(a, b) ==> b is Object),
{
    match (a, b) {
        (JsonModel::Number(x), JsonModel::Number(y)) => {
            lemma_number_eq_is_value_equality(x, y);
        },
        _ => {},
    }
}

/// In an object whose keys are distinct, looking a key up finds the one
/// member with that key.
pub proof fn lemma_member_get_distinct(fs: Seq<(Seq<char>, JsonModel)>, j: int)
    requires
        keys_distinct(fs),
        0 <= j < fs.len(),
    ensures
        member_get(fs, fs[j].0) == Some(fs[j].1),
    decreases fs.len(),
{
    if j > 0 {
        let rest = fs.drop_first();
        assert forall|a: int, b: int| 0 <= a < b < rest.len() implies (#[trigger] rest[a]).0
            != (#[trigger] rest[b]).0 by {
            assert(rest[a] == fs[a + 1]);
            assert(rest[b] == fs[b + 1]);
        }
        assert(fs[0].0 != fs[j].0);
        assert(rest[j - 1] == fs[j]);
        lemma_member_get_distinct(rest, j - 1);
    }
}

/// Equal objects agree member by member: when `a` is an object equal to an
/// object `b` whose keys are distinct, every member of `a` is found in `b`
/// under the same key with an equal value, and `b` has as many members.
pub proof fn lemma_json_eq_objects(a: JsonModel, b: JsonModel)
    requires
        a is Object,
        b matches JsonModel::Object(fs) && keys_distinct(fs),
        json_eq(a, b),
    ensures
        ({
            let es = a->Object_0;
            let fs = b->Object_0;
            &&& es.len() == fs.len()
            &&& forall|i: int|
                0 <= i < es.len() ==> (member_get(fs, (#[trigger] es[i]).0) matches Some(v) && json_eq(
                    es[i].1,
                    v,
                ))
        }),
{
    let es = a->Object_0;
    let fs = b->Object_0;
    assert forall|i: int| 0 <= i < es.len() implies (member_get(fs, (#[trigger] es[i]).0) matches Some(v)
        && json_eq(es[i].1, v)) by {
        assert(member_matched(es[i], fs));
        let j = choose|j: int| 0 <= j < fs.len() && es[i].0 == fs[j].0 && json_eq(es[i].1, fs[j].1);
        lemma_member_get_distinct(fs, j);
    }
}

/// What a claim search finds in one claim: a claim is found exactly when
/// its `predicate` member is a string equal to the searched predicate (if
/// one is searched) and its value matches the searched value (if one is
/// searched); the match carries that predicate, the `value` member (`null`
/// when missing) and the `id` member when it is a string (empty otherwise).
pub proof fn lemma_claim_match_fields(
    entity: EntityModel,
    raw: JsonModel,
    predicate: Option<Seq<char>>,
    value: Option<ValueQueryModel>,
)
    ensures
        ({
            let v = match json_get(raw, "value"@) {
                Some(x) => x,
                None => JsonModel::Null,
            };
            match claim_match(entity, raw, predicate, value) {
                Some(m) => {
                    &&& json_get(raw, "predicate"@) == Some(JsonModel::Str(m.predicate))
                    &&& (predicate matches Some(w) ==> m.predicate == w)
                    &&& (value matches Some(q) ==> value_matches_spec(v, q))
                    &&& m.entity == entity
                    &&& m.value == v
                    &&& (json_get(raw, "id"@) matches Some(JsonModel::Str(c)) ==> m.claim_id == c)
                    &&& (!(json_get(raw, "id"@) matches Some(JsonModel::Str(_))) ==> m.claim_id
                        == Seq::<char>::empty())
                },
                None => !(json_get(raw, "predicate"@) matches Some(JsonModel::Str(p)) && (predicate matches Some(
                    w,
                ) ==> p == w) && (value matches Some(q) ==> value_matches_spec(v, q))),
            }
        }),
{
}

proof fn lemma_claims_matches_complete(
    entity: EntityModel,
    raws: Seq<JsonModel>,
    predicate: Option<Seq<char>>,
    value: Option<ValueQueryModel>,
    j: int,
)
    requires
        0 <= j < raws.len(),
        claim_match(entity, raws[j], predicate, value) is Some,
    ensures
        claims_matches(entity, raws, predicate, value).contains(
            claim_match(entity, raws[j], predicate, value)->Some_0,
        ),
    decreases raws.len(),
{
    let m = claim_match(entity, raws[j], predicate, value)->Some_0;
    let r = claims_matches(entity, raws, predicate, value);
    if j < raws.len() - 1 {
        let prev = raws.drop_last();
        assert(prev[j] == raws[j]);
        lemma_claims_matches_complete(entity, prev, predicate, value, j);
        let rp = claims_matches(entity, prev, predicate, value);
        let k = choose|k: int| 0 <= k < rp.len() && rp[k] == m;
        assert(r[k] == m);
    } else {
        assert(raws.last() == raws[j]);
        assert(r[r.len() - 1] == m);
    }
}

/// A claim search finds every claim that satisfies it: when node `i`'s
/// body lists `claims[j]` and that claim matches the search, its match is
/// among the results.
pub proof fn lemma_claim_search_complete(
    nodes: Seq<NodeModel>,
    predicate: Option<Seq<char>>,
    value: Option<ValueQueryModel>,
    i: int,
    xs: Seq<JsonModel>,
    j: int,
)
    requires
        0 <= i < nodes.len(),
        member_get(nodes[i].body, "claims"@) == Some(JsonModel::Array(xs)),
        0 <= j < xs.len(),
        claim_match(nodes[i].entity, xs[j], predicate, value) is Some,
    ensures
        all_matches(nodes, predicate, value).contains(
            claim_match(nodes[i].entity, xs[j], predicate, value)->Some_0,
        ),
    decreases nodes.len(),
{
    let m = claim_match(nodes[i].entity, xs[j], predicate, value)->Some_0;
    let prev = nodes.drop_last();
    let a = all_matches(prev, predicate, value);
    let b = node_matches(nodes.last(), predicate, value);
    assert(all_matches(nodes, predicate, value) == a + b);
    if i < nodes.len() - 1 {
        assert(prev[i] == nodes[i]);
        lemma_claim_search_complete(prev, predicate, value, i, xs, j);
        let k = choose|k: int| 0 <= k < a.len() && a[k] == m;
        assert((a + b)[k] == m);
    } else {
        assert(nodes.last() == nodes[i]);
        assert(claims_of(nodes[i].body) == xs);
        lemma_claims_matches_complete(nodes[i].entity, xs, predicate, value, j);
        let k = choose|k: int| 0 <= k < b.len() && b[k] == m;
        assert((a + b)[a.len() + k] == m);
    }
}

} // verus!
