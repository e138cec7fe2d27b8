//! Tests of the graph builder and the query layer (no HTTP).
//!
//! JSONL text goes through the library's framing, then each line is decoded
//! with serde_json into the library's document types, as the service does.

use aeo_graph_explorer::graph::DecodedLine;
use aeo_graph_explorer::json::json_equal;
use aeo_graph_explorer::jsonl::jsonl_lines;
use aeo_graph_explorer::query::ValueQuery;
use aeo_graph_explorer::{
    neighbors, shortest_path, AeoEntity, AeoGraph, AeoNode, EdgeKind, GraphError, JsonNumber,
    JsonValue,
};

const JSONL: &str = r#"
{"id":"https://acme.example/#org","entity":{"id":"https://acme.example/#org","kind":"Organization","name":"Acme","canonical_url":"https://acme.example/"},"body":{"aeo_version":"0.1","peers":[{"id":"https://other.example/#org"}],"authority":{"primary_sources":["https://acme.example/"]},"claims":[{"id":"c1","predicate":"industry","value":"AI tutoring","confidence":"high"}]}}
{"id":"https://other.example/#org","entity":{"id":"https://other.example/#org","kind":"Organization","name":"Other","canonical_url":"https://other.example/"},"body":{"aeo_version":"0.1","peers":[{"id":"https://third.example/#org"}],"claims":[{"id":"c2","predicate":"industry","value":"AI tutoring","confidence":"medium"}]}}
{"id":"https://third.example/#org","entity":{"id":"https://third.example/#org","kind":"Organization","name":"Third","canonical_url":"https://third.example/"},"body":{"aeo_version":"0.1","claims":[{"id":"c3","predicate":"industry","value":"finance","confidence":"high"}]}}
"#;

fn to_json(v: serde_json::Value) -> JsonValue {
    match v {
        serde_json::Value::Null => JsonValue::Null,
        serde_json::Value::Bool(b) => JsonValue::Bool(b),
        serde_json::Value::Number(n) => JsonValue::Number(if let Some(u) = n.as_u64() {
            JsonNumber::PosInt(u)
        } else if let Some(i) = n.as_i64() {
            JsonNumber::NegInt(i)
        } else {
            JsonNumber::Float(n.as_f64().unwrap_or(0.0).to_bits())
        }),
        serde_json::Value::String(s) => JsonValue::Str(s),
        serde_json::Value::Array(xs) => JsonValue::Array(xs.into_iter().map(to_json).collect()),
        serde_json::Value::Object(m) => {
            JsonValue::Object(m.into_iter().map(|(k, v)| (k, to_json(v))).collect())
        }
    }
}

fn parse_json(text: &str) -> Option<JsonValue> {
    serde_json::from_str::<serde_json::Value>(text).ok().map(to_json)
}

fn opt_string(v: Option<&serde_json::Value>) -> Result<Option<String>, String> {
    match v {
        None | Some(serde_json::Value::Null) => Ok(None),
        Some(serde_json::Value::String(s)) => Ok(Some(s.clone())),
        Some(_) => Err("expected a string".to_string()),
    }
}

fn decode_node(text: &str) -> Result<AeoNode, String> {
    let v: serde_json::Value = serde_json::from_str(text).map_err(|e| e.to_string())?;
    let obj = v.as_object().ok_or("expected an object")?;
    let id = obj.get("id").and_then(|x| x.as_str()).ok_or("missing field `id`")?;
    let entity = obj.get("entity").and_then(|x| x.as_object()).ok_or("missing field `entity`")?;
    let entity = AeoEntity {
        id: entity.get("id").and_then(|x| x.as_str()).ok_or("missing field `id`")?.to_string(),
        kind: opt_string(entity.get("kind"))?,
        name: opt_string(entity.get("name"))?,
        canonical_url: opt_string(entity.get("canonical_url"))?,
    };
    let body = match obj.get("body") {
        None => Vec::new(),
        Some(serde_json::Value::Object(m)) => {
            m.clone().into_iter().map(|(k, v)| (k, to_json(v))).collect()
        }
        Some(_) => return Err("expected a map".to_string()),
    };
    Ok(AeoNode { id: id.to_string(), entity, body })
}

fn decode_lines(raw: &str) -> Vec<DecodedLine> {
    jsonl_lines(raw)
        .into_iter()
        .map(|l| DecodedLine { number: l.number, node: decode_node(&l.text) })
        .collect()
}

fn load(raw: &str) -> Result<AeoGraph, GraphError> {
    AeoGraph::from_jsonl(decode_lines(raw))
}

#[test]
fn jsonl_round_trips_into_a_three_node_graph() {
    let g = load(JSONL).unwrap();
    assert_eq!(g.node_count(), 3);
    // peers wires acme -> other -> third = 2 edges
    assert!(g.edge_count() >= 2);
}

#[test]
fn blank_lines_are_skipped() {
    let with_blanks = format!("\n{JSONL}\n\n");
    let g = load(&with_blanks).unwrap();
    assert_eq!(g.node_count(), 3);
}

#[test]
fn malformed_line_returns_jsonline_error() {
    let bad = "not json\n";
    let err = load(bad).err().unwrap();
    match err {
        GraphError::JsonLine { line, .. } => assert_eq!(line, 1),
        other => panic!("wrong variant: {other:?}"),
    }
}

#[test]
fn neighbors_split_inbound_and_outbound() {
    let g = load(JSONL).unwrap();
    let view = neighbors(&g, "https://other.example/#org").unwrap();
    // Other declares Third as a peer => one outbound edge
    assert_eq!(view.outbound.len(), 1);
    assert_eq!(view.outbound[0].entity.id, "https://third.example/#org");
    // Acme declared Other as a peer => one inbound edge
    assert_eq!(view.inbound.len(), 1);
    assert_eq!(view.inbound[0].entity.id, "https://acme.example/#org");
    assert!(matches!(view.inbound[0].edge, EdgeKind::DeclaresPeer));
}

#[test]
fn neighbors_for_missing_node_is_404_equivalent() {
    let g = load(JSONL).unwrap();
    let err = neighbors(&g, "https://nope.example/").err().unwrap();
    assert!(matches!(err, GraphError::NotFound(_)));
}

#[test]
fn shortest_path_finds_two_hop_route() {
    let g = load(JSONL).unwrap();
    let r = shortest_path(&g, "https://acme.example/#org", "https://third.example/#org").unwrap();
    assert!(r.found);
    assert_eq!(r.length, 2);
    assert_eq!(r.hops.len(), 3);
    assert_eq!(r.hops[0].entity.id, "https://acme.example/#org");
    assert_eq!(r.hops.last().unwrap().entity.id, "https://third.example/#org");
}

#[test]
fn shortest_path_returns_not_found_for_disconnected_nodes() {
    let g = load(JSONL).unwrap();
    // Third has no outgoing edges, so going Third -> Acme has no path.
    let r = shortest_path(&g, "https://third.example/#org", "https://acme.example/#org").unwrap();
    assert!(!r.found);
    assert_eq!(r.hops.len(), 0);
}

#[test]
fn find_by_claim_predicate() {
    let g = load(JSONL).unwrap();
    let r = aeo_graph_explorer::query::find_by_claim(&g, Some("industry"), None).unwrap();
    assert_eq!(r.len(), 3);
}

#[test]
fn find_by_claim_value_string() {
    let g = load(JSONL).unwrap();
    let q = "AI tutoring";
    let r = aeo_graph_explorer::query::find_by_claim(&g, None, Some(q)).unwrap();
    assert_eq!(r.len(), 2);
}

#[test]
fn find_by_claim_predicate_and_value() {
    let g = load(JSONL).unwrap();
    let q = "AI tutoring";
    let r = aeo_graph_explorer::query::find_by_claim(&g, Some("industry"), Some(q)).unwrap();
    assert_eq!(r.len(), 2);
    for m in &r {
        assert_eq!(m.predicate, "industry");
    }
}

#[test]
fn find_by_claim_empty_query_is_error() {
    let g = load(JSONL).unwrap();
    let err = aeo_graph_explorer::query::find_by_claim(&g, None, None).err().unwrap();
    assert!(matches!(err, GraphError::EmptyQuery));
}

// ---------------------------------------------------------------------------
// Framing
// ---------------------------------------------------------------------------

#[test]
fn framing_numbers_lines_from_one_and_skips_blank_ones() {
    let lines = jsonl_lines("a\n\n  b  \r\n\t\nc");
    let got: Vec<(usize, &str)> = lines.iter().map(|l| (l.number, l.text.as_str())).collect();
    assert_eq!(got, vec![(1, "a"), (3, "b"), (5, "c")]);
}

#[test]
fn framing_trims_unicode_white_space() {
    let lines = jsonl_lines("\u{a0}\u{3000}x y\u{2029}\n\u{85}\u{200a}");
    assert_eq!(lines.len(), 1);
    assert_eq!(lines[0].number, 1);
    assert_eq!(lines[0].text, "x y");
}

#[test]
fn framing_empty_and_trailing_newline() {
    assert!(jsonl_lines("").is_empty());
    assert!(jsonl_lines("\n\n\n").is_empty());
    let lines = jsonl_lines("{}\n");
    assert_eq!(lines.len(), 1);
    assert_eq!(lines[0].number, 1);
    assert_eq!(lines[0].text, "{}");
}

#[test]
fn malformed_second_line_reports_line_two() {
    let raw = format!("{}\nnot json\n", JSONL.trim().lines().next().unwrap());
    match load(&raw).err().unwrap() {
        GraphError::JsonLine { line, message } => {
            assert_eq!(line, 2);
            assert!(!message.is_empty());
        }
        other => panic!("wrong variant: {other:?}"),
    }
}

// ---------------------------------------------------------------------------
// Loading and edges
// ---------------------------------------------------------------------------

const SELF_AND_DUP: &str = r#"
{"id":"a","entity":{"id":"a","name":"first"},"body":{"peers":[{"id":"a"},{"id":"b"},{"id":"zzz"},{"name":"no id"},7],"authority":{"primary_sources":["a","b",3,"b"]}}}
{"id":"b","entity":{"id":"b"}}
{"id":"a","entity":{"id":"a","name":"second"},"body":{"peers":[{"id":"b"}],"authority":{"primary_sources":["a","b"]}}}
"#;

#[test]
fn later_line_replaces_earlier_node_with_same_id() {
    let g = load(SELF_AND_DUP).unwrap();
    assert_eq!(g.node_count(), 2);
    let a = g.node("a").unwrap();
    assert_eq!(a.entity.name.as_deref(), Some("second"));
    assert_eq!(g.node_at(0).id, "a");
    assert_eq!(g.node_at(1).id, "b");
    let ids: Vec<&str> = g.nodes().iter().map(|n| n.id.as_str()).collect();
    assert_eq!(ids, vec!["a", "b"]);
    assert!(g.node("zzz").is_none());
}

#[test]
fn edges_follow_the_replacing_document() {
    let g = load(SELF_AND_DUP).unwrap();
    // a: peer b; sources a (self, dropped) and b
    assert_eq!(g.edge_count(), 2);
    let view = neighbors(&g, "a").unwrap();
    let out: Vec<(EdgeKind, &str)> =
        view.outbound.iter().map(|e| (e.edge, e.entity.id.as_str())).collect();
    // newest edge first
    assert_eq!(out, vec![(EdgeKind::CitesAuthority, "b"), (EdgeKind::DeclaresPeer, "b")]);
    assert!(view.inbound.is_empty());
}

#[test]
fn wire_edges_keeps_self_peer_drops_self_citation_and_unknown_ids() {
    let first = SELF_AND_DUP.trim().lines().take(2).collect::<Vec<_>>().join("\n");
    let g = load(&first).unwrap();
    // peers: a (self-loop kept), b, zzz (unknown, dropped); sources: a (self, dropped), b, b
    assert_eq!(g.edge_count(), 4);
    let view = neighbors(&g, "a").unwrap();
    let out: Vec<(EdgeKind, &str)> =
        view.outbound.iter().map(|e| (e.edge, e.entity.id.as_str())).collect();
    assert_eq!(
        out,
        vec![
            (EdgeKind::CitesAuthority, "b"),
            (EdgeKind::CitesAuthority, "b"),
            (EdgeKind::DeclaresPeer, "b"),
            (EdgeKind::DeclaresPeer, "a"),
        ]
    );
    let inbound: Vec<(EdgeKind, &str)> =
        view.inbound.iter().map(|e| (e.edge, e.entity.id.as_str())).collect();
    assert_eq!(inbound, vec![(EdgeKind::DeclaresPeer, "a")]);
}

#[test]
fn upsert_then_node_reads_back_and_wire_edges_appends() {
    let mut g = AeoGraph::new();
    assert_eq!(g.node_count(), 0);
    let first = decode_node(r#"{"id":"x","entity":{"id":"x","name":"one"},"body":{"peers":[{"id":"y"}]}}"#).unwrap();
    let second = decode_node(r#"{"id":"y","entity":{"id":"y"}}"#).unwrap();
    let again = decode_node(r#"{"id":"x","entity":{"id":"x","name":"two"},"body":{"peers":[{"id":"y"}]}}"#).unwrap();
    assert_eq!(g.upsert(first), 0);
    assert_eq!(g.upsert(second), 1);
    assert_eq!(g.upsert(again), 0);
    assert_eq!(g.node_count(), 2);
    assert_eq!(g.node("x").unwrap().entity.name.as_deref(), Some("two"));
    assert_eq!(g.edge_count(), 0);
    g.wire_edges();
    assert_eq!(g.edge_count(), 1);
    g.wire_edges();
    assert_eq!(g.edge_count(), 2);
    let d = AeoGraph::default();
    assert_eq!(d.node_count(), 0);
    assert_eq!(d.edge_count(), 0);
}

// ---------------------------------------------------------------------------
// Neighbourhoods and paths
// ---------------------------------------------------------------------------

#[test]
fn neighbors_are_symmetric_on_the_sample() {
    let g = load(JSONL).unwrap();
    let ids = ["https://acme.example/#org", "https://other.example/#org", "https://third.example/#org"];
    for a in ids {
        let va = neighbors(&g, a).unwrap();
        assert_eq!(va.center.id, a);
        for e in &va.outbound {
            let vb = neighbors(&g, &e.entity.id).unwrap();
            let back = vb.inbound.iter().filter(|x| x.entity.id == a && x.edge == e.edge).count();
            let forth = va.outbound.iter().filter(|x| x.entity.id == e.entity.id && x.edge == e.edge).count();
            assert_eq!(back, forth);
        }
    }
}

#[test]
fn shortest_path_hops_name_edge_kinds() {
    let g = load(JSONL).unwrap();
    let r = shortest_path(&g, "https://acme.example/#org", "https://third.example/#org").unwrap();
    let vias: Vec<Option<EdgeKind>> = r.hops.iter().map(|h| h.via).collect();
    assert_eq!(vias, vec![Some(EdgeKind::DeclaresPeer), Some(EdgeKind::DeclaresPeer), None]);
    assert_eq!(r.hops[1].entity.id, "https://other.example/#org");
}

#[test]
fn shortest_path_to_itself_is_one_hop() {
    let g = load(JSONL).unwrap();
    let r = shortest_path(&g, "https://other.example/#org", "https://other.example/#org").unwrap();
    assert!(r.found);
    assert_eq!(r.length, 0);
    assert_eq!(r.hops.len(), 1);
    assert_eq!(r.hops[0].via, None);
}

#[test]
fn shortest_path_prefers_the_direct_edge() {
    let raw = r#"
{"id":"a","entity":{"id":"a"},"body":{"peers":[{"id":"b"},{"id":"c"}]}}
{"id":"b","entity":{"id":"b"},"body":{"peers":[{"id":"c"}]}}
{"id":"c","entity":{"id":"c"}}
"#;
    let g = load(raw).unwrap();
    let r = shortest_path(&g, "a", "c").unwrap();
    assert!(r.found);
    assert_eq!(r.length, 1);
    let ids: Vec<&str> = r.hops.iter().map(|h| h.entity.id.as_str()).collect();
    assert_eq!(ids, vec!["a", "c"]);
}

#[test]
fn shortest_path_unknown_ids_are_not_found() {
    let g = load(JSONL).unwrap();
    match shortest_path(&g, "nope", "https://acme.example/#org").err().unwrap() {
        GraphError::NotFound(id) => assert_eq!(id, "nope"),
        other => panic!("wrong variant: {other:?}"),
    }
    match shortest_path(&g, "https://acme.example/#org", "gone").err().unwrap() {
        GraphError::NotFound(id) => assert_eq!(id, "gone"),
        other => panic!("wrong variant: {other:?}"),
    }
}

// ---------------------------------------------------------------------------
// Claims and JSON values
// ---------------------------------------------------------------------------

const CLAIMS: &str = r#"
{"id":"n","entity":{"id":"n","name":"N"},"body":{"claims":[{"id":"k1","predicate":"employees","value":42},{"predicate":"employees","value":-0.0},{"id":"k3","predicate":"hq","value":{"city":"Oslo","zip":"0150"}},{"id":"k4","value":"no predicate"},{"id":7,"predicate":"nothing"},"not an object"]}}
{"id":"m","entity":{"id":"m"},"body":{"claims":{"predicate":"industry"}}}
"#;

#[test]
fn find_by_claim_matches_json_values() {
    let g = load(CLAIMS).unwrap();
    let r = aeo_graph_explorer::query::find_by_claim(&g, None, Some("42")).unwrap();
    assert_eq!(r.len(), 1);
    assert_eq!(r[0].claim_id, "k1");
    assert_eq!(r[0].entity.name.as_deref(), Some("N"));
    // keys in another order, still the same object
    let q = r#"{"zip":"0150","city":"Oslo"}"#;
    let r = aeo_graph_explorer::query::find_by_claim(&g, Some("hq"), Some(q)).unwrap();
    assert_eq!(r.len(), 1);
    assert_eq!(r[0].claim_id, "k3");
    // the string "42" is not the number 42 once the claim value is a string
    let r = aeo_graph_explorer::query::find_by_claim(&g, None, Some("Oslo")).unwrap();
    assert!(r.is_empty());
}

#[test]
fn find_by_claim_zero_floats_are_equal_and_missing_fields_default() {
    let g = load(CLAIMS).unwrap();
    let r = aeo_graph_explorer::query::find_by_claim(&g, None, Some("0.0")).unwrap();
    assert_eq!(r.len(), 1);
    assert_eq!(r[0].claim_id, "");
    let r = aeo_graph_explorer::query::find_by_claim(&g, Some("nothing"), None).unwrap();
    assert_eq!(r.len(), 1);
    assert_eq!(r[0].claim_id, "");
    assert!(matches!(r[0].value, JsonValue::Null));
    // claims without a string predicate, and non-array claims, never match
    let r = aeo_graph_explorer::query::find_by_claim(&g, None, Some("no predicate")).unwrap();
    assert!(r.is_empty());
    let r = aeo_graph_explorer::query::find_by_claim(&g, Some("industry"), None).unwrap();
    assert!(r.is_empty());
    let r = aeo_graph_explorer::query::find_by_claim(&g, Some("employees"), None).unwrap();
    assert_eq!(r.len(), 2);
}

#[test]
fn json_equality_and_copies() {
    let a = parse_json(r#"{"a":[1,2.5,-3,"x",null,true],"b":{"c":-0.0}}"#).unwrap();
    let b = parse_json(r#"{"b":{"c":0.0},"a":[1,2.5,-3,"x",null,true]}"#).unwrap();
    let c = parse_json(r#"{"b":{"c":0.0},"a":[1,2.5,-3,"x",null,false]}"#).unwrap();
    assert!(json_equal(&a, &b));
    assert!(!json_equal(&a, &c));
    assert!(!json_equal(&parse_json("1").unwrap(), &parse_json("1.0").unwrap()));
    let copy = a.deep_copy();
    assert!(json_equal(&copy, &a));
    assert_eq!(a.get("b").and_then(|v| v.get("c")).map(|v| matches!(v, JsonValue::Number(JsonNumber::Float(_)))), Some(true));
    assert!(a.get("missing").is_none());
    assert_eq!(a.get("a").and_then(|v| v.as_array()).map(|xs| xs.len()), Some(6));
    assert_eq!(parse_json("\"s\"").unwrap().as_str().map(|s| s.as_str()), Some("s"));
    assert!(parse_json("[1]").unwrap().get("0").is_none());
}

// ---------------------------------------------------------------------------
// The service's sample crawl, through the library
// ---------------------------------------------------------------------------

const SERVICE_JSONL: &str = r#"
{"id":"https://acme.example/#org","entity":{"id":"https://acme.example/#org","kind":"Organization","name":"Acme","canonical_url":"https://acme.example/"},"body":{"aeo_version":"0.1","peers":[{"id":"https://other.example/#org"}],"claims":[{"id":"c1","predicate":"industry","value":"AI tutoring"}]}}
{"id":"https://other.example/#org","entity":{"id":"https://other.example/#org","kind":"Organization","name":"Other","canonical_url":"https://other.example/"},"body":{"aeo_version":"0.1","claims":[{"id":"c2","predicate":"industry","value":"AI tutoring"}]}}
"#;

#[test]
fn service_sample_counts_and_lookups() {
    let g = load(SERVICE_JSONL).unwrap();
    assert_eq!(g.node_count(), 2);
    assert_eq!(g.edge_count(), 1);
    let acme = g.node("https://acme.example/#org").unwrap();
    assert_eq!(acme.entity.name.as_deref(), Some("Acme"));
    let version = acme.body.iter().find(|(k, _)| k == "aeo_version").map(|(_, v)| v);
    assert!(matches!(version, Some(JsonValue::Str(s)) if s == "0.1"));
    assert!(g.node("missing").is_none());
    let view = neighbors(&g, "https://acme.example/#org").unwrap();
    assert_eq!(view.outbound.len(), 1);
    let r = shortest_path(&g, "https://acme.example/#org", "https://other.example/#org").unwrap();
    assert!(r.found);
    assert_eq!(r.length, 1);
    let q = "AI tutoring";
    let m = aeo_graph_explorer::query::find_by_claim(&g, Some("industry"), Some(q)).unwrap();
    assert_eq!(m.len(), 2);
    assert_eq!(m[0].claim_id, "c1");
    assert_eq!(m[1].claim_id, "c2");
}

#[test]
fn blank_lines_leave_the_loaded_graph_unchanged() {
    let g1 = load(JSONL).unwrap();
    let spaced = JSONL.replace('\n', "\n  \n\t\r\n");
    let g2 = load(&spaced).unwrap();
    assert_eq!(g1.node_count(), g2.node_count());
    assert_eq!(g1.edge_count(), g2.edge_count());
    let ids1: Vec<&str> = g1.nodes().iter().map(|n| n.id.as_str()).collect();
    let ids2: Vec<&str> = g2.nodes().iter().map(|n| n.id.as_str()).collect();
    assert_eq!(ids1, ids2);
    for id in &ids1 {
        let a = neighbors(&g1, id).unwrap();
        let b = neighbors(&g2, id).unwrap();
        assert_eq!(a.outbound.len(), b.outbound.len());
        assert_eq!(a.inbound.len(), b.inbound.len());
    }
}

#[test]
fn degree_sums_equal_the_edge_count() {
    let g = load(JSONL).unwrap();
    let ids: Vec<String> = g.nodes().iter().map(|n| n.id.clone()).collect();
    let mut outs = 0;
    let mut ins = 0;
    for id in &ids {
        let v = neighbors(&g, id).unwrap();
        outs += v.outbound.len();
        ins += v.inbound.len();
    }
    assert_eq!(outs, g.edge_count());
    assert_eq!(ins, g.edge_count());
    assert_eq!(g.edge_count(), 2);
}

#[test]
fn claim_search_by_both_is_either_search_filtered() {
    let g = load(JSONL).unwrap();
    let q = "AI tutoring";
    let key = |m: &aeo_graph_explorer::ClaimMatch| (m.entity.id.clone(), m.claim_id.clone(), m.predicate.clone());
    let both: Vec<_> = aeo_graph_explorer::query::find_by_claim(&g, Some("industry"), Some(q))
        .unwrap()
        .iter()
        .map(key)
        .collect();
    let by_value: Vec<_> =
        aeo_graph_explorer::query::find_by_claim(&g, None, Some(q)).unwrap().iter().map(key).collect();
    let by_pred: Vec<_> =
        aeo_graph_explorer::query::find_by_claim(&g, Some("industry"), None).unwrap().iter().map(key).collect();
    let from_value: Vec<_> = by_value.iter().filter(|k| k.2 == "industry").cloned().collect();
    let from_pred: Vec<_> = by_pred.iter().filter(|k| by_value.contains(k)).cloned().collect();
    assert_eq!(both, from_value);
    assert_eq!(both, from_pred);
    assert_eq!(by_pred.len(), 3);
    assert_eq!(both.len(), 2);
}

#[test]
fn checked_load_builds_the_same_graph_and_reports_bad_lines() {
    let g = AeoGraph::from_jsonl_checked(decode_lines(JSONL)).unwrap().unwrap();
    assert_eq!(g.node_count(), 3);
    assert_eq!(g.edge_count(), 2);
    let bad = format!("{JSONL}\nnot json\n");
    match AeoGraph::from_jsonl_checked(decode_lines(&bad)).unwrap() {
        Err(GraphError::JsonLine { line, .. }) => assert_eq!(line, 6),
        other => panic!("expected a line error, got {:?}", other.map(|g| g.node_count())),
    }
}

#[test]
fn claim_search_with_an_unread_value_matches_strings_only() {
    let g = load(CLAIMS).unwrap();
    // the text "42" left unread as JSON: the number 42 no longer matches
    let q = ValueQuery { text: "42".to_string(), json: None };
    let r = aeo_graph_explorer::query::find_by_claim_query(&g, None, Some(&q)).unwrap();
    assert!(r.is_empty());
    // read as JSON, it does
    let q = ValueQuery { text: "42".to_string(), json: parse_json("42") };
    let r = aeo_graph_explorer::query::find_by_claim_query(&g, None, Some(&q)).unwrap();
    assert_eq!(r.len(), 1);
    assert_eq!(r[0].claim_id, "k1");
}

#[test]
fn claim_matches_and_nodes_clone() {
    let g = load(JSONL).unwrap();
    let m = aeo_graph_explorer::query::find_by_claim(&g, Some("industry"), None).unwrap();
    let copy = m.clone();
    assert_eq!(copy.len(), m.len());
    assert!(json_equal(&copy[0].value, &m[0].value));
    let n = g.node("https://acme.example/#org").unwrap().clone();
    assert_eq!(n.id, "https://acme.example/#org");
    assert_eq!(n.body.len(), g.node("https://acme.example/#org").unwrap().body.len());
}
