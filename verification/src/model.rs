//! The AEO documents the explorer ingests.
//!
//! A node is one JSONL line: its identifier, a denormalised summary of the
//! entity, and the whole body as JSON. Unknown fields stay in the body as
//! they were.
use vstd::prelude::*;

use crate::json::{JsonModel, JsonValue, json_wf, keys_distinct, members_model};

verus! {

/// Denormalised view of the most-asked-about fields of an entity.
#[derive(Debug, Clone)]
pub struct AeoEntity {
    /// The same identifier as `AeoNode.id`.
    pub id: String,
    /// `Organization`, `Person`, `Product`, ...
    pub kind: Option<String>,
    /// Human-readable name.
    pub name: Option<String>,
    /// Where the entity says its truth-source lives.
    pub canonical_url: Option<String>,
}

/// The model of an [`AeoEntity`].
pub struct EntityModel {
    pub id: Seq<char>,
    pub kind: Option<Seq<char>>,
    pub name: Option<Seq<char>>,
    pub canonical_url: Option<Seq<char>>,
}

/// The model of an optional string.
pub open spec fn opt_str_model(s: Option<String>) -> Option<Seq<char>> {
    match s {
        Some(t) => Some(t@),
        None => None,
    }
}

impl View for AeoEntity {
    type V = EntityModel;

    open spec fn view(&self) -> EntityModel {
        EntityModel {
            id: self.id@,
            kind: opt_str_model(self.kind),
            name: opt_str_model(self.name),
            canonical_url: opt_str_model(self.canonical_url),
        }
    }
}

/// A copy of an optional string.
fn copy_opt_str(s: &Option<String>) -> (r: Option<String>)
    ensures
        opt_str_model(r) == opt_str_model(*s),
{
    match s {
        Some(t) => Some(t.clone()),
        None => None,
    }
}

impl AeoEntity {
    /// A copy of `self` with the same model.
    pub fn copy(&self) -> (r: AeoEntity)
        ensures
            r@ == self@,
    {
        AeoEntity {
            id: self.id.clone(),
            kind: copy_opt_str(&self.kind),
            name: copy_opt_str(&self.name),
            canonical_url: copy_opt_str(&self.canonical_url),
        }
    }
}

/// One ingested AEO node.
#[derive(Clone, Debug)]
pub struct AeoNode {
    /// Stable entity identifier, typically the canonical entity URL.
    pub id: String,
    /// Summary used by list responses.
    pub entity: AeoEntity,
    /// Full AEO document: its top-level members as (key, value) pairs.
    pub body: Vec<(String, JsonValue)>,
}

/// The model of an [`AeoNode`].
pub struct NodeModel {
    pub id: Seq<char>,
    pub entity: EntityModel,
    pub body: Seq<(Seq<char>, JsonModel)>,
}

impl View for AeoNode {
    type V = NodeModel;

    open spec fn view(&self) -> NodeModel {
        NodeModel { id: self.id@, entity: self.entity@, body: members_model(self.body@) }
    }
}

/// A node as a JSON reader produces it: its body is a map (distinct
/// top-level keys) of well-formed documents.
pub open spec fn node_wf(n: NodeModel) -> bool {
    &&& keys_distinct(n.body)
    &&& forall|i: int| #![trigger n.body[i]] 0 <= i < n.body.len() ==> json_wf(n.body[i].1)
}

/// One assertion an entity makes about itself, as an AEO document writes it
/// under `claims`.
#[derive(Clone, Debug)]
pub struct AeoClaim {
    /// Stable identifier for the claim.
    pub id: String,
    /// The predicate, e.g. `description`, `industry`, `headquartered_in`.
    pub predicate: String,
    /// The claim's value.
    pub value: JsonValue,
    /// Self-reported confidence (`"high"`, `"medium"`, `"low"`).
    pub confidence: Option<String>,
}

} // verus!
