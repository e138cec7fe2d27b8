//! JSON values as the graph explorer reads them.
//!
//! Node bodies are arbitrary JSON documents. The library keeps them as a
//! tree of its own (`JsonValue`) whose mathematical model (`JsonModel`)
//! the contracts speak of. Numbers keep the three shapes that a JSON
//! reader distinguishes (non-negative integer, negative integer, float),
//! floats by their IEEE-754 bit pattern.
use vstd::prelude::*;

verus! {

/// Sign bit of an IEEE-754 binary64 value.
pub const FLOAT_SIGN_BIT: u64 = 0x8000_0000_0000_0000u64;

/// A JSON number.
#[derive(Clone, Copy, Debug, PartialEq, Eq, Structural)]
pub enum JsonNumber {
    /// A non-negative integer.
    PosInt(u64),
    /// A negative integer.
    NegInt(i64),
    /// A finite float, as its IEEE-754 binary64 bit pattern.
    Float(u64),
}

/// A JSON document.
#[derive(Debug)]
pub enum JsonValue {
    /// `null`
    Null,
    /// `true` / `false`
    Bool(bool),
    /// A number.
    Number(JsonNumber),
    /// A string.
    Str(String),
    /// An array, in document order.
    Array(Vec<JsonValue>),
    /// An object: its members as (key, value) pairs.
    Object(Vec<(String, JsonValue)>),
}

/// The mathematical model of a [`JsonValue`]: strings as character sequences.
pub enum JsonModel {
    Null,
    Bool(bool),
    Number(JsonNumber),
    Str(Seq<char>),
    Array(Seq<JsonModel>),
    Object(Seq<(Seq<char>, JsonModel)>),
}

/// The model of an object's member list.
pub open spec fn members_model(es: Seq<(String, JsonValue)>) -> Seq<(Seq<char>, JsonModel)> {
    Seq::new(es.len(), |i: int| (es[i].0@, es[i].1@))
}

impl JsonValue {
    /// The mathematical model of `self`.
    pub open spec fn model(self) -> JsonModel
        decreases self,
    {
        match self {
            JsonValue::Null => JsonModel::Null,
            JsonValue::Bool(b) => JsonModel::Bool(b),
            JsonValue::Number(n) => JsonModel::Number(n),
            JsonValue::Str(s) => JsonModel::Str(s@),
            JsonValue::Array(xs) => JsonModel::Array(
                Seq::new(
                    xs@.len(),
                    |i: int|
                        if 0 <= i < xs@.len() {
                            xs@[i].model()
                        } else {
                            JsonModel::Null
                        },
                ),
            ),
            JsonValue::Object(es) => JsonModel::Object(
                Seq::new(
                    es@.len(),
                    |i: int|
                        if 0 <= i < es@.len() {
                            (es@[i].0@, es@[i].1.model())
                        } else {
                            (Seq::empty(), JsonModel::Null)
                        },
                ),
            ),
        }
    }
}

impl View for JsonValue {
    type V = JsonModel;

    open spec fn view(&self) -> JsonModel {
        self.model()
    }
}

/// Is `bits` the pattern of `+0.0` or `-0.0`?
pub open spec fn is_zero_bits(bits: u64) -> bool {
    bits == 0 || bits == FLOAT_SIGN_BIT
}

/// Equality of two JSON numbers: same shape and same value. Floats compare
/// as IEEE-754 values do, so `+0.0` equals `-0.0` (JSON has no NaN).
pub open spec fn number_eq(a: JsonNumber, b: JsonNumber) -> bool {
    match (a, b) {
        (JsonNumber::PosInt(x), JsonNumber::PosInt(y)) => x == y,
        (JsonNumber::NegInt(x), JsonNumber::NegInt(y)) => x == y,
        (JsonNumber::Float(x), JsonNumber::Float(y)) => x == y || (is_zero_bits(x) && is_zero_bits(
            y,
        )),
        _ => false,
    }
}

/// Equality of two JSON documents. Arrays compare element by element;
/// objects are equal when they have as many members and every member of
/// `a` is matched by a member of `b` (see [`member_matched`]). For objects
/// whose keys are distinct (as a JSON reader produces them) this is
/// equality of the two key-to-value maps.
pub open spec fn json_eq(a: JsonModel, b: JsonModel) -> bool
    decreases a,
{
    match a {
        JsonModel::Null => b is Null,
        JsonModel::Bool(x) => b matches JsonModel::Bool(y) && x == y,
        JsonModel::Number(x) => b matches JsonModel::Number(y) && number_eq(x, y),
        JsonModel::Str(x) => b matches JsonModel::Str(y) && x == y,
        JsonModel::Array(xs) => b matches JsonModel::Array(ys) && xs.len() == ys.len() && forall|
            i: int,
        |
            #![trigger xs[i]]
            0 <= i < xs.len() ==> json_eq(xs[i], ys[i]),
        JsonModel::Object(xs) => b matches JsonModel::Object(ys) && xs.len() == ys.len() && forall|
            i: int,
        |
            #![trigger xs[i]]
            0 <= i < xs.len() ==> member_matched(xs[i], ys),
    }
}

/// Some member of `ys` has the key of `m` and a value equal to that of `m`.
pub open spec fn member_matched(m: (Seq<char>, JsonModel), ys: Seq<(Seq<char>, JsonModel)>) -> bool
    decreases m,
{
    exists|j: int| #![trigger ys[j]] 0 <= j < ys.len() && m.0 == ys[j].0 && json_eq(m.1, ys[j].1)
}

/// No two members of `es` share a key.
pub open spec fn keys_distinct(es: Seq<(Seq<char>, JsonModel)>) -> bool {
    forall|i: int, j: int| 0 <= i < j < es.len() ==> (#[trigger] es[i]).0 != (#[trigger] es[j]).0
}

/// A JSON document as a JSON reader produces it: every object, at any
/// depth, has distinct keys (an object is a map from keys to values).
pub open spec fn json_wf(v: JsonModel) -> bool
    decreases v,
{
    match v {
        JsonModel::Array(xs) => forall|i: int| #![trigger xs[i]] 0 <= i < xs.len() ==> json_wf(xs[i]),
        JsonModel::Object(es) => keys_distinct(es) && forall|i: int|
            #![trigger es[i]]
            0 <= i < es.len() ==> json_wf(es[i].1),
        _ => true,
    }
}

/// The value of the first member of `es` whose key is `key`.
pub open spec fn member_get(es: Seq<(Seq<char>, JsonModel)>, key: Seq<char>) -> Option<JsonModel>
    decreases es.len(),
{
    if es.len() == 0 {
        None
    } else if es[0].0 == key {
        Some(es[0].1)
    } else {
        member_get(es.drop_first(), key)
    }
}

/// `v[key]` for an object `v`; `None` for every other kind of value.
pub open spec fn json_get(v: JsonModel, key: Seq<char>) -> Option<JsonModel> {
    match v {
        JsonModel::Object(es) => member_get(es, key),
        _ => None,
    }
}

/// The string held by `v`, if it is a string.
pub open spec fn json_as_str(v: JsonModel) -> Option<Seq<char>> {
    match v {
        JsonModel::Str(s) => Some(s),
        _ => None,
    }
}

/// The elements of `v`, if it is an array.
pub open spec fn json_as_array(v: JsonModel) -> Option<Seq<JsonModel>> {
    match v {
        JsonModel::Array(xs) => Some(xs),
        _ => None,
    }
}

/// Looking past a prefix that holds no member with the key.
pub proof fn lemma_member_get_skip(es: Seq<(Seq<char>, JsonModel)>, key: Seq<char>, i: int)
    requires
        0 <= i <= es.len(),
        forall|j: int| 0 <= j < i ==> es[j].0 != key,
    ensures
        member_get(es, key) == member_get(es.skip(i), key),
    decreases i,
{
    if i > 0 {
        lemma_member_get_skip(es.drop_first(), key, i - 1);
        assert(es.drop_first().skip(i - 1) =~= es.skip(i));
    } else {
        assert(es.skip(0) =~= es);
    }
}

/// The value of the first member of `members` whose key is `key`.
pub fn members_lookup<'a>(members: &'a Vec<(String, JsonValue)>, key: &str) -> (r: Option<
    &'a JsonValue,
>)
    ensures
        match member_get(members_model(members@), key@) {
            Some(m) => r matches Some(v) && v@ == m,
            None => r is None,
        },
{
    let ghost ms = members_model(members@);
    let wanted = key.to_owned();
    let mut i: usize = 0;
    while i < members.len()
        invariant
            0 <= i <= members@.len(),
            ms == members_model(members@),
            wanted@ == key@,
            forall|j: int| 0 <= j < i ==> ms[j].0 != key@,
        decreases members@.len() - i,
    {
        if members[i].0 == wanted {
            proof {
                lemma_member_get_skip(ms, key@, i as int);
            }
            return Some(&members[i].1);
        }
        i += 1;
    }
    proof {
        lemma_member_get_skip(ms, key@, i as int);
    }
    None
}

impl JsonValue {
    /// `self[key]`: the member `key` of an object, `None` for any other value
    /// or a missing key.
    pub fn get(&self, key: &str) -> (r: Option<&JsonValue>)
        ensures
            match json_get(self@, key@) {
                Some(m) => r matches Some(v) && v@ == m,
                None => r is None,
            },
    {
        match self {
            JsonValue::Object(es) => {
                assert(members_model(es@) =~= self@->Object_0);
                members_lookup(es, key)
            },
            _ => None,
        }
    }

    /// The string held by `self`, if it is a string.
    pub fn as_str(&self) -> (r: Option<&String>)
        ensures
            match json_as_str(self@) {
                Some(s) => r matches Some(t) && t@ == s,
                None => r is None,
            },
    {
        match self {
            JsonValue::Str(s) => Some(s),
            _ => None,
        }
    }

    /// The elements of `self`, if it is an array.
    pub fn as_array(&self) -> (r: Option<&Vec<JsonValue>>)
        ensures
            match json_as_array(self@) {
                Some(xs) => r matches Some(v) && v@.len() == xs.len() && forall|i: int|
                    0 <= i < xs.len() ==> #[trigger] v@[i]@ == xs[i],
                None => r is None,
            },
    {
        match self {
            JsonValue::Array(xs) => Some(xs),
            _ => None,
        }
    }
}

/// Equality of two JSON numbers, as [`number_eq`] states it.
pub fn number_equal(a: &JsonNumber, b: &JsonNumber) -> (r: bool)
    ensures
        r == number_eq(*a, *b),
{
    match (a, b) {
        (JsonNumber::PosInt(x), JsonNumber::PosInt(y)) => *x == *y,
        (JsonNumber::NegInt(x), JsonNumber::NegInt(y)) => *x == *y,
        (JsonNumber::Float(x), JsonNumber::Float(y)) => *x == *y || ((*x == 0 || *x
            == FLOAT_SIGN_BIT) && (*y == 0 || *y == FLOAT_SIGN_BIT)),
        _ => false,
    }
}

/// Equality of two JSON documents, as [`json_eq`] states it.
#[verifier::loop_isolation(false)]
pub fn json_equal(a: &JsonValue, b: &JsonValue) -> (r: bool)
    ensures
        r == json_eq(a@, b@),
    decreases a,
{
    match a {
        JsonValue::Null => match b {
            JsonValue::Null => true,
            _ => false,
        },
        JsonValue::Bool(x) => match b {
            JsonValue::Bool(y) => *x == *y,
            _ => false,
        },
        JsonValue::Number(x) => match b {
            JsonValue::Number(y) => number_equal(x, y),
            _ => false,
        },
        JsonValue::Str(x) => match b {
            JsonValue::Str(y) => *x == *y,
            _ => false,
        },
        JsonValue::Array(xs) => match b {
            JsonValue::Array(ys) => {
                if xs.len() != ys.len() {
                    return false;
                }
                let ghost am = a@->Array_0;
                let ghost bm = b@->Array_0;
                let mut i: usize = 0;
                while i < xs.len()
                    invariant
                        0 <= i <= xs@.len(),
                        xs@.len() == ys@.len(),
                        am == a@->Array_0,
                        bm == b@->Array_0,
                        am.len() == xs@.len(),
                        bm.len() == ys@.len(),
                        forall|j: int| 0 <= j < am.len() ==> #[trigger] am[j] == xs@[j]@,
                        forall|j: int| 0 <= j < bm.len() ==> #[trigger] bm[j] == ys@[j]@,
                        forall|j: int| 0 <= j < i ==> json_eq(#[trigger] am[j], bm[j]),
                    decreases xs@.len() - i,
                {
                    if !json_equal(&xs[i], &ys[i]) {
                        assert(!json_eq(am[i as int], bm[i as int]));
                        return false;
                    }
                    i += 1;
                }
                assert(a@ == JsonModel::Array(am));
                assert(b@ == JsonModel::Array(bm));
                assert(json_eq(a@, b@));
                true
            },
            _ => false,
        },
        JsonValue::Object(xs) => match b {
            JsonValue::Object(ys) => {
                if xs.len() != ys.len() {
                    return false;
                }
                let ghost am = a@->Object_0;
                let ghost bm = b@->Object_0;
                let mut i: usize = 0;
                while i < xs.len()
                    invariant
                        0 <= i <= xs@.len(),
                        xs@.len() == ys@.len(),
                        am == a@->Object_0,
                        bm == b@->Object_0,
                        am.len() == xs@.len(),
                        bm.len() == ys@.len(),
                        forall|j: int|
                            0 <= j < am.len() ==> #[trigger] am[j] == (xs@[j].0@, xs@[j].1@),
                        forall|j: int|
                            0 <= j < bm.len() ==> #[trigger] bm[j] == (ys@[j].0@, ys@[j].1@),
                        forall|k: int| 0 <= k < i ==> member_matched(#[trigger] am[k], bm),
                    decreases xs@.len() - i,
                {
                    let mut found = false;
                    let mut j: usize = 0;
                    while j < ys.len() && !found
                        invariant
                            0 <= i < xs@.len(),
                            0 <= j <= ys@.len(),
                            xs@.len() == ys@.len(),
                            am.len() == xs@.len(),
                            bm.len() == ys@.len(),
                            forall|k: int|
                                0 <= k < am.len() ==> #[trigger] am[k] == (xs@[k].0@, xs@[k].1@),
                            forall|k: int|
                                0 <= k < bm.len() ==> #[trigger] bm[k] == (ys@[k].0@, ys@[k].1@),
                            found ==> member_matched(am[i as int], bm),
                            !found ==> forall|k: int|
                                #![trigger bm[k]]
                                0 <= k < j ==> !(am[i as int].0 == bm[k].0 && json_eq(
                                    am[i as int].1,
                                    bm[k].1,
                                )),
                        decreases ys@.len() - j + (if found { 0int } else { 1int }),
                    {
                        if xs[i].0 == ys[j].0 && json_equal(&xs[i].1, &ys[j].1) {
                            assert(bm[j as int].0 == am[i as int].0);
                            found = true;
                        } else {
                            assert(!(am[i as int].0 == bm[j as int].0 && json_eq(
                                am[i as int].1,
                                bm[j as int].1,
                            )));
                            j += 1;
                        }
                    }
                    if !found {
                        proof {
                            assert(a@ == JsonModel::Object(am));
                            assert(b@ == JsonModel::Object(bm));
                            assert(!member_matched(am[i as int], bm));
                        }
                        return false;
                    }
                    i += 1;
                }
                assert(a@ == JsonModel::Object(am));
                assert(b@ == JsonModel::Object(bm));
                true
            },
            _ => false,
        },
    }
}

impl JsonValue {
    /// A copy of `self` with the same model.
    #[verifier::loop_isolation(false)]
    pub fn deep_copy(&self) -> (r: JsonValue)
        ensures
            r@ == self@,
        decreases self,
    {
        match self {
            JsonValue::Null => JsonValue::Null,
            JsonValue::Bool(b) => JsonValue::Bool(*b),
            JsonValue::Number(n) => JsonValue::Number(*n),
            JsonValue::Str(s) => JsonValue::Str(s.clone()),
            JsonValue::Array(xs) => {
                let mut out: Vec<JsonValue> = Vec::new();
                let mut i: usize = 0;
                while i < xs.len()
                    invariant
                        0 <= i <= xs@.len(),
                        out@.len() == i,
                        forall|j: int| 0 <= j < i ==> #[trigger] out@[j]@ == xs@[j]@,
                    decreases xs@.len() - i,
                {
                    out.push(xs[i].deep_copy());
                    i += 1;
                }
                let r = JsonValue::Array(out);
                assert forall|j: int| 0 <= j < xs@.len() implies r@->Array_0[j] == self@->Array_0[j] by {
                    assert(r@->Array_0[j] == out@[j]@);
                }
                assert(r@->Array_0 =~= self@->Array_0);
                r
            },
            JsonValue::Object(es) => {
                let mut out: Vec<(String, JsonValue)> = Vec::new();
                let mut i: usize = 0;
                while i < es.len()
                    invariant
                        0 <= i <= es@.len(),
                        out@.len() == i,
                        forall|j: int|
                            0 <= j < i ==> (#[trigger] out@[j]).0@ == es@[j].0@ && out@[j].1@
                                == es@[j].1@,
                    decreases es@.len() - i,
                {
                    out.push((es[i].0.clone(), es[i].1.deep_copy()));
                    i += 1;
                }
                let r = JsonValue::Object(out);
                assert(r@->Object_0 =~= self@->Object_0);
                r
            },
        }
    }
}

impl Clone for JsonValue {
    /// A copy with the same model.
    fn clone(&self) -> (r: JsonValue)
        ensures
            r@ == self@,
    {
        self.deep_copy()
    }
}

// ---------------------------------------------------------------------------
// Reading JSON text
// ---------------------------------------------------------------------------

#[verifier::external_type_specification]
#[verifier::external_body]
pub struct ExSerdeJsonValue(serde_json::Value);

#[verifier::external_type_specification]
#[verifier::external_body]
pub struct ExSerdeJsonNumber(serde_json::Number);

/// The document serde_json reads from `text` (`serde_json::from_str` into a
/// `serde_json::Value`), as a [`JsonModel`]; `None` when `text` is not a
/// JSON document.
pub uninterp spec fn json_text_value(text: Seq<char>) -> Option<JsonModel>;

/// A `serde_json::Number` as the library holds it, in the same one of its
/// three shapes: a non-negative integer, a negative integer, or a float's
/// bit pattern.
#[verifier::external_body]
fn from_serde_number(n: &serde_json::Number) -> JsonNumber {
    match (n.as_u64(), n.as_i64(), n.as_f64()) {
        (Some(u), _, _) => JsonNumber::PosInt(u),
        (None, Some(i), _) => JsonNumber::NegInt(i),
        (None, None, x) => JsonNumber::Float(x.map_or(0, |f| f.to_bits())),
    }
}

/// `serde_json::Value` as the library holds it, one for one: numbers keep
/// serde_json's three shapes, objects their members in the map's order.
#[verifier::external_body]
fn from_serde_value(v: serde_json::Value) -> JsonValue {
    match v {
        serde_json::Value::Null => JsonValue::Null,
        serde_json::Value::Bool(b) => JsonValue::Bool(b),
        serde_json::Value::Number(n) => JsonValue::Number(from_serde_number(&n)),
        serde_json::Value::String(t) => JsonValue::Str(t),
        serde_json::Value::Array(xs) => JsonValue::Array(xs.into_iter().map(from_serde_value).collect()),
        serde_json::Value::Object(m) => JsonValue::Object(m.into_iter().map(|(k, x)| (k, from_serde_value(x))).collect()),
    }
}

/// `serde_json::from_str::<serde_json::Value>`: reads `text` as one JSON
/// document. The result is what [`json_text_value`] names: the document
/// when `text` is one, `None` when serde_json reports an error.
#[verifier::external_body]
pub(crate) fn parse_json_text(text: &str) -> (r: Option<JsonValue>)
    ensures
        match r {
            Some(v) => json_text_value(text@) == Some(v@),
            None => json_text_value(text@) is None,
        },
{
    match serde_json::from_str::<serde_json::Value>(text) {
        Ok(v) => Some(from_serde_value(v)),
        Err(_) => None,
    }
}

} // verus!
