//! A JSON document held as plain values, with its mathematical model.
//!
//! Object members keep their order; a lookup by key finds the first member
//! with that key, as a map with unique keys does.
use vstd::prelude::*;

use crate::text::{owned, str_eq};

verus! {

/// Mathematical model of a JSON value.
pub enum Json {
    Null,
    Bool(bool),
    Number(Seq<char>),
    Str(Seq<char>),
    Array(Seq<Json>),
    Object(Seq<(Seq<char>, Json)>),
}

/// A JSON value. Numbers keep their textual form.
#[derive(Debug, PartialEq, Eq)]
pub enum JsonValue {
    Null,
    Bool(bool),
    Number(String),
    Str(String),
    Array(Vec<JsonValue>),
    Object(Vec<(String, JsonValue)>),
}

/// The model of a sequence of JSON values.
pub open spec fn items_model(items: Seq<JsonValue>) -> Seq<Json> {
    Seq::new(items.len(), |i: int| items[i].model())
}

/// The model of a sequence of object members.
pub open spec fn members_model(members: Seq<(String, JsonValue)>) -> Seq<(Seq<char>, Json)> {
    Seq::new(members.len(), |i: int| (members[i].0@, members[i].1.model()))
}

impl JsonValue {
    /// The mathematical value this JSON value stands for.
    pub open spec fn model(&self) -> Json
        decreases self,
    {
        match self {
            JsonValue::Null => Json::Null,
            JsonValue::Bool(b) => Json::Bool(*b),
            JsonValue::Number(n) => Json::Number(n@),
            JsonValue::Str(s) => Json::Str(s@),
            JsonValue::Array(items) => Json::Array(
                Seq::new(
                    items@.len(),
                    |i: int|
                        if 0 <= i < items@.len() {
                            items@[i].model()
                        } else {
                            Json::Null
                        },
                ),
            ),
            JsonValue::Object(members) => Json::Object(
                Seq::new(
                    members@.len(),
                    |i: int|
                        if 0 <= i < members@.len() {
                            (members@[i].0@, members@[i].1.model())
                        } else {
                            (Seq::empty(), Json::Null)
                        },
                ),
            ),
        }
    }
}

impl View for JsonValue {
    type V = Json;

    open spec fn view(&self) -> Json {
        self.model()
    }
}

/// The model of an array value is the model of its items.
pub proof fn lemma_array_model(items: Vec<JsonValue>)
    ensures
        JsonValue::Array(items).model() == Json::Array(items_model(items@)),
{
    assert(items_model(items@) =~= JsonValue::Array(items).model()->Array_0);
}

/// The model of an object value is the model of its members.
pub proof fn lemma_object_model(members: Vec<(String, JsonValue)>)
    ensures
        JsonValue::Object(members).model() == Json::Object(members_model(members@)),
{
    assert(members_model(members@) =~= JsonValue::Object(members).model()->Object_0);
}

// ---------------------------------------------------------------------------
// First index satisfying a predicate

/// `i` is the first index of `s` whose element satisfies `p`.
pub open spec fn is_first<A>(s: Seq<A>, p: spec_fn(A) -> bool, i: int) -> bool {
    &&& 0 <= i < s.len()
    &&& p(s[i])
    &&& forall|j: int| 0 <= j < i ==> !p(#[trigger] s[j])
}

/// Some element of `s` satisfies `p`.
pub open spec fn any<A>(s: Seq<A>, p: spec_fn(A) -> bool) -> bool {
    exists|i: int| 0 <= i < s.len() && p(#[trigger] s[i])
}

/// The first index of `s` whose element satisfies `p` (meaningful when `any(s, p)`).
pub open spec fn first<A>(s: Seq<A>, p: spec_fn(A) -> bool) -> int {
    choose|i: int| is_first(s, p, i)
}

/// When some element satisfies `p`, `first` names the first one.
pub proof fn lemma_first_exists<A>(s: Seq<A>, p: spec_fn(A) -> bool)
    requires
        any(s, p),
    ensures
        is_first(s, p, first(s, p)),
    decreases s.len(),
{
    if p(s[0]) {
        assert(is_first(s, p, 0));
    } else {
        let t = s.drop_first();
        let w = choose|i: int| 0 <= i < s.len() && p(#[trigger] s[i]);
        assert(t[w - 1] == s[w]);
        lemma_first_exists(t, p);
        let k = first(t, p);
        assert forall|j: int| 0 <= j < k + 1 implies !p(#[trigger] s[j]) by {
            if j > 0 {
                assert(s[j] == t[j - 1]);
            }
        }
        assert(is_first(s, p, k + 1));
    }
}

/// The first index satisfying `p` is unique.
pub proof fn lemma_first_unique<A>(s: Seq<A>, p: spec_fn(A) -> bool, i: int)
    requires
        is_first(s, p, i),
    ensures
        first(s, p) == i,
{
    assert(any(s, p));
    lemma_first_exists(s, p);
    let k = first(s, p);
    if k < i {
        assert(!p(s[k]));
    }
    if i < k {
        assert(!p(s[i]));
    }
}

// ---------------------------------------------------------------------------
// Reading values

/// The member has key `key`.
pub open spec fn key_is(key: Seq<char>) -> spec_fn((Seq<char>, Json)) -> bool {
    |m: (Seq<char>, Json)| m.0 == key
}

/// Detaches the value under `key`, leaving null in its place.
pub fn take_member(v: &mut JsonValue, key: &str) -> (r: Option<JsonValue>)
    ensures
        r matches Some(x) ==> obj_get(old(v)@, key@) == Some(x@) && final(v)@ == obj_set(
            old(v)@,
            key@,
            Json::Null,
        ) && *final(v) is Object,
        r is None ==> obj_get(old(v)@, key@) is None && final(v)@ == old(v)@,
{
    match v {
        JsonValue::Object(members) => {
            proof {
                lemma_object_model(*members);
            }
            let ghost old_members = members@;
            match member_index(members, key) {
                Some(k) => {
                    proof {
                        lemma_first_unique(members_model(members@), key_is(key@), k as int);
                    }
                    let (name, value) = members.remove(k);
                    members.insert(k, (name, JsonValue::Null));
                    assert(members_model(members@) =~= members_model(old_members).update(
                        k as int,
                        (key@, Json::Null),
                    ));
                    proof {
                        lemma_object_model(*members);
                    }
                    Some(value)
                },
                None => None,
            }
        },
        _ => None,
    }
}

/// `Value::get` with a string key: the value of the first member named `key`
/// of an object, and nothing for any other value.
pub open spec fn obj_get(v: Json, key: Seq<char>) -> Option<Json> {
    match v {
        Json::Object(m) => if any(m, key_is(key)) {
            Some(m[first(m, key_is(key))].1)
        } else {
            None
        },
        _ => None,
    }
}

/// `Value::as_str` on an optional value.
pub open spec fn as_str(v: Option<Json>) -> Option<Seq<char>> {
    match v {
        Some(Json::Str(s)) => Some(s),
        _ => None,
    }
}

/// The string held under `key`, if `v` is an object with a string there.
pub open spec fn field_str(v: Json, key: Seq<char>) -> Option<Seq<char>> {
    as_str(obj_get(v, key))
}

/// The array held under `"children"`, if any.
pub open spec fn children_of(v: Json) -> Option<Seq<Json>> {
    match obj_get(v, "children"@) {
        Some(Json::Array(cs)) => Some(cs),
        _ => None,
    }
}

/// `value[key] = new`: replaces the first member named `key` of an object, or
/// appends one; a null becomes an object with that single member.
pub open spec fn obj_set(v: Json, key: Seq<char>, new: Json) -> Json {
    match v {
        Json::Object(m) => if any(m, key_is(key)) {
            Json::Object(m.update(first(m, key_is(key)), (key, new)))
        } else {
            Json::Object(m.push((key, new)))
        },
        Json::Null => Json::Object(seq![(key, new)]),
        _ => v,
    }
}

/// Replaces the children array of `v`.
pub open spec fn with_children(v: Json, cs: Seq<Json>) -> Json {
    obj_set(v, "children"@, Json::Array(cs))
}

/// The children of a node are smaller than the node, for recursion over the tree.
pub proof fn lemma_children_decrease(v: Json)
    ensures
        children_of(v) matches Some(cs) ==> decreases_to!(v => cs) && forall|i: int|
            0 <= i < cs.len() ==> decreases_to!(v => #[trigger] cs[i]),
{
    if let Some(cs) = children_of(v) {
        let m = v->Object_0;
        lemma_first_exists(m, key_is("children"@));
        let k = first(m, key_is("children"@));
        assert(decreases_to!(v => v->Object_0));
        assert(decreases_to!(m => m[k]));
        assert(decreases_to!(m[k] => m[k].1));
        assert(decreases_to!(m[k].1 => m[k].1->Array_0));
        assert forall|i: int| 0 <= i < cs.len() implies decreases_to!(v => #[trigger] cs[i]) by {
            assert(decreases_to!(cs => cs[i]));
        }
    }
}

/// The index of the first member named `key`, if any.
pub fn member_index(members: &Vec<(String, JsonValue)>, key: &str) -> (r: Option<usize>)
    ensures
        r matches Some(k) ==> is_first(members_model(members@), key_is(key@), k as int),
        r is None ==> !any(members_model(members@), key_is(key@)),
{
    let ghost mm = members_model(members@);
    let mut i: usize = 0;
    while i < members.len()
        invariant
            mm == members_model(members@),
            i <= members@.len(),
            forall|j: int| 0 <= j < i ==> !key_is(key@)(#[trigger] mm[j]),
        decreases members.len() - i,
    {
        if str_eq(members[i].0.as_str(), key) {
            return Some(i);
        }
        i = i + 1;
    }
    None
}

/// `Value::get`: the value under `key` when `v` is an object holding that key.
pub fn get<'a>(v: &'a JsonValue, key: &str) -> (r: Option<&'a JsonValue>)
    ensures
        r matches Some(x) ==> obj_get(v@, key@) == Some(x@),
        r is None ==> obj_get(v@, key@) is None,
{
    match v {
        JsonValue::Object(members) => {
            proof {
                lemma_object_model(*members);
            }
            match member_index(members, key) {
                Some(k) => {
                    proof {
                        lemma_first_unique(members_model(members@), key_is(key@), k as int);
                    }
                    Some(&members[k].1)
                },
                None => None,
            }
        },
        _ => None,
    }
}

/// The string under `key`, when `v` is an object holding a string there.
pub fn get_str<'a>(v: &'a JsonValue, key: &str) -> (r: Option<&'a str>)
    ensures
        r matches Some(s) ==> field_str(v@, key@) == Some(s@),
        r is None ==> field_str(v@, key@) is None,
{
    match get(v, key) {
        Some(JsonValue::Str(s)) => Some(s.as_str()),
        _ => None,
    }
}

/// Whether the string under `key` equals `expected`.
pub fn field_is(v: &JsonValue, key: &str, expected: &str) -> (r: bool)
    ensures
        r == (field_str(v@, key@) == Some(expected@)),
{
    match get_str(v, key) {
        Some(s) => str_eq(s, expected),
        None => false,
    }
}

/// `value[key] = new` on an object.
pub fn set_member(v: &mut JsonValue, key: &str, new: JsonValue)
    requires
        *old(v) is Object,
    ensures
        final(v)@ == obj_set(old(v)@, key@, new@),
        *final(v) is Object,
{
    let ghost new_model = new@;
    match v {
        JsonValue::Object(members) => {
            proof {
                lemma_object_model(*members);
            }
            let ghost old_members = members@;
            match member_index(members, key) {
                Some(k) => {
                    proof {
                        lemma_first_unique(members_model(members@), key_is(key@), k as int);
                    }
                    let name = owned(key);
                    members.set(k, (name, new));
                    assert(members_model(members@) =~= members_model(old_members).update(
                        k as int,
                        (key@, new_model),
                    ));
                },
                None => {
                    let name = owned(key);
                    members.push((name, new));
                    assert(members_model(members@) =~= members_model(old_members).push(
                        (key@, new_model),
                    ));
                },
            }
            proof {
                lemma_object_model(*members);
            }
        },
        _ => {},
    }
}


// ---------------------------------------------------------------------------
// Facts about setting members

/// After `value[key] = x` on an object, the key reads back `x`.
pub proof fn lemma_set_then_get(v: Json, key: Seq<char>, x: Json)
    requires
        v is Object,
    ensures
        obj_get(obj_set(v, key, x), key) == Some(x),
        obj_set(v, key, x) is Object,
{
    let m = v->Object_0;
    if any(m, key_is(key)) {
        lemma_first_exists(m, key_is(key));
        let f = first(m, key_is(key));
        let m2 = m.update(f, (key, x));
        assert forall|j: int| 0 <= j < f implies !key_is(key)(#[trigger] m2[j]) by {
            assert(m2[j] == m[j]);
        }
        assert(is_first(m2, key_is(key), f));
        lemma_first_unique(m2, key_is(key), f);
    } else {
        let m2 = m.push((key, x));
        let f = m.len() as int;
        assert forall|j: int| 0 <= j < f implies !key_is(key)(#[trigger] m2[j]) by {
            assert(m2[j] == m[j]);
        }
        assert(is_first(m2, key_is(key), f));
        lemma_first_unique(m2, key_is(key), f);
    }
}

/// Setting a key leaves the other keys as they were.
pub proof fn lemma_set_other(v: Json, key: Seq<char>, x: Json, other: Seq<char>)
    requires
        v is Object,
        key != other,
    ensures
        obj_get(obj_set(v, key, x), other) == obj_get(v, other),
{
    let m = v->Object_0;
    let m2 = obj_set(v, key, x)->Object_0;
    if any(m, key_is(key)) {
        lemma_first_exists(m, key_is(key));
        assert(m2 == m.update(first(m, key_is(key)), (key, x)));
    } else {
        assert(m2 == m.push((key, x)));
    }
    assert(m2.len() >= m.len());
    assert forall|j: int| 0 <= j < m.len() implies key_is(other)(#[trigger] m2[j]) == key_is(other)(
        m[j],
    ) && (key_is(other)(m[j]) ==> m2[j] == m[j]) by {}
    assert forall|j: int| m.len() <= j < m2.len() implies !key_is(other)(#[trigger] m2[j]) by {}
    if any(m, key_is(other)) {
        lemma_first_exists(m, key_is(other));
        let f = first(m, key_is(other));
        assert(m2[f] == m[f]);
        assert(is_first(m2, key_is(other), f));
        lemma_first_unique(m2, key_is(other), f);
    } else {
        assert forall|j: int| 0 <= j < m2.len() implies !key_is(other)(#[trigger] m2[j]) by {
            if j < m.len() {
                assert(!key_is(other)(m[j]));
            }
        }
    }
}

/// Setting a key twice keeps only the second value.
pub proof fn lemma_set_twice(v: Json, key: Seq<char>, a: Json, b: Json)
    requires
        v is Object,
    ensures
        obj_set(obj_set(v, key, a), key, b) == obj_set(v, key, b),
{
    let m = v->Object_0;
    let m1 = obj_set(v, key, a)->Object_0;
    if any(m, key_is(key)) {
        lemma_first_exists(m, key_is(key));
        let f = first(m, key_is(key));
        assert forall|j: int| 0 <= j < f implies !key_is(key)(#[trigger] m1[j]) by {
            assert(m1[j] == m[j]);
        }
        assert(is_first(m1, key_is(key), f));
        lemma_first_unique(m1, key_is(key), f);
        assert(m1.update(f, (key, b)) =~= m.update(f, (key, b)));
    } else {
        let f = m.len() as int;
        assert forall|j: int| 0 <= j < f implies !key_is(key)(#[trigger] m1[j]) by {
            assert(m1[j] == m[j]);
        }
        assert(is_first(m1, key_is(key), f));
        lemma_first_unique(m1, key_is(key), f);
        assert(m1.update(f, (key, b)) =~= m.push((key, b)));
    }
}

/// Writing back the value a key already holds changes nothing.
pub proof fn lemma_set_same(v: Json, key: Seq<char>, x: Json)
    requires
        obj_get(v, key) == Some(x),
    ensures
        obj_set(v, key, x) == v,
{
    let m = v->Object_0;
    lemma_first_exists(m, key_is(key));
    let f = first(m, key_is(key));
    assert(m.update(f, (key, x)) =~= m);
}

/// Only objects hold members.
pub proof fn lemma_get_object(v: JsonValue, key: Seq<char>)
    ensures
        obj_get(v@, key) is Some ==> v is Object,
        (v@ is Object) == (v is Object),
{
}

/// Member lists with the same keys in the same places find the same first member
/// for any key.
proof fn lemma_same_keys(m1: Seq<(Seq<char>, Json)>, m2: Seq<(Seq<char>, Json)>, k: Seq<char>)
    requires
        m1.len() == m2.len(),
        forall|j: int| 0 <= j < m1.len() ==> (#[trigger] m1[j]).0 == m2[j].0,
    ensures
        any(m1, key_is(k)) == any(m2, key_is(k)),
        any(m2, key_is(k)) ==> first(m1, key_is(k)) == first(m2, key_is(k)),
{
    if any(m2, key_is(k)) {
        lemma_first_exists(m2, key_is(k));
        let f = first(m2, key_is(k));
        assert forall|j: int| 0 <= j < f implies !key_is(k)(#[trigger] m1[j]) by {
            assert(!key_is(k)(m2[j]));
        }
        assert(key_is(k)(m1[f]));
        assert(is_first(m1, key_is(k), f));
        lemma_first_unique(m1, key_is(k), f);
    }
    if any(m1, key_is(k)) {
        let w = choose|i: int| 0 <= i < m1.len() && key_is(k)(#[trigger] m1[i]);
        assert(key_is(k)(m2[w]));
    }
}

/// Setting two different keys an object already holds can be done in either order.
pub proof fn lemma_set_commute(v: Json, a: Seq<char>, x: Json, b: Seq<char>, y: Json)
    requires
        obj_get(v, a) is Some,
        obj_get(v, b) is Some,
        a != b,
    ensures
        obj_set(obj_set(v, a, x), b, y) == obj_set(obj_set(v, b, y), a, x),
{
    let m = v->Object_0;
    lemma_first_exists(m, key_is(a));
    lemma_first_exists(m, key_is(b));
    let fa = first(m, key_is(a));
    let fb = first(m, key_is(b));
    let ma = m.update(fa, (a, x));
    let mb = m.update(fb, (b, y));
    lemma_same_keys(ma, m, b);
    lemma_same_keys(mb, m, a);
    assert(ma.update(fb, (b, y)) =~= mb.update(fa, (a, x)));
}

// ---------------------------------------------------------------------------
// JSON text

/// `serde_json::Value`, the parsed form `serde_json` reads and writes.
#[verifier::external_type_specification]
#[verifier::external_body]
pub struct ExSerdeValue(serde_json::Value);

/// The document `serde_json` parses from a text, `None` when the text is not JSON.
pub uninterp spec fn parsed_json(text: Seq<char>) -> Option<Json>;

/// The text `serde_json::to_string_pretty` writes for a document, `None` when
/// it fails.
pub uninterp spec fn pretty_json(doc: Json) -> Option<Seq<char>>;

/// A `serde_json::Value` as the library holds it, member by member (the members
/// of an object in the map's order, numbers in their textual form). Used only
/// inside [`parse_json`].
#[verifier::external_body]
fn from_serde(v: &serde_json::Value) -> JsonValue {
    match v {
        serde_json::Value::Null => JsonValue::Null,
        serde_json::Value::Bool(b) => JsonValue::Bool(*b),
        serde_json::Value::Number(n) => JsonValue::Number(n.to_string()),
        serde_json::Value::String(s) => JsonValue::Str(s.clone()),
        serde_json::Value::Array(items) => JsonValue::Array(items.iter().map(from_serde).collect()),
        serde_json::Value::Object(m) => JsonValue::Object(m.iter().map(|(k, x)| (k.clone(), from_serde(x))).collect()),
    }
}

/// A library value as a `serde_json::Value`, member by member (a later member
/// with a repeated key replaces an earlier one, as in a map; a number text that
/// `serde_json` does not read as a number stays a string). Used only inside
/// [`to_pretty_json`].
#[verifier::external_body]
fn to_serde(v: &JsonValue) -> serde_json::Value {
    match v {
        JsonValue::Null => serde_json::Value::Null,
        JsonValue::Bool(b) => serde_json::Value::Bool(*b),
        JsonValue::Number(n) => match n.parse::<serde_json::Number>() {
            Ok(x) => serde_json::Value::Number(x),
            Err(_) => serde_json::Value::String(n.clone()),
        },
        JsonValue::Str(s) => serde_json::Value::String(s.clone()),
        JsonValue::Array(items) => serde_json::Value::Array(items.iter().map(to_serde).collect()),
        JsonValue::Object(members) => serde_json::Value::Object(members.iter().map(|(k, x)| (k.clone(), to_serde(x))).collect()),
    }
}

/// `serde_json::from_str::<Value>`: the document a text holds, or `None` when it
/// is not JSON. The contract names the result (the JSON grammar is not restated);
/// it depends on the text alone.
#[verifier::external_body]
pub(crate) fn parse_json(text: &str) -> (r: Option<JsonValue>)
    ensures
        match r {
            Some(v) => parsed_json(text@) == Some(v@),
            None => parsed_json(text@) is None,
        },
{
    match serde_json::from_str::<serde_json::Value>(text) {
        Ok(v) => Some(from_serde(&v)),
        Err(_) => None,
    }
}

/// `serde_json::to_string_pretty`: the indented text of a document. The
/// contract names the result (the layout is not restated); it depends on the
/// document alone.
#[verifier::external_body]
pub(crate) fn to_pretty_json(doc: &JsonValue) -> (r: Option<String>)
    ensures
        match r {
            Some(t) => pretty_json(doc@) == Some(t@),
            None => pretty_json(doc@) is None,
        },
{
    match serde_json::to_string_pretty(&to_serde(doc)) {
        Ok(t) => Some(t),
        Err(_) => None,
    }
}
} // verus!
