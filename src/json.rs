use vstd::prelude::*;
use vstd::string::StringExecFns;
use serde_json::Value as JsonValue;
use crate::value::{Tree, entries_view, find_key, lemma_find_key_some, lemma_child_decreases};

verus! {

/// serde_json's JSON value, held opaquely; `json_of` names what it holds.
#[verifier::external_type_specification]
#[verifier::external_body]
pub struct ExJsonValue(JsonValue);

/// serde_json's object map, held opaquely; `members_of` names its members.
#[verifier::external_type_specification]
#[verifier::external_body]
#[verifier::reject_recursive_types(K)]
#[verifier::reject_recursive_types(V)]
pub struct ExJsonMap<K, V>(serde_json::Map<K, V>);

/// A JSON object's members.
pub type JsonMembers = serde_json::Map<String, JsonValue>;

/// The shape of a JSON value built from a configuration value: a string, or
/// an object from keys to members.
pub enum Json {
    Str(Seq<char>),
    Obj(Map<Seq<char>, Json>),
}

/// What a JSON value holds.
pub uninterp spec fn json_of(v: serde_json::Value) -> Json;

/// The members of a JSON object.
pub uninterp spec fn members_of(m: JsonMembers) -> Map<Seq<char>, Json>;

/// The pretty-printed text of a JSON value.
pub uninterp spec fn pretty_text(j: Json) -> Seq<char>;

/// The members of the object for `es` from position `i` on: each key bound
/// to its first child there.
pub open spec fn members_from(es: Seq<(Seq<char>, Tree)>, i: int) -> Map<Seq<char>, Json>
    decreases es, 0int,
{
    Map::new(
        |k: Seq<char>| find_key(es.subrange(i, es.len() as int), k) is Some,
        |k: Seq<char>|
            match find_key(es.subrange(i, es.len() as int), k) {
                Some(j) => if 0 <= i && 0 <= j && i + j < es.len() {
                    json_model(es[i + j].1)
                } else {
                    Json::Str(Seq::empty())
                },
                None => Json::Str(Seq::empty()),
            },
    )
}

/// The JSON shape of a configuration value: a leaf becomes a string, a
/// container an object whose members are its children, the first child
/// under a key winning.
pub open spec fn json_model(t: Tree) -> Json
    decreases t, 1int,
{
    match t {
        Tree::Leaf(s) => Json::Str(s),
        Tree::Node(es) => Json::Obj(members_from(es, 0)),
    }
}

/// Relies on `serde_json::Value::String`: a JSON string holding `s`.
#[verifier::external_body]
fn json_string(s: String) -> (r: serde_json::Value)
    ensures
        json_of(r) == Json::Str(s@),
{
    serde_json::Value::String(s)
}

/// Relies on `serde_json::Map::new`: an object with no members.
#[verifier::external_body]
fn json_map_new() -> (r: JsonMembers)
    ensures
        forall|k: Seq<char>| !members_of(r).contains_key(k),
{
    serde_json::Map::new()
}

/// Relies on `serde_json::Map::insert`: binds `k` to `v`, replacing any
/// earlier member under `k`.
#[verifier::external_body]
fn json_map_insert(m: &mut JsonMembers, k: String, v: serde_json::Value)
    ensures
        members_of(*final(m)) == members_of(*old(m)).insert(k@, json_of(v)),
{
    m.insert(k, v);
}

/// Relies on `serde_json::Value::Object`: a JSON object with the members of `m`.
#[verifier::external_body]
fn json_object(m: JsonMembers) -> (r: serde_json::Value)
    ensures
        json_of(r) == Json::Obj(members_of(m)),
{
    serde_json::Value::Object(m)
}

/// Relies on `serde_json::to_string_pretty`: the pretty-printed text, which
/// depends on what the value holds alone. Serializing a JSON value fails only
/// when its writer fails, and the writer here is a `Vec<u8>`, so it succeeds.
#[verifier::external_body]
fn json_pretty(v: &serde_json::Value) -> (r: Option<String>)
    ensures
        r is Some,
        r matches Some(s) ==> s@ == pretty_text(json_of(*v)),
{
    serde_json::to_string_pretty(v).ok()
}

/// The JSON value for `v`.
fn json_value(v: &crate::value::Value) -> (r: serde_json::Value)
    ensures
        json_of(r) == json_model(v@),
    decreases v@,
{
    match v {
        crate::value::Value::String(s) => json_string(s.clone()),
        crate::value::Value::Object(es) => {
            let ghost m = entries_view(es@);
            assert(v@ == Tree::Node(m));
            let mut obj = json_map_new();
            let mut i: usize = es.len();
            proof {
                assert(members_of(obj) =~= members_from(m, i as int));
            }
            while i > 0
                invariant
                    i <= es@.len(),
                    m == entries_view(es@),
                    v@ == Tree::Node(m),
                    members_of(obj) == members_from(m, i as int),
                decreases i,
            {
                i = i - 1;
                assert(m[i as int] == (es@[i as int].0@, es@[i as int].1@));
                proof {
                    lemma_child_decreases(m, i as int);
                }
                let child = json_value(&es[i].1);
                let key = es[i].0.clone();
                let ghost before = members_of(obj);
                json_map_insert(&mut obj, key, child);
                proof {
                    let tail = m.subrange(i + 1, m.len() as int);
                    let whole = m.subrange(i as int, m.len() as int);
                    assert(whole.drop_first() =~= tail);
                    assert forall|k: Seq<char>|
                        #[trigger] find_key(whole, k) == (if whole[0].0 == k {
                            Some(0int)
                        } else {
                            match find_key(tail, k) {
                                Some(j) => Some(j + 1),
                                None => None,
                            }
                        }) by {}
                    assert forall|k: Seq<char>| #[trigger] find_key(tail, k) matches Some(j) ==> 0 <= j
                        < tail.len() by {
                        lemma_find_key_some(tail, k);
                    }
                    assert(members_of(obj) =~= members_from(m, i as int));
                }
            }
            assert(m.subrange(0, m.len() as int) =~= m);
            json_object(obj)
        },
    }
}

/// Renders `value` as pretty-printed JSON: a leaf as a JSON string, a
/// container as an object of its children. Printing a JSON value cannot
/// fail; were it to, the text would be a fixed error message instead.
pub fn to_json(value: &crate::value::Value) -> (r: String)
    ensures
        r@ == pretty_text(json_model(value@)),
{
    let j = json_value(value);
    match json_pretty(&j) {
        Some(s) => s,
        None => {
            String::from_str("Error converting to JSON")
        },
    }
}

} // verus!
