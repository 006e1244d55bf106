//! JSON documents, which `serde_json` builds, writes and reads.

use serde_json::Value;
use vstd::prelude::*;

verus! {

/// A JSON value, seen from outside only.
#[verifier::external_type_specification]
#[verifier::external_body]
pub struct ExJsonValue(serde_json::Value);

/// The error of `serde_json`, seen from outside only.
#[verifier::external_type_specification]
#[verifier::external_body]
pub struct ExJsonError(serde_json::Error);

/// What a JSON value says.
pub ghost enum Json {
    Null,
    Bool(bool),
    /// A natural number that fits 64 bits.
    Count(u64),
    /// Any other number, as it is written.
    Number(Seq<u8>),
    Text(Seq<char>),
    List(Seq<Json>),
    Object(Map<Seq<char>, Json>),
}

/// What a `serde_json::Value` says.
pub uninterp spec fn json_value(v: serde_json::Value) -> Json;

/// The text that `serde_json` writes for a document, if it can write one.
pub uninterp spec fn json_written(doc: Json) -> Option<Seq<u8>>;

/// The document that `serde_json` reads from a text, if it can read it.
pub uninterp spec fn json_parsed(text: Seq<u8>) -> Option<Json>;

/// How many lists and objects may be nested for a document to be read again.
pub const MAX_DEPTH: usize = 100;

/// What the values say.
pub open spec fn values_of(items: Seq<Value>) -> Seq<Json> {
    Seq::new(items.len(), |i: int| json_value(items[i]))
}

/// What the members say.
pub open spec fn entries_of(members: Seq<(String, Value)>) -> Seq<(Seq<char>, Json)> {
    Seq::new(members.len(), |i: int| (members[i].0@, json_value(members[i].1)))
}

/// No member has this name.
pub open spec fn lacks(entries: Seq<(Seq<char>, Json)>, name: Seq<char>) -> bool {
    forall|i: int| 0 <= i < entries.len() ==> (#[trigger] entries[i]).0 != name
}

/// No two members have one name.
pub open spec fn names_differ(entries: Seq<(Seq<char>, Json)>) -> bool {
    forall|i: int, j: int|
        #![trigger entries[i], entries[j]]
        0 <= i < j < entries.len() ==> entries[i].0 != entries[j].0
}

/// The members of an object, by name.
pub open spec fn object_of(entries: Seq<(Seq<char>, Json)>) -> Map<Seq<char>, Json>
    decreases entries.len(),
{
    if entries.len() == 0 {
        Map::empty()
    } else {
        object_of(entries.drop_last()).insert(entries.last().0, entries.last().1)
    }
}

/// An object with these members.
pub open spec fn object(entries: Seq<(Seq<char>, Json)>) -> Json {
    Json::Object(object_of(entries))
}

/// The member of this name; null if there is none.
pub open spec fn member(doc: Json, name: Seq<char>) -> Json {
    match doc {
        Json::Object(members) => if members.contains_key(name) {
            members[name]
        } else {
            Json::Null
        },
        _ => Json::Null,
    }
}

/// The natural number that a value is, if it is one.
pub open spec fn count_of(doc: Json) -> Option<u64> {
    match doc {
        Json::Count(n) => Some(n),
        _ => None,
    }
}

/// The parser takes the numbers of a document one by one, and its lists and objects are
/// nested `depth` times at most.
pub open spec fn readable(doc: Json, depth: nat) -> bool
    decreases depth,
{
    match doc {
        Json::Number(text) => json_parsed(text) matches Some(Json::Number(_)),
        Json::List(items) => depth > 0 && forall|i: int|
            0 <= i < items.len() ==> readable(#[trigger] items[i], (depth - 1) as nat),
        Json::Object(members) => depth > 0 && forall|k: Seq<char>| #[trigger]
            members.contains_key(k) ==> readable(members[k], (depth - 1) as nat),
        _ => true,
    }
}

/// Two documents agree down to `depth`, but for numbers that are no natural numbers.
pub open spec fn same_json(a: Json, b: Json, depth: nat) -> bool
    decreases depth,
{
    match (a, b) {
        (Json::Null, Json::Null) => true,
        (Json::Bool(x), Json::Bool(y)) => x == y,
        (Json::Count(x), Json::Count(y)) => x == y,
        (Json::Number(_), Json::Number(_)) => true,
        (Json::Text(x), Json::Text(y)) => x == y,
        (Json::List(x), Json::List(y)) => x.len() == y.len() && (depth > 0 ==> forall|i: int|
            0 <= i < x.len() ==> same_json(#[trigger] x[i], y[i], (depth - 1) as nat)),
        (Json::Object(x), Json::Object(y)) => x.dom() == y.dom() && (depth > 0 ==> forall|
            k: Seq<char>,
        | #[trigger]
            x.contains_key(k) ==> same_json(x[k], y[k], (depth - 1) as nat)),
        _ => false,
    }
}

/// `n` blanks.
pub open spec fn blanks(n: nat) -> Seq<u8> {
    Seq::new(n, |i: int| 0x20u8)
}

/// Reading `text` gives `doc` again.
pub open spec fn reads_as(text: Seq<u8>, doc: Json) -> bool {
    json_parsed(text) matches Some(back) && same_json(doc, back, MAX_DEPTH as nat)
}

/// Makes a `serde_json::Value::Bool`.
#[verifier::external_body]
pub(crate) fn json_bool(b: bool) -> (r: Value)
    ensures
        json_value(r) == Json::Bool(b),
{
    Value::Bool(b)
}

/// Makes a `serde_json::Value` from a natural number.
#[verifier::external_body]
pub(crate) fn json_count(n: u64) -> (r: Value)
    ensures
        json_value(r) == Json::Count(n),
{
    Value::from(n)
}

/// Makes a `serde_json::Value` from a text.
#[verifier::external_body]
pub(crate) fn json_text(s: &str) -> (r: Value)
    ensures
        json_value(r) == Json::Text(s@),
{
    Value::from(s)
}

/// Makes a `serde_json::Value::Array`.
#[verifier::external_body]
pub(crate) fn json_list(items: Vec<Value>) -> (r: Value)
    ensures
        json_value(r) == Json::List(values_of(items@)),
{
    Value::Array(items)
}

/// Makes a `serde_json::Value::Object` by `FromIterator`: the members go into a map. What
/// becomes of two with one name is not claimed.
#[verifier::external_body]
pub(crate) fn json_object(members: Vec<(String, Value)>) -> (r: Value)
    requires
        names_differ(entries_of(members@)),
    ensures
        json_value(r) == object(entries_of(members@)),
{
    members.into_iter().collect()
}

/// Give an object one more member, of a name that it does not have.
pub(crate) fn put(members: &mut Vec<(String, Value)>, name: &str, v: Value)
    requires
        lacks(entries_of(old(members)@), name@),
        names_differ(entries_of(old(members)@)),
    ensures
        entries_of(final(members)@) == entries_of(old(members)@).push((name@, json_value(v))),
        names_differ(entries_of(final(members)@)),
{
    let ghost before = entries_of(members@);
    members.push((String::from_str(name), v));
    assert(entries_of(members@) =~= before.push((name@, json_value(v))));
}

/// Give a list one more item.
pub(crate) fn add_item(items: &mut Vec<Value>, v: Value)
    ensures
        values_of(final(items)@) == values_of(old(items)@).push(json_value(v)),
{
    let ghost before = values_of(items@);
    items.push(v);
    assert(values_of(items@) =~= before.push(json_value(v)));
}

/// A list of one item.
pub(crate) fn list_of_one(v: Value) -> (r: Value)
    ensures
        json_value(r) == Json::List(seq![json_value(v)]),
{
    let mut items: Vec<Value> = Vec::new();
    let ghost none = values_of(items@);
    assert(none =~= Seq::<Json>::empty());
    add_item(&mut items, v);
    json_list(items)
}

/// Indexes a `serde_json::Value` by a name: gives null where there is no such member.
#[verifier::external_body]
pub(crate) fn json_member<'a>(v: &'a Value, name: &str) -> (r: &'a Value)
    ensures
        json_value(*r) == member(json_value(*v), name@),
{
    &v[name]
}

/// Calls `serde_json::Value::as_array`: the items of a list.
#[verifier::external_body]
pub(crate) fn json_items<'a>(v: &'a Value) -> (r: Option<&'a Vec<Value>>)
    ensures
        match r {
            Some(items) => json_value(*v) == Json::List(values_of(items@)),
            None => !(json_value(*v) is List),
        },
{
    v.as_array()
}

/// Calls `serde_json::Value::as_u64`: the number, if it is a natural number that fits.
#[verifier::external_body]
pub(crate) fn json_as_count(v: &Value) -> (r: Option<u64>)
    ensures
        r == count_of(json_value(*v)),
{
    v.as_u64()
}

/// Calls `serde_json::to_vec`. The text is read as the same document again, also with blanks
/// behind it, unless the parser refuses one of its numbers or its depth. Of the numbers that
/// are no natural numbers only this much is claimed, that they are read as such.
#[verifier::external_body]
pub(crate) fn json_write(v: &Value) -> (r: Result<Vec<u8>, serde_json::Error>)
    ensures
        match r {
            Ok(text) => json_written(json_value(*v)) == Some(text@) && (readable(
                json_value(*v),
                MAX_DEPTH as nat,
            ) ==> forall|n: nat| reads_as(text@ + #[trigger] blanks(n), json_value(*v))),
            Err(_) => json_written(json_value(*v)) is None,
        },
{
    serde_json::to_vec(v)
}

/// Calls `serde_json::from_slice`.
#[verifier::external_body]
pub(crate) fn json_read(text: &Vec<u8>) -> (r: Result<Value, serde_json::Error>)
    ensures
        match r {
            Ok(v) => json_parsed(text@) == Some(json_value(v)),
            Err(_) => json_parsed(text@) is None,
        },
{
    serde_json::from_slice(text)
}

/// Documents that agree have the same members.
pub proof fn members_agree(a: Json, b: Json, name: Seq<char>, depth: nat)
    requires
        same_json(a, b, depth),
        depth > 0,
    ensures
        same_json(member(a, name), member(b, name), (depth - 1) as nat),
{
    if let (Json::Object(x), Json::Object(y)) = (a, b) {
        assert(x.contains_key(name) == y.contains_key(name));
        if x.contains_key(name) {
            assert(same_json(x[name], y[name], (depth - 1) as nat));
        }
    }
}

/// A list can be read if its items can.
pub proof fn lists_are_readable(items: Seq<Json>, depth: nat)
    requires
        depth > 0,
        forall|i: int| 0 <= i < items.len() ==> readable(#[trigger] items[i], (depth - 1) as nat),
    ensures
        readable(Json::List(items), depth),
{
}

/// An object can be read if its members can.
pub proof fn objects_are_readable(entries: Seq<(Seq<char>, Json)>, depth: nat)
    requires
        depth > 0,
        forall|i: int|
            0 <= i < entries.len() ==> readable((#[trigger] entries[i]).1, (depth - 1) as nat),
    ensures
        readable(object(entries), depth),
    decreases entries.len(),
{
    if entries.len() > 0 {
        let front = entries.drop_last();
        objects_are_readable(front, depth);
        let members = object_of(entries);
        let rest = Json::Object(object_of(front));
        assert(readable(rest, depth));
        assert forall|k: Seq<char>| #[trigger] members.contains_key(k) implies readable(
            members[k],
            (depth - 1) as nat,
        ) by {
            if k != entries.last().0 {
                assert(rest->Object_0.contains_key(k));
                assert(readable(rest->Object_0[k], (depth - 1) as nat));
            } else {
                assert(readable(entries[entries.len() - 1].1, (depth - 1) as nat));
            }
        }
    }
}

} // verus!
