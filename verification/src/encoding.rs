//! JSON text, read and written by `serde_json`.
use crate::json::{empty_object, list_view, members_view, number_view, Json, JsonView};
use serde_json::{Number, Value};
use vstd::prelude::*;

verus! {

/// The document type of `serde_json`.
#[verifier::external_type_specification]
#[verifier::external_body]
pub struct ExValue(serde_json::Value);

/// The error type of `serde_json`.
#[verifier::external_type_specification]
#[verifier::external_body]
pub struct ExError(serde_json::Error);

/// The object type of `serde_json`.
#[verifier::external_type_specification]
#[verifier::external_body]
#[verifier::reject_recursive_types(K)]
#[verifier::reject_recursive_types(V)]
pub struct ExMap<K, V>(serde_json::Map<K, V>);

/// The document that a `serde_json::Value` holds.
pub uninterp spec fn document(value: Value) -> JsonView;

/// The members that a `serde_json::Map` holds.
pub uninterp spec fn members_of(map: serde_json::Map<String, Value>) -> Map<Seq<char>, JsonView>;

/// What `serde_json::from_slice` makes of a text: a document, or an error.
pub uninterp spec fn parsed(text: Seq<u8>) -> Option<JsonView>;

/// What `serde_json::to_vec` makes of a document: its text, or an error.
pub uninterp spec fn printed(document: JsonView) -> Option<Seq<u8>>;

/// One level of a `serde_json::Value`.
pub(crate) enum Level {
    Null,
    Bool(bool),
    Number(Number),
    Str(String),
    List(Vec<Value>),
    Object(serde_json::Map<String, Value>),
}

/// The documents that the elements of an array hold.
pub open spec fn documents(values: Seq<Value>) -> Seq<JsonView> {
    Seq::new(values.len(), |i: int| document(values[i]))
}

/// The members that entries hold; of two for one name, the later.
pub open spec fn entry_documents(entries: Seq<(String, Value)>) -> Map<Seq<char>, JsonView>
    decreases entries.len(),
{
    if entries.len() == 0 {
        Map::empty()
    } else {
        entry_documents(entries.drop_last()).insert(
            entries.last().0@,
            document(entries.last().1),
        )
    }
}

impl View for Level {
    type V = JsonView;

    open(crate) spec fn view(&self) -> JsonView {
        match *self {
            Level::Null => JsonView::Null,
            Level::Bool(b) => JsonView::Bool(b),
            Level::Number(n) => number_view(n),
            Level::Str(s) => JsonView::Str(s@),
            Level::List(values) => JsonView::List(documents(values@)),
            Level::Object(map) => JsonView::Object(members_of(map)),
        }
    }
}

/// Whether no two entries have the same name.
pub open spec fn distinct_names(entries: Seq<(String, Value)>) -> bool {
    forall|i: int, j: int|
        0 <= i < j < entries.len() ==> (#[trigger] entries[i]).0@ != (#[trigger] entries[j]).0@
}

/// Trusted: the variants of `serde_json::Value`, taken apart.
#[verifier::external_body]
pub(crate) fn take_apart(value: Value) -> (level: Level)
    ensures
        level@ == document(value),
{
    match value {
        Value::Null => Level::Null,
        Value::Bool(b) => Level::Bool(b),
        Value::Number(n) => Level::Number(n),
        Value::String(s) => Level::Str(s),
        Value::Array(values) => Level::List(values),
        Value::Object(map) => Level::Object(map),
    }
}

/// Trusted: the variants of `serde_json::Value`, put together.
#[verifier::external_body]
pub(crate) fn put_together(level: Level) -> (value: Value)
    ensures
        document(value) == level@,
{
    match level {
        Level::Null => Value::Null,
        Level::Bool(b) => Value::Bool(b),
        Level::Number(n) => Value::Number(n),
        Level::Str(s) => Value::String(s),
        Level::List(values) => Value::Array(values),
        Level::Object(map) => Value::Object(map),
    }
}

/// Trusted: `serde_json::Map::new`, which makes an empty map.
#[verifier::external_body]
fn new_map() -> (map: serde_json::Map<String, Value>)
    ensures
        JsonView::Object(members_of(map)) == empty_object(),
{
    serde_json::Map::new()
}

/// Trusted: `serde_json::Map::insert`. The value becomes the member of that name, and the
/// one that it replaces is handed back.
#[verifier::external_body]
fn insert_member(
    map: &mut serde_json::Map<String, Value>,
    name: String,
    value: Value,
) -> (replaced: Option<Value>)
    ensures
        members_of(*final(map)) == members_of(*old(map)).insert(name@, document(value)),
        match replaced {
            Some(earlier) => members_of(*old(map)).contains_key(name@) && document(earlier)
                == members_of(*old(map))[name@],
            None => !members_of(*old(map)).contains_key(name@),
        },
{
    map.insert(name, value)
}

/// Trusted: `serde_json::Map::into_iter`, which hands out each member once, with its name.
#[verifier::external_body]
fn take_members(map: serde_json::Map<String, Value>) -> (entries: Vec<(String, Value)>)
    ensures
        distinct_names(entries@),
        entry_documents(entries@) == members_of(map),
{
    map.into_iter().collect()
}

/// Whether a document nests lists and objects at most `depth` deep and holds no
/// floats: a text of such a document is read back without loss.
pub open spec fn lossless(document: JsonView, depth: nat) -> bool
    decreases depth,
{
    match document {
        JsonView::Float(_) => false,
        JsonView::List(items) => depth > 0 && forall|i: int|
            0 <= i < items.len() ==> lossless(#[trigger] items[i], (depth - 1) as nat),
        JsonView::Object(members) => depth > 0 && forall|key: Seq<char>|
            members.contains_key(key) ==> lossless(#[trigger] members[key], (depth - 1) as nat),
        _ => true,
    }
}

/// Trusted: `serde_json::from_slice`, which reads one document that fills the
/// whole text, or fails. What it reads depends on the text alone.
#[verifier::external_body]
fn from_slice(text: &[u8]) -> (read: Result<Value, serde_json::Error>)
    ensures
        match read {
            Ok(value) => parsed(text@) == Some(document(value)),
            Err(_) => parsed(text@) is None,
        },
{
    serde_json::from_slice(text)
}

/// Trusted: `serde_json::to_vec`. The text that it writes depends on the document
/// alone, as an object's members are written in the order of their names. No text
/// is empty, and `serde_json::from_slice` reads the document back from its text
/// unless the document nests deeper than the reader's recursion limit allows or
/// holds a float, which the reader may round.
#[verifier::external_body]
fn to_vec(value: &Value) -> (written: Result<Vec<u8>, serde_json::Error>)
    ensures
        match written {
            Ok(text) => printed(document(*value)) == Some(text@) && text@.len() > 0 && (lossless(
                document(*value),
                127,
            ) ==> parsed(text@) == Some(document(*value))),
            Err(_) => printed(document(*value)) is None,
        },
{
    serde_json::to_vec(value)
}

proof fn lemma_entries_finite(entries: Seq<(String, Value)>)
    ensures
        entry_documents(entries).dom().finite(),
    decreases entries.len(),
{
    if entries.len() > 0 {
        lemma_entries_finite(entries.drop_last());
    }
}

proof fn lemma_entry(entries: Seq<(String, Value)>, i: int)
    requires
        0 <= i < entries.len(),
        distinct_names(entries),
    ensures
        entry_documents(entries).contains_key(entries[i].0@),
        entry_documents(entries)[entries[i].0@] == document(entries[i].1),
    decreases entries.len(),
{
    if i < entries.len() - 1 {
        let rest = entries.drop_last();
        assert(rest[i] == entries[i]);
        assert(entries.last() == entries[entries.len() - 1]);
        lemma_entry(rest, i);
    }
}

/// The document that a `serde_json::Value` holds, as a document of this crate.
pub(crate) fn from_value(value: Value) -> (json: Json)
    ensures
        json@ == document(value),
    decreases document(value),
{
    match take_apart(value) {
        Level::Null => Json::Null,
        Level::Bool(b) => Json::Bool(b),
        Level::Number(n) => Json::Number(n),
        Level::Str(s) => Json::Str(s),
        Level::List(values) => {
            let ghost all = values@;
            let mut items: Vec<Json> = Vec::new();
            for value_at in rest: values
                invariant
                    document(value) == JsonView::List(documents(all)),
                    rest.seq() == all,
                    items@.len() == rest.index(),
                    forall|i: int|
                        0 <= i < items@.len() ==> (#[trigger] items@[i])@ == document(all[i]),
            {
                proof {
                    let i = rest.index();
                    let list = document(value)->List_0;
                    assert(decreases_to!(document(value) => list));
                    assert(decreases_to!(list => list[i]));
                    assert(list[i] == document(value_at));
                }
                items.push(from_value(value_at));
            }
            assert(list_view(items@) =~= documents(all));
            Json::List(items)
        },
        Level::Object(map) => {
            let entries = take_members(map);
            let ghost all = entries@;
            let mut members: Vec<(String, Json)> = Vec::new();
            proof {
                lemma_entries_finite(all);
            }
            for entry in rest: entries
                invariant
                    document(value) == JsonView::Object(entry_documents(all)),
                    entry_documents(all).dom().finite(),
                    distinct_names(all),
                    rest.seq() == all,
                    members_view(members@) == entry_documents(all.take(rest.index())),
            {
                let ghost before = members@;
                proof {
                    reveal_with_fuel(members_view, 2);
                    lemma_entry(all, rest.index());
                    let map = document(value)->Object_0;
                    assert(decreases_to!(document(value) => map));
                    assert(decreases_to!(map => map[entry.0@]));
                    assert(all.take(rest.index() + 1).drop_last() =~= all.take(rest.index()));
                }
                members.push((entry.0, from_value(entry.1)));
                assert(members@.drop_last() =~= before);
            }
            assert(all.take(all.len() as int) =~= all);
            Json::Object(members)
        },
    }
}

/// This crate's document as a `serde_json::Value`.
pub(crate) fn to_value(json: &Json) -> (value: Value)
    ensures
        document(value) == json@,
    decreases json,
{
    match json {
        Json::Null => put_together(Level::Null),
        Json::Bool(b) => put_together(Level::Bool(*b)),
        Json::Number(n) => put_together(Level::Number(n.clone())),
        Json::Str(s) => put_together(Level::Str(s.clone())),
        Json::List(items) => {
            let mut values: Vec<Value> = Vec::new();
            let n: usize = items.len();
            for i in 0..n
                invariant
                    n == items@.len(),
                    *json == Json::List(*items),
                    values@.len() == i,
                    forall|j: int| 0 <= j < i ==> document(#[trigger] values@[j]) == items@[j]@,
            {
                assert(decreases_to!(json => json->List_0));
                assert(decreases_to!(json->List_0 => json->List_0@));
                assert(decreases_to!(json->List_0@ => json->List_0@[i as int]));
                values.push(to_value(&items[i]));
            }
            assert(documents(values@) =~= list_view(items@));
            put_together(Level::List(values))
        },
        Json::Object(members) => {
            let mut map = new_map();
            let n: usize = members.len();
            for i in 0..n
                invariant
                    n == members@.len(),
                    *json == Json::Object(*members),
                    members_of(map) == members_view(members@.take(i as int)),
            {
                assert(decreases_to!(json => json->Object_0));
                assert(decreases_to!(json->Object_0 => json->Object_0@));
                assert(decreases_to!(json->Object_0@ => json->Object_0@[i as int]));
                assert(decreases_to!(json->Object_0@[i as int] => json->Object_0@[i as int].1));
                insert_member(&mut map, members[i].0.clone(), to_value(&members[i].1));
                proof {
                    reveal_with_fuel(members_view, 2);
                    assert(members@.take(i as int + 1).drop_last() =~= members@.take(i as int));
                }
            }
            assert(members@.take(n as int) =~= members@);
            put_together(Level::Object(map))
        },
    }
}

/// Reads the document that fills the whole of `text`.
pub fn parse(text: &[u8]) -> (read: Result<Json, serde_json::Error>)
    ensures
        match read {
            Ok(json) => parsed(text@) == Some(json@),
            Err(_) => parsed(text@) is None,
        },
{
    match from_slice(text) {
        Ok(value) => Ok(from_value(value)),
        Err(error) => Err(error),
    }
}

/// Writes a document. A document without floats that nests at most 127 deep is
/// read back from its text unchanged.
pub fn print(json: &Json) -> (written: Result<Vec<u8>, serde_json::Error>)
    ensures
        match written {
            Ok(text) => printed(json@) == Some(text@) && text@.len() > 0 && (lossless(json@, 127)
                ==> parsed(text@) == Some(json@)),
            Err(_) => printed(json@) is None,
        },
{
    to_vec(&to_value(json))
}

} // verus!
