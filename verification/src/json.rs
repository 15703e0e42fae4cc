//! JSON documents: the type that messages are made of, and the mathematical
//! value that contracts speak of.
use crate::text::same_text;
use serde_json::Number;
use vstd::prelude::*;

verus! {

/// The number type of `serde_json`.
#[verifier::external_type_specification]
#[verifier::external_body]
pub struct ExNumber(serde_json::Number);

/// Trusted: the clone of a `serde_json::Number` is that number.
pub assume_specification[ <serde_json::Number as Clone>::clone ](
    number: &serde_json::Number,
) -> (copy: serde_json::Number)
    ensures
        copy == *number,
;

/// What `serde_json::Number::as_i128` returns: the integer that a number holds,
/// or nothing where it holds a float.
pub uninterp spec fn integer_of(number: Number) -> Option<int>;

/// Trusted: `serde_json::Number::as_i128` gives the integer that the number
/// holds. A number that is an integer holds either a `u64` or a negative `i64`.
#[verifier::external_body]
fn number_as_i128(number: &Number) -> (integer: Option<i128>)
    ensures
        match integer {
            Some(n) => integer_of(*number) == Some(n as int) && i64::MIN <= n <= u64::MAX,
            None => integer_of(*number) is None,
        },
{
    number.as_i128()
}

/// Trusted: `serde_json::Number::from_i128` gives a number that holds the
/// integer, and fails just for integers that neither `i64` nor `u64` can hold.
#[verifier::external_body]
fn number_from_i128(n: i128) -> (number: Option<Number>)
    ensures
        match number {
            Some(number) => integer_of(number) == Some(n as int),
            None => n < i64::MIN || n > u64::MAX,
        },
{
    Number::from_i128(n)
}

/// A JSON document as a mathematical value.
#[verifier::ext_equal]
pub enum JsonView {
    Null,
    Bool(bool),
    Int(int),
    Float(Number),
    Str(Seq<char>),
    List(Seq<JsonView>),
    Object(Map<Seq<char>, JsonView>),
}

impl JsonView {
    /// Whether this is an object with a member called `key`.
    pub open spec fn has(self, key: Seq<char>) -> bool {
        self matches JsonView::Object(members) && members.contains_key(key)
    }

    /// The member called `key`; null where there is none.
    pub open spec fn at(self, key: Seq<char>) -> JsonView {
        match self {
            JsonView::Object(members) => if members.contains_key(key) {
                members[key]
            } else {
                JsonView::Null
            },
            _ => JsonView::Null,
        }
    }

    /// This object with the member `key` set; anything else is left as it is.
    pub open spec fn with(self, key: Seq<char>, value: JsonView) -> JsonView {
        match self {
            JsonView::Object(members) => JsonView::Object(members.insert(key, value)),
            _ => self,
        }
    }
}

/// The object without members.
pub open spec fn empty_object() -> JsonView {
    JsonView::Object(Map::empty())
}

/// A JSON document. Where an object names a member twice, the later one counts.
#[derive(Debug)]
pub enum Json {
    Null,
    Bool(bool),
    Number(Number),
    Str(String),
    List(Vec<Json>),
    Object(Vec<(String, Json)>),
}

/// The document that a number stands for.
pub open spec fn number_view(number: Number) -> JsonView {
    match integer_of(number) {
        Some(n) => JsonView::Int(n),
        None => JsonView::Float(number),
    }
}

/// The documents that the elements of a list stand for.
pub open spec fn list_view(items: Seq<Json>) -> Seq<JsonView>
    decreases items,
{
    Seq::new(
        items.len(),
        |i: int|
            if 0 <= i < items.len() {
                items[i].view()
            } else {
                JsonView::Null
            },
    )
}

/// The members that an object's entries stand for.
pub open spec fn members_view(members: Seq<(String, Json)>) -> Map<Seq<char>, JsonView>
    decreases members,
{
    if members.len() == 0 {
        Map::empty()
    } else {
        members_view(members.drop_last()).insert(members.last().0@, members.last().1.view())
    }
}

impl View for Json {
    type V = JsonView;

    open spec fn view(&self) -> JsonView
        decreases self,
    {
        match *self {
            Json::Null => JsonView::Null,
            Json::Bool(b) => JsonView::Bool(b),
            Json::Number(n) => number_view(n),
            Json::Str(s) => JsonView::Str(s@),
            Json::List(items) => JsonView::List(list_view(items@)),
            Json::Object(members) => JsonView::Object(members_view(members@)),
        }
    }
}

/// Entries from `from` on that name other members do not bear on `key`.
pub proof fn lemma_later_members(members: Seq<(String, Json)>, from: int, key: Seq<char>)
    requires
        0 <= from <= members.len(),
        forall|i: int| from <= i < members.len() ==> (#[trigger] members[i]).0@ != key,
    ensures
        members_view(members).contains_key(key) == members_view(members.take(from)).contains_key(
            key,
        ),
        members_view(members).contains_key(key) ==> members_view(members)[key] == members_view(
            members.take(from),
        )[key],
    decreases members.len(),
{
    reveal_with_fuel(members_view, 2);
    if from == members.len() {
        assert(members.take(from) =~= members);
    } else {
        let rest = members.drop_last();
        assert forall|i: int| from <= i < rest.len() implies (#[trigger] rest[i]).0@ != key by {
            assert(rest[i] == members[i]);
        }
        lemma_later_members(rest, from, key);
        assert(rest.take(from) =~= members.take(from));
        assert(members.last() == members[members.len() - 1]);
    }
}

/// Replacing the value of the last entry for a member sets that member.
proof fn lemma_replace_member(members: Seq<(String, Json)>, at: int, entry: (String, Json))
    requires
        0 <= at < members.len(),
        members[at].0@ == entry.0@,
        forall|i: int| at < i < members.len() ==> (#[trigger] members[i]).0@ != entry.0@,
    ensures
        members_view(members.update(at, entry)) == members_view(members).insert(
            entry.0@,
            entry.1@,
        ),
    decreases members.len(),
{
    reveal_with_fuel(members_view, 2);
    let updated = members.update(at, entry);
    if at == members.len() - 1 {
        assert(updated.drop_last() =~= members.drop_last());
        assert(members_view(updated) =~= members_view(members).insert(entry.0@, entry.1@));
    } else {
        let rest = members.drop_last();
        assert forall|i: int| at < i < rest.len() implies (#[trigger] rest[i]).0@ != entry.0@ by {
            assert(rest[i] == members[i]);
        }
        lemma_replace_member(rest, at, entry);
        assert(updated.drop_last() =~= rest.update(at, entry));
        assert(updated.last() == members.last());
        assert(members.last() == members[members.len() - 1]);
        assert(members_view(updated) =~= members_view(members).insert(entry.0@, entry.1@));
    }
}

/// The position of the entry that counts for `key`.
fn find_member(members: &Vec<(String, Json)>, key: &str) -> (at: Option<usize>)
    ensures
        match at {
            Some(i) => i < members@.len() && members@[i as int].0@ == key@ && (forall|j: int|
                i < j < members@.len() ==> (#[trigger] members@[j]).0@ != key@) && members_view(
                members@,
            ).contains_key(key@) && members_view(members@)[key@] == members@[i as int].1@,
            None => !members_view(members@).contains_key(key@) && forall|j: int|
                0 <= j < members@.len() ==> (#[trigger] members@[j]).0@ != key@,
        },
{
    let mut i: usize = members.len();
    while i > 0
        invariant
            i <= members@.len(),
            forall|j: int| i <= j < members@.len() ==> (#[trigger] members@[j]).0@ != key@,
        decreases i,
    {
        i = i - 1;
        if same_text(members[i].0.as_str(), key) {
            proof {
                reveal_with_fuel(members_view, 2);
                let head = members@.take(i as int + 1);
                lemma_later_members(members@, i as int + 1, key@);
                assert(head.last() == members@[i as int]);
            }
            return Some(i);
        }
    }
    proof {
        lemma_later_members(members@, 0, key@);
        assert(members@.take(0) =~= Seq::empty());
    }
    None
}

impl Json {
    /// A JSON string.
    pub fn text(text: &str) -> (json: Json)
        ensures
            json@ == JsonView::Str(text@),
    {
        Json::Str(text.to_owned())
    }

    /// A JSON integer.
    pub fn integer(n: u64) -> (json: Json)
        ensures
            json@ == JsonView::Int(n as int),
    {
        match number_from_i128(n as i128) {
            Some(number) => Json::Number(number),
            None => Json::Null,
        }
    }

    /// An object without members, to be filled with [`Json::set`].
    pub fn object() -> (json: Json)
        ensures
            json@ == empty_object(),
    {
        Json::Object(Vec::new())
    }

    /// A JSON list.
    pub fn list(items: Vec<Json>) -> (json: Json)
        ensures
            json@ == JsonView::List(list_view(items@)),
    {
        Json::List(items)
    }

    /// Whether this is an object.
    pub fn is_object(&self) -> (yes: bool)
        ensures
            yes == (self@ is Object),
    {
        matches!(self, Json::Object(_))
    }

    /// The member called `key`, if this is an object that has one.
    pub fn get(&self, key: &str) -> (member: Option<&Json>)
        ensures
            match member {
                Some(value) => self@.has(key@) && value@ == self@.at(key@),
                None => !self@.has(key@),
            },
    {
        match self {
            Json::Object(members) => match find_member(members, key) {
                Some(i) => Some(&members[i].1),
                None => None,
            },
            _ => None,
        }
    }

    /// The text of this JSON string.
    pub fn as_str(&self) -> (text: Option<&str>)
        ensures
            match text {
                Some(text) => self@ == JsonView::Str(text@),
                None => !(self@ is Str),
            },
    {
        match self {
            Json::Str(text) => Some(text.as_str()),
            _ => None,
        }
    }

    /// The value of a JSON integer, if a `u64` can hold it.
    pub fn as_u64(&self) -> (number: Option<u64>)
        ensures
            match number {
                Some(n) => self@ == JsonView::Int(n as int),
                None => !(self@ matches JsonView::Int(n) && 0 <= n <= u64::MAX),
            },
    {
        match self {
            Json::Number(number) => match number_as_i128(number) {
                Some(n) => if 0 <= n && n <= 0xffff_ffff_ffff_ffff {
                    Some(n as u64)
                } else {
                    None
                },
                None => None,
            },
            _ => None,
        }
    }

    /// The text of the member `key`, if it is a JSON string.
    pub fn str_at(&self, key: &str) -> (text: Option<&str>)
        ensures
            match text {
                Some(text) => self@.at(key@) == JsonView::Str(text@),
                None => !(self@.at(key@) is Str),
            },
    {
        match self.get(key) {
            Some(value) => value.as_str(),
            None => None,
        }
    }

    /// Whether the member `key` is the JSON string `text`.
    pub fn says(&self, key: &str, text: &str) -> (yes: bool)
        ensures
            yes == (self@.at(key@) == JsonView::Str(text@)),
    {
        match self.str_at(key) {
            Some(found) => same_text(found, text),
            None => false,
        }
    }

    /// A copy of the member `key`; null where there is none.
    pub fn copy_at(&self, key: &str) -> (value: Json)
        ensures
            value@ == self@.at(key@),
    {
        match self.get(key) {
            Some(value) => value.copy(),
            None => Json::Null,
        }
    }

    /// Sets the member `key` of an object.
    pub fn set(&mut self, key: &str, value: Json)
        ensures
            final(self)@ == old(self)@.with(key@, value@),
    {
        match self {
            Json::Object(members) => {
                let ghost before = members@;
                match find_member(members, key) {
                    Some(i) => {
                        let entry: (String, Json) = (key.to_owned(), value);
                        proof {
                            lemma_replace_member(before, i as int, entry);
                        }
                        members.set(i, entry);
                    },
                    None => {
                        proof {
                            reveal_with_fuel(members_view, 2);
                        }
                        members.push((key.to_owned(), value));
                        assert(members@.drop_last() =~= before);
                    },
                }
            },
            _ => {},
        }
    }

    /// A copy of this document.
    pub fn copy(&self) -> (copy: Json)
        ensures
            copy@ == self@,
        decreases self,
    {
        match self {
            Json::Null => Json::Null,
            Json::Bool(b) => Json::Bool(*b),
            Json::Number(n) => Json::Number(n.clone()),
            Json::Str(s) => Json::Str(s.clone()),
            Json::List(items) => {
                let mut copies: Vec<Json> = Vec::new();
                let n: usize = items.len();
                for i in 0..n
                    invariant
                        n == items@.len(),
                        *self == Json::List(*items),
                        copies@.len() == i,
                        forall|j: int| 0 <= j < i ==> (#[trigger] copies@[j])@ == items@[j]@,
                {
                    assert(decreases_to!(self => self->List_0));
                    assert(decreases_to!(self->List_0 => self->List_0@));
                    assert(decreases_to!(self->List_0@ => self->List_0@[i as int]));
                    copies.push(items[i].copy());
                }
                assert(list_view(copies@) =~= list_view(items@));
                Json::List(copies)
            },
            Json::Object(members) => {
                let mut copies: Vec<(String, Json)> = Vec::new();
                let n: usize = members.len();
                for i in 0..n
                    invariant
                        n == members@.len(),
                        *self == Json::Object(*members),
                        copies@.len() == i,
                        members_view(copies@) == members_view(members@.take(i as int)),
                {
                    assert(decreases_to!(self => self->Object_0));
                    assert(decreases_to!(self->Object_0 => self->Object_0@));
                    assert(decreases_to!(self->Object_0@ => self->Object_0@[i as int]));
                    assert(decreases_to!(self->Object_0@[i as int] => self->Object_0@[i as int].1));
                    let ghost before = copies@;
                    proof {
                        reveal_with_fuel(members_view, 2);
                    }
                    copies.push((members[i].0.clone(), members[i].1.copy()));
                    assert(copies@.drop_last() =~= before);
                    assert(members@.take(i as int + 1).drop_last() =~= members@.take(i as int));
                }
                assert(members@.take(n as int) =~= members@);
                Json::Object(copies)
            },
        }
    }
}

} // verus!
