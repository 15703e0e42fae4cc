//! What holds of numbers as they are written, and of text in UTF-16 and in JSON.
use crate::json::{integer_of, lemma_later_members, members_view, Json, JsonView};
use crate::text::{digits, octal_digits, utf16};
use vstd::prelude::*;

verus! {

/// The number that digits stand for, the most significant first.
pub open spec fn number_of(text: Seq<char>, base: nat) -> int
    decreases text.len(),
{
    if text.len() == 0 {
        0
    } else {
        base * number_of(text.drop_last(), base) + (text.last() as int - '0' as int)
    }
}

/// Digits give back the number that was written: there is at least one, each is a decimal
/// one, and none is a leading zero unless the number is zero.
pub proof fn law_decimal_gives_the_number(n: nat)
    ensures
        number_of(digits(n), 10) == n,
        digits(n).len() > 0,
        forall|i: int| 0 <= i < digits(n).len() ==> '0' <= #[trigger] digits(n)[i] <= '9',
        n > 0 ==> digits(n)[0] != '0',
    decreases n,
{
    reveal_with_fuel(number_of, 2);
    let text = digits(n);
    if n < 10 {
        assert(text.drop_last() =~= Seq::empty());
        assert(text.last() as int == '0' as int + n);
    } else {
        law_decimal_gives_the_number(n / 10);
        assert(text.drop_last() =~= digits(n / 10));
        assert(text.last() as int == '0' as int + n % 10);
        assert forall|i: int| 0 <= i < text.len() implies '0' <= #[trigger] text[i] <= '9' by {
            if i < text.len() - 1 {
                assert(text[i] == digits(n / 10)[i]);
            }
        }
        assert(text[0] == digits(n / 10)[0]);
    }
}

/// So do octal digits.
pub proof fn law_octal_gives_the_number(n: nat)
    ensures
        number_of(octal_digits(n), 8) == n,
        octal_digits(n).len() > 0,
        forall|i: int|
            0 <= i < octal_digits(n).len() ==> '0' <= #[trigger] octal_digits(n)[i] <= '7',
        n > 0 ==> octal_digits(n)[0] != '0',
    decreases n,
{
    reveal_with_fuel(number_of, 2);
    let text = octal_digits(n);
    if n < 8 {
        assert(text.drop_last() =~= Seq::empty());
        assert(text.last() as int == '0' as int + n);
    } else {
        law_octal_gives_the_number(n / 8);
        assert(text.drop_last() =~= octal_digits(n / 8));
        assert(text.last() as int == '0' as int + n % 8);
        assert forall|i: int| 0 <= i < text.len() implies '0' <= #[trigger] text[i] <= '7' by {
            if i < text.len() - 1 {
                assert(text[i] == octal_digits(n / 8)[i]);
            }
        }
        assert(text[0] == octal_digits(n / 8)[0]);
    }
}

/// The code units of a text are those of its parts, one part after the other.
pub proof fn law_utf16_goes_piece_by_piece(a: Seq<char>, b: Seq<char>)
    ensures
        utf16(a + b) == utf16(a) + utf16(b),
        utf16(Seq::<char>::empty()) == Seq::<u16>::empty(),
    decreases b.len(),
{
    if b.len() == 0 {
        assert(a + b =~= a);
        assert(utf16(a) + utf16(b) =~= utf16(a));
    } else {
        law_utf16_goes_piece_by_piece(a, b.drop_last());
        assert((a + b).drop_last() =~= a + b.drop_last());
        assert(utf16(a + b) =~= utf16(a) + utf16(b));
    }
}

/// A character takes one code unit, its own number, or two that together give its number:
/// a high surrogate and a low one.
pub proof fn law_utf16_of_a_character(c: char)
    ensures
        ({
            let units = utf16(seq![c]);
            let value = c as u32;
            &&& value < 0x10000 ==> units.len() == 1 && units[0] as int == value
            &&& value >= 0x10000 ==> {
                &&& units.len() == 2
                &&& 0xd800 <= units[0] < 0xdc00
                &&& 0xdc00 <= units[1] < 0xe000
                &&& 0x10000 + (units[0] - 0xd800) * 0x400 + (units[1] - 0xdc00) == value
            }
        }),
{
    reveal_with_fuel(utf16, 2);
    assert(seq![c].drop_last() =~= Seq::empty());
    let value = c as u32;
    if value >= 0x10000 {
        assert(value <= 0x10ffff);
        let rest = value - 0x10000;
        assert(rest == rest / 0x400 * 0x400 + rest % 0x400);
        assert(rest / 0x400 < 0x400);
        let units = utf16(seq![c]);
        assert(units.len() == 2);
        assert(units[0] as int == 0xd800 + rest / 0x400);
        assert(units[1] as int == 0xdc00 + rest % 0x400);
    } else {
        assert(utf16(seq![c]) =~= seq![value as u16]);
    }
}

/// How many UTF-16 code units a text has: two for each character beyond the sixteen-bit
/// ones, and one for each other.
pub open spec fn units_in(text: Seq<char>) -> nat
    decreases text.len(),
{
    if text.len() == 0 {
        0
    } else {
        units_in(text.drop_last()) + if text.last() as u32 >= 0x10000 {
            2nat
        } else {
            1
        }
    }
}

/// A text has as many code units as its characters take.
pub proof fn law_utf16_length(text: Seq<char>)
    ensures
        utf16(text).len() == units_in(text),
    decreases text.len(),
{
    if text.len() > 0 {
        let before = text.drop_last();
        law_utf16_length(before);
        law_utf16_goes_piece_by_piece(before, seq![text.last()]);
        law_utf16_of_a_character(text.last());
        assert(before + seq![text.last()] =~= text);
    }
}

/// What a document is as a mathematical value: a text is its characters, and a list its
/// elements in order.
pub proof fn law_documents(json: Json)
    ensures
        json is Null ==> json@ is Null,
        json matches Json::Bool(b) ==> json@ == JsonView::Bool(b),
        json matches Json::Str(text) ==> json@ == JsonView::Str(text@),
        json matches Json::Number(number) ==> {
            &&& integer_of(number) matches Some(n) ==> json@ == JsonView::Int(n)
            &&& integer_of(number) is None ==> json@ == JsonView::Float(number)
        },
        json matches Json::List(list) ==> (json@ matches JsonView::List(documents)
            && documents.len() == list@.len() && forall|i: int|
            0 <= i < list@.len() ==> #[trigger] documents[i] == list@[i]@),
        json is Object ==> json@ is Object,
{
}

/// Of the entries of an object for one name the last one counts, and a name that no entry
/// has is no member.
pub proof fn law_the_last_entry_counts(json: Json, i: int, key: Seq<char>)
    requires
        json is Object,
        -1 <= i < json->Object_0@.len(),
        i >= 0 ==> json->Object_0@[i].0@ == key,
        forall|j: int| i < j < json->Object_0@.len() ==> (#[trigger] json->Object_0@[j]).0@ != key,
    ensures
        i >= 0 ==> json@.has(key) && json@.at(key) == json->Object_0@[i].1@,
        i < 0 ==> !json@.has(key),
{
    let members = json->Object_0@;
    lemma_later_members(members, i + 1, key);
    reveal_with_fuel(members_view, 2);
    if i >= 0 {
        assert(members.take(i + 1).last() == members[i]);
    } else {
        assert(members.take(0) =~= Seq::empty());
    }
}

/// What a member is: what the object holds under the name, and null where it holds nothing
/// or there is no object. Setting one leaves all others.
pub proof fn law_members(
    members: Map<Seq<char>, JsonView>,
    other: JsonView,
    key: Seq<char>,
    name: Seq<char>,
    value: JsonView,
)
    requires
        !(other is Object),
    ensures
        JsonView::Object(members).has(key) == members.contains_key(key),
        members.contains_key(key) ==> JsonView::Object(members).at(key) == members[key],
        !members.contains_key(key) ==> JsonView::Object(members).at(key) is Null,
        !other.has(key) && other.at(key) is Null && other.with(key, value) == other,
        JsonView::Object(members).with(key, value).has(key),
        JsonView::Object(members).with(key, value).at(key) == value,
        name != key ==> JsonView::Object(members).with(key, value).has(name)
            == JsonView::Object(members).has(name) && JsonView::Object(members).with(key, value).at(
            name,
        ) == JsonView::Object(members).at(name),
{
}

} // verus!
