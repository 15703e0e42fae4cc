//! Text primitives shared by the other modules.
use vstd::prelude::*;
use vstd::string::*;
use vstd::utf8::*;

verus! {

/// The decimal digits of `n`, most significant first.
pub open spec fn digits(n: nat) -> Seq<char>
    decreases n,
{
    if n < 10 {
        seq![digit(n)]
    } else {
        digits(n / 10).push(digit(n % 10))
    }
}

/// The character of a single decimal digit.
pub open spec fn digit(d: nat) -> char {
    ('0' as u32 + d) as char
}

/// Whether two texts hold the same characters.
pub fn same_text(a: &str, b: &str) -> (same: bool)
    ensures
        same == (a@ == b@),
{
    let left: &[u8] = a.as_bytes();
    let right: &[u8] = b.as_bytes();
    proof {
        encode_utf8_decode_utf8(a@);
        encode_utf8_decode_utf8(b@);
    }
    same_bytes(left, right)
}

/// Whether two byte strings are equal.
pub fn same_bytes(a: &[u8], b: &[u8]) -> (same: bool)
    ensures
        same == (a@ == b@),
{
    if a.len() != b.len() {
        return false;
    }
    let n: usize = a.len();
    for i in 0..n
        invariant
            n == a@.len(),
            n == b@.len(),
            forall|j: int| 0 <= j < i ==> a@[j] == b@[j],
    {
        if a[i] != b[i] {
            return false;
        }
    }
    assert(a@ =~= b@);
    true
}

/// The character that stands for the decimal digit `d`.
fn digit_text(d: u64) -> (text: &'static str)
    requires
        d < 10,
    ensures
        text@ == seq![digit(d as nat)],
{
    proof {
        reveal_strlit("0");
        reveal_strlit("1");
        reveal_strlit("2");
        reveal_strlit("3");
        reveal_strlit("4");
        reveal_strlit("5");
        reveal_strlit("6");
        reveal_strlit("7");
        reveal_strlit("8");
        reveal_strlit("9");
    }
    let text: &'static str = match d {
        0 => "0",
        1 => "1",
        2 => "2",
        3 => "3",
        4 => "4",
        5 => "5",
        6 => "6",
        7 => "7",
        8 => "8",
        _ => "9",
    };
    assert(text@ =~= seq![digit(d as nat)]);
    text
}

/// `n` written in decimal.
pub fn decimal(n: u64) -> (text: String)
    ensures
        text@ == digits(n as nat),
    decreases n,
{
    if n < 10 {
        digit_text(n).to_owned()
    } else {
        let mut text = decimal(n / 10);
        text.append(digit_text(n % 10));
        assert(text@ =~= digits(n as nat));
        text
    }
}

/// The UTF-16 code units of a character.
pub open spec fn utf16_of(c: char) -> Seq<u16> {
    let v = c as u32;
    if v < 0x10000 {
        seq![v as u16]
    } else {
        seq![(0xd800 + (v - 0x10000) / 0x400) as u16, (0xdc00 + (v - 0x10000) % 0x400) as u16]
    }
}

/// The UTF-16 code units of a text.
pub open spec fn utf16(text: Seq<char>) -> Seq<u16>
    decreases text.len(),
{
    if text.len() == 0 {
        Seq::empty()
    } else {
        utf16(text.drop_last()) + utf16_of(text.last())
    }
}

/// The UTF-16 code units of a text.
pub fn utf16_units(text: &str) -> (units: Vec<u16>)
    ensures
        units@ == utf16(text@),
{
    let mut units: Vec<u16> = Vec::new();
    let ghost all = text@;
    assert(all.take(0) =~= Seq::empty());
    for c in iter: text.chars()
        invariant
            iter.seq() == all,
            units@ == utf16(all.take(iter.index())),
    {
        let ghost i = iter.index();
        let ghost before = units@;
        assert(all.take(i + 1).drop_last() =~= all.take(i));
        let v: u32 = c as u32;
        if v < 0x10000 {
            units.push(v as u16);
        } else {
            units.push((0xd800 + (v - 0x10000) / 0x400) as u16);
            units.push((0xdc00 + (v - 0x10000) % 0x400) as u16);
        }
        assert(units@ =~= before + utf16_of(c));
    }
    assert(all.take(all.len() as int) =~= all);
    units
}

/// The octal digits of `n`, most significant first.
pub open spec fn octal_digits(n: nat) -> Seq<char>
    decreases n,
{
    if n < 8 {
        seq![digit(n)]
    } else {
        octal_digits(n / 8).push(digit(n % 8))
    }
}

/// `n` written in octal.
pub fn octal(n: u64) -> (text: String)
    ensures
        text@ == octal_digits(n as nat),
    decreases n,
{
    if n < 8 {
        digit_text(n).to_owned()
    } else {
        let mut text = octal(n / 8);
        text.append(digit_text(n % 8));
        assert(text@ =~= octal_digits(n as nat));
        text
    }
}

/// Adds bytes at the end of others.
pub fn append_bytes(bytes: &mut Vec<u8>, more: &[u8])
    ensures
        final(bytes)@ == old(bytes)@ + more@,
{
    let ghost before = bytes@;
    bytes.extend_from_slice(more);
    assert(bytes@ =~= before + more@);
}

/// What `String::from_utf8_lossy` makes of bytes.
pub uninterp spec fn lossy(bytes: Seq<u8>) -> Seq<char>;

/// Trusted: `String::from_utf8_lossy`. Bytes that are UTF-8 give the text that they
/// encode. What stands in place of ill-formed bytes is a function of the bytes, and
/// is left unsaid.
#[verifier::external_body]
pub(crate) fn from_utf8_lossy(bytes: &[u8]) -> (text: String)
    ensures
        text@ == lossy(bytes@),
        valid_utf8(bytes@) ==> text@ == decode_utf8(bytes@),
{
    String::from_utf8_lossy(bytes).into_owned()
}

/// What `str::to_lowercase` makes of a text.
pub uninterp spec fn lowered(text: Seq<char>) -> Seq<char>;

/// An ASCII letter in lower case; any other character as it is.
pub open spec fn ascii_lower(c: char) -> char {
    if 'A' <= c <= 'Z' {
        (c as u32 + 32) as char
    } else {
        c
    }
}

/// Trusted: `str::to_lowercase`. Of a text in ASCII it changes the letters from `A` to
/// `Z` and nothing else. The rest of Unicode's lower case is a function of the text,
/// and is left unsaid.
#[verifier::external_body]
pub(crate) fn to_lowercase(text: &str) -> (lower: String)
    ensures
        lower@ == lowered(text@),
        (forall|i: int| 0 <= i < text@.len() ==> (#[trigger] text@[i] as u32) < 128)
            ==> lower@ == text@.map_values(|c: char| ascii_lower(c)),
{
    text.to_lowercase()
}

} // verus!
