//! Small editor primitives shared by the protocol adapters. No wire JSON here.
use crate::path::{read_text, readable, PathStyle};
use crate::text::{utf16, utf16_units};
use vstd::prelude::*;
use vstd::std_specs::iter::IteratorSpec;
use vstd::string::*;
use vstd::utf8::*;

verus! {

/// The text of several chunks.
pub open spec fn joined_text(chunks: Seq<&str>) -> Seq<char>
    decreases chunks.len(),
{
    if chunks.len() == 0 {
        Seq::empty()
    } else {
        joined_text(chunks.drop_last()) + chunks.last()@
    }
}

/// Whether a text is as much of another as fits into a number of bytes, and whether
/// that is not all of it.
pub open spec fn is_bounded(whole: Seq<char>, limit: usize, text: Seq<char>, cut: bool) -> bool {
    &&& text.len() <= whole.len()
    &&& text == whole.take(text.len() as int)
    &&& encode_utf8(text).len() <= limit
    &&& cut == (encode_utf8(whole).len() > limit)
    &&& !cut ==> text == whole
    &&& cut ==> text.len() < whole.len() && encode_utf8(
        whole.take(text.len() as int + 1),
    ).len() > limit
}

/// Encoding goes piece by piece.
pub proof fn lemma_encode_concat(a: Seq<char>, b: Seq<char>)
    ensures
        encode_utf8(a + b) == encode_utf8(a) + encode_utf8(b),
    decreases a.len(),
{
    if a.len() == 0 {
        assert(a + b =~= b);
        assert(encode_utf8(a) + encode_utf8(b) =~= encode_utf8(b));
    } else {
        lemma_encode_concat(a.drop_first(), b);
        assert((a + b).drop_first() =~= a.drop_first() + b);
        let first = encode_scalar(a[0] as u32);
        assert(first + (encode_utf8(a.drop_first()) + encode_utf8(b)) =~= (first + encode_utf8(
            a.drop_first(),
        )) + encode_utf8(b));
    }
}

/// Where a character ends is a boundary.
pub proof fn lemma_boundary(text: Seq<char>, n: int)
    requires
        0 <= n <= text.len(),
    ensures
        is_char_boundary(encode_utf8(text), encode_utf8(text.take(n)).len() as int),
    decreases n,
{
    encode_utf8_valid_utf8(text);
    if n == 0 {
        assert(text.take(0) =~= Seq::empty());
    } else {
        let rest = text.drop_first();
        lemma_boundary(rest, n - 1);
        encode_utf8_first_scalar(text);
        assert(text.take(n).drop_first() =~= rest.take(n - 1));
        assert(text.take(n)[0] == text[0]);
        lemma_encode_concat(seq![text[0]], rest);
        assert(seq![text[0]] + rest =~= text);
        lemma_encode_concat(seq![text[0]], rest.take(n - 1));
        assert(seq![text[0]] + rest.take(n - 1) =~= text.take(n));
        let first = encode_utf8(seq![text[0]]);
        assert(first == encode_scalar(text[0] as u32)) by {
            assert(seq![text[0]].drop_first() =~= Seq::empty());
            reveal_with_fuel(encode_utf8, 2);
            assert(encode_scalar(text[0] as u32) + Seq::<u8>::empty() =~= encode_scalar(
                text[0] as u32,
            ));
        }
        assert(pop_first_scalar(encode_utf8(text)) =~= encode_utf8(rest));
    }
}

pub proof fn lemma_joined(a: Seq<&str>, b: Seq<&str>)
    ensures
        joined_text(a + b) == joined_text(a) + joined_text(b),
    decreases b.len(),
{
    if b.len() == 0 {
        assert(a + b =~= a);
        assert(joined_text(a) + joined_text(b) =~= joined_text(a));
    } else {
        lemma_joined(a, b.drop_last());
        assert((a + b).drop_last() =~= a + b.drop_last());
        assert(joined_text(a + b) =~= joined_text(a) + joined_text(b));
    }
}

/// The longest beginning of a text that fits into a number of bytes.
fn beginning(text: &str, limit: usize) -> (head: &str)
    requires
        limit < encode_utf8(text@).len(),
    ensures
        is_bounded(text@, limit, head@, true),
{
    let ghost bytes = encode_utf8(text@);
    proof {
        encode_utf8_valid_utf8(text@);
        is_char_boundary_start_end_of_seq(bytes);
    }
    let mut i: usize = limit;
    while !text.is_char_boundary(i)
        invariant
            i <= limit < bytes.len(),
            bytes == encode_utf8(text@),
            is_char_boundary(bytes, 0),
            forall|j: int| i < j <= limit ==> !#[trigger] is_char_boundary(bytes, j),
        decreases i,
    {
        i = i - 1;
    }
    let (head, tail) = text.split_at(i);
    proof {
        encode_utf8_decode_utf8(text@);
        encode_utf8_decode_utf8(head@);
        encode_utf8_decode_utf8(tail@);
        decode_utf8_split(bytes, i as int);
        assert(text@ =~= head@ + tail@);
        assert(text@.take(head@.len() as int) =~= head@);
        if tail@.len() == 0 {
            assert(tail@ =~= Seq::empty());
        }
        let n = head@.len() as int + 1;
        lemma_boundary(text@, n);
        let more = text@.take(n);
        assert(more =~= head@.push(tail@[0]));
        lemma_encode_concat(head@, seq![tail@[0]]);
        assert(head@ + seq![tail@[0]] =~= more);
        encode_utf8_first_scalar(seq![tail@[0]]);
        assert(encode_utf8(more).len() > i) by {
            encode_utf8_valid_utf8(seq![tail@[0]]);
            assert(encode_utf8(seq![tail@[0]]).len() > 0);
        }
        assert(encode_utf8(more).len() > limit) by {
            if encode_utf8(more).len() <= limit {
                assert(!is_char_boundary(bytes, encode_utf8(more).len() as int));
            }
        }
    }
    head
}

/// Whether chunks are read no further than needed: all of them where all fit, and
/// otherwise up to the first with which they do not. `left` are those not read.
pub open spec fn is_read(all: Seq<&str>, limit: usize, cut: bool, left: Seq<&str>) -> bool {
    let n = all.len() - left.len();
    &&& 0 <= n
    &&& left == all.skip(n)
    &&& !cut ==> left.len() == 0
    &&& cut ==> {
        &&& n > 0
        &&& encode_utf8(joined_text(all.take(n - 1))).len() <= limit
        &&& encode_utf8(joined_text(all.take(n))).len() > limit
    }
}

/// Copy at most `limit` bytes, even when a rope chunk is much larger. Chunks after the one
/// that is cut are not read.
pub fn take_bounded<'a, I: Iterator<Item = &'a str>>(chunks: &mut I, limit: usize) -> (copied: (
    String,
    bool,
))
    requires
        <I as IteratorSpec>::obeys_prophetic_iter_laws(old(chunks)),
        <I as IteratorSpec>::decrease(old(chunks)) is Some,
    ensures
        is_bounded(
            joined_text(<I as IteratorSpec>::remaining(old(chunks))),
            limit,
            copied.0@,
            copied.1,
        ),
        is_read(
            <I as IteratorSpec>::remaining(old(chunks)),
            limit,
            copied.1,
            <I as IteratorSpec>::remaining(final(chunks)),
        ),
{
    let mut text = String::new();
    let ghost all = <I as IteratorSpec>::remaining(chunks);
    let ghost mut seen: Seq<&str> = Seq::empty();
    assert(seen + all =~= all);
    loop
        invariant
            <I as IteratorSpec>::obeys_prophetic_iter_laws(chunks),
            <I as IteratorSpec>::decrease(chunks) is Some,
            all == <I as IteratorSpec>::remaining(old(chunks)),
            all == seen + <I as IteratorSpec>::remaining(chunks),
            text@ == joined_text(seen),
            encode_utf8(text@).len() <= limit,
        decreases <I as IteratorSpec>::decrease(chunks)->0,
    {
        let ghost before = seen;
        let ghost own = text@;
        match chunks.next() {
            None => {
                assert(seen + <I as IteratorSpec>::remaining(chunks) =~= seen);
                assert(text@.take(text@.len() as int) =~= text@);
                assert(<I as IteratorSpec>::remaining(chunks) =~= all.skip(all.len() as int));
                return (text, false);
            },
            Some(chunk) => {
                let used: usize = text.as_str().as_bytes().len();
                let remaining: usize = limit - used;
                let ghost read = before.push(chunk);
                proof {
                    assert(read.drop_last() =~= before);
                    lemma_encode_concat(own, chunk@);
                    assert(all =~= read + <I as IteratorSpec>::remaining(chunks));
                    assert(all.take(before.len() as int) =~= before);
                    assert(all.take(read.len() as int) =~= read);
                }
                if chunk.as_bytes().len() > remaining {
                    let head = beginning(chunk, remaining);
                    text.append(head);
                    proof {
                        lemma_cut(all, before, chunk, limit, head@);
                        assert(<I as IteratorSpec>::remaining(chunks) =~= all.skip(
                            read.len() as int,
                        ));
                    }
                    return (text, true);
                }
                text.append(chunk);
                proof {
                    seen = read;
                }
            },
        }
    }
}

/// Copy at most `limit` bytes, even when a rope chunk is much larger.
pub fn bounded_text<'a, I: Iterator<Item = &'a str>>(chunks: I, limit: usize) -> (copied: (
    String,
    bool,
))
    requires
        chunks.obeys_prophetic_iter_laws(),
        chunks.decrease() is Some,
    ensures
        is_bounded(joined_text(chunks.remaining()), limit, copied.0@, copied.1),
{
    let mut rest = chunks;
    take_bounded(&mut rest, limit)
}

/// A chunk cut where the limit says cuts the whole text there.
proof fn lemma_cut(
    chunks: Seq<&str>,
    before: Seq<&str>,
    chunk: &str,
    limit: usize,
    head: Seq<char>,
)
    requires
        before.len() < chunks.len(),
        chunks.take(before.len() as int) == before,
        chunks[before.len() as int] == chunk,
        encode_utf8(joined_text(before)).len() <= limit,
        is_bounded(
            chunk@,
            (limit - encode_utf8(joined_text(before)).len()) as usize,
            head,
            true,
        ),
    ensures
        is_bounded(joined_text(chunks), limit, joined_text(before) + head, true),
{
    let own = joined_text(before);
    let rest = chunks.skip(before.len() as int + 1);
    let whole = joined_text(chunks);
    assert(chunks =~= before.push(chunk) + rest);
    lemma_joined(before.push(chunk), rest);
    assert(before.push(chunk).drop_last() =~= before);
    assert(whole == own + chunk@ + joined_text(rest));
    let n = head.len() as int;
    lemma_encode_concat(own, head);
    lemma_encode_concat(own, chunk@);
    lemma_encode_concat(own + chunk@, joined_text(rest));
    assert((own + head) =~= whole.take((own + head).len() as int));
    assert(whole.take((own + head).len() as int + 1) =~= own + chunk@.take(n + 1));
    lemma_encode_concat(own, chunk@.take(n + 1));
}

/// How much fits does not depend on how a text is cut into chunks: a text and a limit
/// leave one outcome.
pub proof fn law_bounded_text_is_unique(
    whole: Seq<char>,
    limit: usize,
    a: Seq<char>,
    b: Seq<char>,
    cut_a: bool,
    cut_b: bool,
)
    requires
        is_bounded(whole, limit, a, cut_a),
        is_bounded(whole, limit, b, cut_b),
    ensures
        a == b,
        cut_a == cut_b,
{
    if a.len() < b.len() {
        lemma_prefix_is_shorter(whole, a.len() as int + 1, b.len() as int);
    }
    if b.len() < a.len() {
        lemma_prefix_is_shorter(whole, b.len() as int + 1, a.len() as int);
    }
}

pub proof fn lemma_prefix_is_shorter(text: Seq<char>, m: int, n: int)
    requires
        0 <= m <= n <= text.len(),
    ensures
        encode_utf8(text.take(m)).len() <= encode_utf8(text.take(n)).len(),
{
    assert(text.take(n) =~= text.take(m) + text.subrange(m, n));
    lemma_encode_concat(text.take(m), text.subrange(m, n));
}

/// The file that a buffer holds.
pub enum BufferFile {
    /// It has never been saved.
    Untitled,
    /// It is on another machine.
    Remote,
    /// It is here, at a path.
    Local(Vec<u8>),
}

/// The path of the file that a single buffer holds; nothing where there is no single one,
/// and nothing of one that was never saved or is on another machine.
pub open spec fn file_path(style: PathStyle, singleton: Option<BufferFile>) -> Option<Seq<char>> {
    match singleton {
        Some(BufferFile::Local(bytes)) => Some(readable(style, bytes@)),
        _ => None,
    }
}

/// A local file identity; untitled and remote buffers have none.
pub fn local_abs_path(style: PathStyle, file: &BufferFile) -> (path: Option<String>)
    ensures
        file_path(style, Some(*file)) == match path {
            Some(text) => Some(text@),
            None => None,
        },
{
    match file {
        BufferFile::Local(path) => Some(read_text(style, path.as_slice())),
        _ => None,
    }
}

/// The path of an editor's file. An editor over several buffers, for which there is no
/// single file, has none.
pub fn editor_path(style: PathStyle, singleton: &Option<BufferFile>) -> (path: Option<String>)
    ensures
        file_path(style, *singleton) == match path {
            Some(text) => Some(text@),
            None => None,
        },
{
    match singleton {
        Some(file) => local_abs_path(style, file),
        None => None,
    }
}

/// A place in a text: a line, from zero on, and a column in UTF-16 code units.
#[derive(Clone, Copy, PartialEq, Eq, Structural, Debug)]
pub struct PointUtf16 {
    pub row: u32,
    pub column: u32,
}

/// A place in a text as editors count it: a line, from zero on, with its text, and a
/// column in bytes.
pub struct Point<'a> {
    pub row: u32,
    pub line: &'a str,
    pub column: u32,
}

/// The part of a line before a column.
pub open spec fn before_column(line: Seq<char>, column: u32) -> Seq<char> {
    decode_utf8(encode_utf8(line).take(column as int))
}

impl<'a> Point<'a> {
    /// Whether this is a place between characters of its line.
    pub open spec fn wf(self) -> bool {
        column_fits(self.line@, self.column)
    }

    /// The same place with its column in UTF-16 code units.
    pub open spec fn in_utf16(self) -> PointUtf16 {
        PointUtf16 {
            row: self.row,
            column: utf16(before_column(self.line@, self.column)).len() as u32,
        }
    }
}

/// Whether a column lies between characters of a line.
pub open spec fn column_fits(line: Seq<char>, column: u32) -> bool {
    is_char_boundary(encode_utf8(line), column as int)
}

/// A text has no more UTF-16 code units than UTF-8 bytes.
pub proof fn lemma_utf16_is_shorter(text: Seq<char>)
    ensures
        utf16(text).len() <= encode_utf8(text).len(),
    decreases text.len(),
{
    if text.len() > 0 {
        let before = text.drop_last();
        let last = seq![text.last()];
        lemma_utf16_is_shorter(before);
        lemma_encode_concat(before, last);
        assert(before + last =~= text);
        assert(last.drop_first() =~= Seq::empty());
        reveal_with_fuel(encode_utf8, 2);
        char_is_scalar(text.last());
        assert(encode_utf8(last) =~= encode_scalar(text.last() as u32));
    }
}

fn point_utf16(point: &Point) -> (converted: PointUtf16)
    requires
        point.wf(),
    ensures
        converted == point.in_utf16(),
        converted.column == utf16(before_column(point.line@, point.column)).len(),
{
    let (head, _) = point.line.split_at(point.column as usize);
    proof {
        let bytes = encode_utf8(point.line@);
        encode_utf8_valid_utf8(point.line@);
        encode_utf8_decode_utf8(head@);
        lemma_boundary_fits(bytes, point.column as int);
        assert(bytes.subrange(0, point.column as int) =~= bytes.take(point.column as int));
        lemma_utf16_is_shorter(head@);
    }
    PointUtf16 { row: point.row, column: utf16_units(head).len() as u32 }
}

/// A boundary lies within its text.
proof fn lemma_boundary_fits(bytes: Seq<u8>, index: int)
    requires
        valid_utf8(bytes),
        is_char_boundary(bytes, index),
    ensures
        0 <= index <= bytes.len(),
{
}

/// Zed columns count UTF-8 bytes; native IDE protocols count UTF-16 code units.
pub fn utf16_range(start: &Point, end: &Point) -> (range: (PointUtf16, PointUtf16))
    requires
        start.wf(),
        end.wf(),
    ensures
        range.0 == start.in_utf16(),
        range.1 == end.in_utf16(),
        range.0.column == utf16(before_column(start.line@, start.column)).len(),
        range.1.column == utf16(before_column(end.line@, end.column)).len(),
{
    (point_utf16(start), point_utf16(end))
}

} // verus!
