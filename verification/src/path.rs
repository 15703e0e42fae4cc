//! Paths as sequences of components, in the grammars of Unix and of Windows. A path
//! is held as the bytes of its native text.
use crate::text::{append_bytes, from_utf8_lossy, lossy, same_bytes};
use vstd::prelude::*;
use vstd::slice::{slice_subrange, slice_to_vec};
use vstd::utf8::encode_utf8;

verus! {

/// Which platform's grammar a path follows.
#[derive(Clone, Copy, PartialEq, Eq, Structural, Debug)]
pub enum PathStyle {
    Unix,
    Windows,
}

/// What separates the names of a path.
#[derive(Clone, Copy, PartialEq, Eq, Structural, Debug)]
pub enum Separators {
    Slash,
    Backslash,
    Either,
}

/// What a Windows path may begin with.
pub enum PrefixView {
    /// `\\?\name`
    Verbatim(Seq<u8>),
    /// `\\?\UNC\server\share`
    VerbatimShare(Seq<u8>, Seq<u8>),
    /// `\\?\C:`
    VerbatimDrive(u8),
    /// `\\.\name`
    Device(Seq<u8>),
    /// `\\server\share`
    Share(Seq<u8>, Seq<u8>),
    /// `C:`
    Drive(u8),
}

/// A component of a path.
pub enum ComponentView {
    Prefix(PrefixView),
    Root,
    Current,
    Parent,
    Name(Seq<u8>),
}

/// What a Windows path may begin with. A drive is held by its upper-case letter.
pub enum Prefix {
    Verbatim(Vec<u8>),
    VerbatimShare(Vec<u8>, Vec<u8>),
    VerbatimDrive(u8),
    Device(Vec<u8>),
    Share(Vec<u8>, Vec<u8>),
    Drive(u8),
}

/// A component of a path.
pub enum Component {
    Prefix(Prefix),
    Root,
    Current,
    Parent,
    Name(Vec<u8>),
}

impl View for Prefix {
    type V = PrefixView;

    open spec fn view(&self) -> PrefixView {
        match self {
            Prefix::Verbatim(name) => PrefixView::Verbatim(name@),
            Prefix::VerbatimShare(server, share) => PrefixView::VerbatimShare(server@, share@),
            Prefix::VerbatimDrive(letter) => PrefixView::VerbatimDrive(*letter),
            Prefix::Device(name) => PrefixView::Device(name@),
            Prefix::Share(server, share) => PrefixView::Share(server@, share@),
            Prefix::Drive(letter) => PrefixView::Drive(*letter),
        }
    }
}

impl View for Component {
    type V = ComponentView;

    open spec fn view(&self) -> ComponentView {
        match self {
            Component::Prefix(prefix) => ComponentView::Prefix(prefix@),
            Component::Root => ComponentView::Root,
            Component::Current => ComponentView::Current,
            Component::Parent => ComponentView::Parent,
            Component::Name(name) => ComponentView::Name(name@),
        }
    }
}

/// A list of components.
pub open spec fn views(components: Seq<Component>) -> Seq<ComponentView> {
    Seq::new(components.len(), |i: int| components[i]@)
}

pub const SLASH: u8 = 0x2f;

pub const BACKSLASH: u8 = 0x5c;

pub const DOT: u8 = 0x2e;

pub const COLON: u8 = 0x3a;

pub const QUESTION: u8 = 0x3f;

/// Whether a byte separates names.
pub open spec fn separates(separators: Separators, b: u8) -> bool {
    match separators {
        Separators::Slash => b == SLASH,
        Separators::Backslash => b == BACKSLASH,
        Separators::Either => b == SLASH || b == BACKSLASH,
    }
}

/// How many bytes come before the first separator.
pub open spec fn run(separators: Separators, text: Seq<u8>) -> nat
    decreases text.len(),
{
    if text.len() == 0 || separates(separators, text[0]) {
        0
    } else {
        1 + run(separators, text.drop_first())
    }
}

/// What comes before the first separator.
pub open spec fn head(separators: Separators, text: Seq<u8>) -> Seq<u8> {
    text.take(run(separators, text) as int)
}

/// What comes after the first separator.
pub open spec fn tail(separators: Separators, text: Seq<u8>) -> Seq<u8> {
    if run(separators, text) < text.len() {
        text.skip(run(separators, text) as int + 1)
    } else {
        Seq::empty()
    }
}

/// Whether a byte is an ASCII letter.
pub open spec fn is_letter(b: u8) -> bool {
    0x41 <= b <= 0x5a || 0x61 <= b <= 0x7a
}

/// An ASCII letter in upper case.
pub open spec fn upper(b: u8) -> u8 {
    if 0x61 <= b <= 0x7a {
        (b - 0x20) as u8
    } else {
        b
    }
}

/// The drive that a text begins with, such as `C:`.
pub open spec fn drive(text: Seq<u8>) -> Option<u8> {
    if text.len() >= 2 && is_letter(text[0]) && text[1] == COLON {
        Some(upper(text[0]))
    } else {
        None
    }
}

/// The drive that a text begins with, where a separator or nothing follows it.
pub open spec fn exact_drive(text: Seq<u8>) -> Option<u8> {
    if text.len() > 2 && !separates(Separators::Either, text[2]) {
        None
    } else {
        drive(text)
    }
}

/// Whether a text begins with `\\`, in whichever separators.
pub open spec fn starts_double(text: Seq<u8>) -> bool {
    text.len() >= 2 && separates(Separators::Either, text[0]) && separates(
        Separators::Either,
        text[1],
    )
}

/// Whether a text begins with `\\?\`, in just this form.
pub open spec fn starts_verbatim(text: Seq<u8>) -> bool {
    text.len() >= 4 && text[0] == BACKSLASH && text[1] == BACKSLASH && text[2] == QUESTION
        && text[3] == BACKSLASH
}

/// Whether a text has `UNC\` at its fifth byte.
pub open spec fn has_unc(text: Seq<u8>) -> bool {
    text.len() >= 8 && text[4] == 0x55 && text[5] == 0x4e && text[6] == 0x43 && separates(
        Separators::Either,
        text[7],
    )
}

/// Whether a text begins with `\\.\`, in whichever separators.
pub open spec fn starts_device(text: Seq<u8>) -> bool {
    text.len() >= 4 && starts_double(text) && text[2] == DOT && separates(
        Separators::Either,
        text[3],
    )
}

/// The prefix of a Windows path.
pub open spec fn windows_prefix(text: Seq<u8>) -> Option<PrefixView> {
    if starts_verbatim(text) {
        if has_unc(text) {
            let rest = text.skip(8);
            Some(
                PrefixView::VerbatimShare(
                    head(Separators::Backslash, rest),
                    head(Separators::Backslash, tail(Separators::Backslash, rest)),
                ),
            )
        } else {
            match exact_drive(text.skip(4)) {
                Some(letter) => Some(PrefixView::VerbatimDrive(letter)),
                None => Some(PrefixView::Verbatim(head(Separators::Backslash, text.skip(4)))),
            }
        }
    } else if starts_device(text) {
        Some(PrefixView::Device(head(Separators::Either, text.skip(4))))
    } else if starts_double(text) {
        let server = head(Separators::Either, text.skip(2));
        let share = head(Separators::Either, tail(Separators::Either, text.skip(2)));
        if server.len() > 0 && share.len() > 0 {
            Some(PrefixView::Share(server, share))
        } else {
            None
        }
    } else {
        match drive(text) {
            Some(letter) => Some(PrefixView::Drive(letter)),
            None => None,
        }
    }
}

/// The prefix of a path.
pub open spec fn prefix_of(style: PathStyle, text: Seq<u8>) -> Option<PrefixView> {
    match style {
        PathStyle::Unix => None,
        PathStyle::Windows => windows_prefix(text),
    }
}

/// How many bytes of a path a prefix takes.
pub open spec fn prefix_len(prefix: PrefixView) -> nat {
    match prefix {
        PrefixView::Verbatim(name) => 4 + name.len(),
        PrefixView::VerbatimShare(server, share) => if share.len() > 0 {
            9 + server.len() + share.len()
        } else {
            8 + server.len()
        },
        PrefixView::VerbatimDrive(_) => 6,
        PrefixView::Device(name) => 4 + name.len(),
        PrefixView::Share(server, share) => 3 + server.len() + share.len(),
        PrefixView::Drive(_) => 2,
    }
}

/// Whether what follows a prefix is taken as it stands.
pub open spec fn is_verbatim(prefix: PrefixView) -> bool {
    prefix is Verbatim || prefix is VerbatimShare || prefix is VerbatimDrive
}

/// What separates the names that follow a prefix.
pub open spec fn separators_of(style: PathStyle, prefix: Option<PrefixView>) -> Separators {
    match style {
        PathStyle::Unix => Separators::Slash,
        PathStyle::Windows => if prefix is Some && is_verbatim(prefix->Some_0) {
            Separators::Backslash
        } else {
            Separators::Either
        },
    }
}

/// The path without its prefix.
pub open spec fn body_of(style: PathStyle, text: Seq<u8>) -> Seq<u8> {
    match prefix_of(style, text) {
        Some(prefix) => text.skip(prefix_len(prefix) as int),
        None => text,
    }
}

/// Whether a root is written after the prefix.
pub open spec fn has_written_root(style: PathStyle, text: Seq<u8>) -> bool {
    let body = body_of(style, text);
    body.len() > 0 && separates(separators_of(style, None), body[0])
}

/// Whether a path stands for the same place wherever it is used from.
pub open spec fn is_absolute(style: PathStyle, text: Seq<u8>) -> bool {
    match style {
        PathStyle::Unix => has_written_root(style, text),
        PathStyle::Windows => match windows_prefix(text) {
            Some(prefix) => has_written_root(style, text) || !(prefix is Drive),
            None => false,
        },
    }
}

/// The component that a piece between separators is, if it is one.
pub open spec fn single(separators: Separators, piece: Seq<u8>) -> Seq<ComponentView> {
    if piece.len() == 0 {
        Seq::empty()
    } else if piece == seq![DOT] {
        if separators is Backslash {
            seq![ComponentView::Current]
        } else {
            Seq::empty()
        }
    } else if piece == seq![DOT, DOT] {
        seq![ComponentView::Parent]
    } else {
        seq![ComponentView::Name(piece)]
    }
}

/// The components of the part of a path that follows prefix and root.
pub open spec fn names(separators: Separators, text: Seq<u8>) -> Seq<ComponentView>
    decreases text.len(),
{
    let first = single(separators, head(separators, text));
    if run(separators, text) < text.len() {
        first + names(separators, tail(separators, text))
    } else {
        first
    }
}

/// Whether a relative path begins with `.` as its first name.
pub open spec fn starts_current(style: PathStyle, text: Seq<u8>) -> bool {
    text.len() > 0 && text[0] == DOT && (text.len() == 1 || separates(
        separators_of(style, None),
        text[1],
    ))
}

/// The prefix and the root of a path.
pub open spec fn anchor(style: PathStyle, text: Seq<u8>) -> Seq<ComponentView> {
    let root = seq![ComponentView::Root];
    match prefix_of(style, text) {
        Some(prefix) => {
            let own = seq![ComponentView::Prefix(prefix)];
            if has_written_root(style, text) || !(is_verbatim(prefix) || prefix is Drive) {
                own + root
            } else {
                own
            }
        },
        None => if has_written_root(style, text) {
            root
        } else if starts_current(style, text) {
            seq![ComponentView::Current]
        } else {
            Seq::empty()
        },
    }
}

/// The components of a path.
pub open spec fn components(style: PathStyle, text: Seq<u8>) -> Seq<ComponentView> {
    let body = body_of(style, text);
    let separators = separators_of(style, prefix_of(style, text));
    anchor(style, text) + names(
        separators,
        if has_written_root(style, text) {
            body.skip(1)
        } else {
            body
        },
    )
}

fn is_separator(separators: Separators, b: u8) -> (yes: bool)
    ensures
        yes == separates(separators, b),
{
    match separators {
        Separators::Slash => b == SLASH,
        Separators::Backslash => b == BACKSLASH,
        Separators::Either => b == SLASH || b == BACKSLASH,
    }
}

/// How many bytes come before the first separator.
fn measure(separators: Separators, text: &[u8]) -> (length: usize)
    ensures
        length == run(separators, text@),
        length <= text@.len(),
        length < text@.len() ==> separates(separators, text@[length as int]),
{
    let n: usize = text.len();
    let mut i: usize = 0;
    assert(text@.skip(0) =~= text@);
    while i < n && !is_separator(separators, text[i])
        invariant
            i <= n,
            n == text@.len(),
            run(separators, text@) == i + run(separators, text@.skip(i as int)),
        decreases n - i,
    {
        assert(text@.skip(i as int)[0] == text@[i as int]);
        assert(text@.skip(i as int).drop_first() =~= text@.skip(i + 1));
        i = i + 1;
    }
    assert(i < n ==> text@.skip(i as int)[0] == text@[i as int]);
    i
}

/// What comes before the first separator, and what comes after it.
fn split(separators: Separators, text: &[u8]) -> (parts: (&[u8], &[u8]))
    ensures
        parts.0@ == head(separators, text@),
        parts.1@ == tail(separators, text@),
        parts.0@.len() == run(separators, text@) <= text@.len(),
        parts.0@.len() + parts.1@.len() <= text@.len(),
        parts.1@.len() > 0 ==> parts.0@.len() + 1 + parts.1@.len() == text@.len(),
{
    let length: usize = measure(separators, text);
    let n: usize = text.len();
    let first = slice_subrange(text, 0, length);
    assert(first@ =~= head(separators, text@));
    let rest = if length < n {
        slice_subrange(text, length + 1, n)
    } else {
        slice_subrange(text, n, n)
    };
    assert(rest@ =~= tail(separators, text@));
    (first, rest)
}

/// The drive that a text begins with.
fn read_drive(text: &[u8]) -> (letter: Option<u8>)
    ensures
        letter == drive(text@),
{
    if text.len() < 2 || text[1] != COLON {
        return None;
    }
    let b: u8 = text[0];
    if 0x41 <= b && b <= 0x5a {
        Some(b)
    } else if 0x61 <= b && b <= 0x7a {
        Some(b - 0x20)
    } else {
        None
    }
}

/// A text from one of its bytes on.
fn after(text: &[u8], from: usize) -> (rest: &[u8])
    requires
        from <= text@.len(),
    ensures
        rest@ == text@.skip(from as int),
{
    let rest = slice_subrange(text, from, text.len());
    assert(rest@ =~= text@.skip(from as int));
    rest
}

/// The prefix of a Windows path, and how many bytes it takes.
fn read_prefix(text: &[u8]) -> (read: Option<(Prefix, usize)>)
    ensures
        match read {
            Some((prefix, length)) => windows_prefix(text@) == Some(prefix@) && length
                == prefix_len(prefix@) && length <= text@.len(),
            None => windows_prefix(text@) is None,
        },
{
    let n: usize = text.len();
    let double: bool = n >= 2 && is_separator(Separators::Either, text[0]) && is_separator(
        Separators::Either,
        text[1],
    );
    if n >= 4 && text[0] == BACKSLASH && text[1] == BACKSLASH && text[2] == QUESTION && text[3]
        == BACKSLASH {
        if n >= 8 && text[4] == 0x55 && text[5] == 0x4e && text[6] == 0x43 && is_separator(
            Separators::Either,
            text[7],
        ) {
            let (server, rest) = split(Separators::Backslash, after(text, 8));
            let (share, _) = split(Separators::Backslash, rest);
            let length: usize = if share.len() > 0 {
                9 + server.len() + share.len()
            } else {
                8 + server.len()
            };
            return Some(
                (Prefix::VerbatimShare(slice_to_vec(server), slice_to_vec(share)), length),
            );
        }
        let rest = after(text, 4);
        if rest.len() <= 2 || is_separator(Separators::Either, rest[2]) {
            if let Some(letter) = read_drive(rest) {
                return Some((Prefix::VerbatimDrive(letter), 6));
            }
        }
        let (name, _) = split(Separators::Backslash, rest);
        return Some((Prefix::Verbatim(slice_to_vec(name)), 4 + name.len()));
    }
    if n >= 4 && double && text[2] == DOT && is_separator(Separators::Either, text[3]) {
        let (name, _) = split(Separators::Either, after(text, 4));
        return Some((Prefix::Device(slice_to_vec(name)), 4 + name.len()));
    }
    if double {
        let (server, rest) = split(Separators::Either, after(text, 2));
        let (share, _) = split(Separators::Either, rest);
        if server.len() > 0 && share.len() > 0 {
            return Some(
                (
                    Prefix::Share(slice_to_vec(server), slice_to_vec(share)),
                    3 + server.len() + share.len(),
                ),
            );
        }
        return None;
    }
    match read_drive(text) {
        Some(letter) => Some((Prefix::Drive(letter), 2)),
        None => None,
    }
}

/// Adds the component that a piece between separators is, if it is one.
fn push_single(separators: Separators, piece: &[u8], found: &mut Vec<Component>)
    ensures
        views(final(found)@) == views(old(found)@) + single(separators, piece@),
{
    let n: usize = piece.len();
    let ghost before = views(found@);
    assert(n == 1 && piece@[0] == DOT ==> piece@ =~= seq![DOT]);
    assert(n == 2 && piece@[0] == DOT && piece@[1] == DOT ==> piece@ =~= seq![DOT, DOT]);
    if n == 0 {
        assert(before + single(separators, piece@) =~= before);
    } else if n == 1 && piece[0] == DOT {
        if separators == Separators::Backslash {
            found.push(Component::Current);
            assert(views(found@) =~= before + seq![ComponentView::Current]);
        } else {
            assert(before + single(separators, piece@) =~= before);
        }
    } else if n == 2 && piece[0] == DOT && piece[1] == DOT {
        found.push(Component::Parent);
        assert(views(found@) =~= before + seq![ComponentView::Parent]);
    } else {
        found.push(Component::Name(slice_to_vec(piece)));
        assert(views(found@) =~= before + seq![ComponentView::Name(piece@)]);
    }
}

/// Adds the components of the part of a path that follows prefix and root.
fn push_names(separators: Separators, text: &[u8], found: &mut Vec<Component>)
    ensures
        views(final(found)@) == views(old(found)@) + names(separators, text@),
    decreases text@.len(),
{
    let (first, rest) = split(separators, text);
    let ghost before = views(found@);
    push_single(separators, first, found);
    if first.len() < text.len() {
        let ghost middle = views(found@);
        push_names(separators, rest, found);
        assert(views(found@) =~= before + names(separators, text@));
    }
}

/// The components of a path.
pub fn parse_path(style: PathStyle, text: &[u8]) -> (found: Vec<Component>)
    ensures
        views(found@) == components(style, text@),
{
    let mut found: Vec<Component> = Vec::new();
    assert(views(found@) =~= Seq::empty());
    let mut separators = Separators::Slash;
    let mut outer = Separators::Slash;
    let mut start: usize = 0;
    let mut prefixed: bool = false;
    let mut rooted: bool = false;
    assert(text@.skip(0) =~= text@);
    if style == PathStyle::Windows {
        separators = Separators::Either;
        outer = Separators::Either;
        if let Some((prefix, length)) = read_prefix(text) {
            start = length;
            prefixed = true;
            match &prefix {
                Prefix::Verbatim(_) | Prefix::VerbatimShare(..) | Prefix::VerbatimDrive(_) => {
                    separators = Separators::Backslash;
                },
                Prefix::Device(_) | Prefix::Share(..) => {
                    rooted = true;
                },
                Prefix::Drive(_) => {},
            }
            let ghost view = prefix@;
            found.push(Component::Prefix(prefix));
            assert(views(found@) =~= seq![ComponentView::Prefix(view)]);
        }
    }
    let ghost own = views(found@);
    let body = after(text, start);
    assert(body@ =~= body_of(style, text@));
    let written: bool = body.len() > 0 && is_separator(outer, body[0]);
    if written || rooted {
        found.push(Component::Root);
        assert(views(found@) =~= own + seq![ComponentView::Root]);
        if !prefixed {
            assert(own + seq![ComponentView::Root] =~= seq![ComponentView::Root]);
        }
    } else if !prefixed && body.len() > 0 && body[0] == DOT && (body.len() == 1 || is_separator(
        outer,
        body[1],
    )) {
        found.push(Component::Current);
        assert(views(found@) =~= seq![ComponentView::Current]);
    }
    assert(views(found@) == anchor(style, text@));
    if written {
        push_names(separators, after(body, 1), &mut found);
    } else {
        push_names(separators, body, &mut found);
    }
    found
}

/// Whether a path is absolute.
pub fn absolute(style: PathStyle, text: &[u8]) -> (yes: bool)
    ensures
        yes == is_absolute(style, text@),
{
    match style {
        PathStyle::Unix => text.len() > 0 && text[0] == SLASH,
        PathStyle::Windows => match read_prefix(text) {
            None => false,
            Some((Prefix::Drive(_), length)) => {
                let body = after(text, length);
                body.len() > 0 && is_separator(Separators::Either, body[0])
            },
            Some(_) => true,
        },
    }
}

/// The prefix of a path, by itself.
pub open spec fn own_prefix(path: Seq<ComponentView>) -> Seq<ComponentView> {
    if path.len() > 0 && path[0] is Prefix {
        seq![path[0]]
    } else {
        Seq::empty()
    }
}

/// Whether a path begins with a verbatim prefix.
pub open spec fn is_verbatim_path(path: Seq<ComponentView>) -> bool {
    &&& path.len() > 0
    &&& path[0] matches ComponentView::Prefix(prefix)
    &&& is_verbatim(prefix)
}

/// A path with one component of another path joined to it. A prefix replaces all that
/// came before and a root all but the prefix; a verbatim path steps back at once.
pub open spec fn extended(path: Seq<ComponentView>, c: ComponentView) -> Seq<ComponentView> {
    match c {
        ComponentView::Prefix(_) => seq![c],
        ComponentView::Root => own_prefix(path).push(c),
        ComponentView::Current => path,
        ComponentView::Parent => if is_verbatim_path(path) {
            if path.last() is Name {
                path.drop_last()
            } else {
                path
            }
        } else {
            path.push(c)
        },
        ComponentView::Name(_) => path.push(c),
    }
}

/// A path with another path joined to it.
pub open spec fn joined(path: Seq<ComponentView>, more: Seq<ComponentView>) -> Seq<ComponentView>
    decreases more.len(),
{
    if more.len() == 0 {
        path
    } else {
        extended(joined(path, more.drop_last()), more.last())
    }
}

/// The separator that a style writes.
pub open spec fn main_separator(style: PathStyle) -> u8 {
    match style {
        PathStyle::Unix => SLASH,
        PathStyle::Windows => BACKSLASH,
    }
}

/// `\\?\`
pub open spec fn verbatim_start() -> Seq<u8> {
    seq![BACKSLASH, BACKSLASH, QUESTION, BACKSLASH]
}

/// The text of a prefix.
pub open spec fn prefix_text(prefix: PrefixView) -> Seq<u8> {
    match prefix {
        PrefixView::Verbatim(name) => verbatim_start() + name,
        PrefixView::VerbatimShare(server, share) => {
            let start = verbatim_start() + seq![0x55u8, 0x4e, 0x43, BACKSLASH] + server;
            if share.len() > 0 {
                start.push(BACKSLASH) + share
            } else {
                start
            }
        },
        PrefixView::VerbatimDrive(letter) => verbatim_start().push(letter).push(COLON),
        PrefixView::Device(name) => seq![BACKSLASH, BACKSLASH, DOT, BACKSLASH] + name,
        PrefixView::Share(server, share) => (seq![BACKSLASH, BACKSLASH] + server).push(BACKSLASH)
            + share,
        PrefixView::Drive(letter) => seq![letter, COLON],
    }
}

/// The text of a component.
pub open spec fn component_text(style: PathStyle, c: ComponentView) -> Seq<u8> {
    match c {
        ComponentView::Prefix(prefix) => prefix_text(prefix),
        ComponentView::Root => seq![main_separator(style)],
        ComponentView::Current => seq![DOT],
        ComponentView::Parent => seq![DOT, DOT],
        ComponentView::Name(name) => name,
    }
}

/// Whether a separator is written between two components.
pub open spec fn needs_separator(before: ComponentView, c: ComponentView) -> bool {
    !(c is Prefix || c is Root) && match before {
        ComponentView::Prefix(prefix) => !(prefix is Drive),
        ComponentView::Root => false,
        _ => true,
    }
}

/// The text of a path.
pub open spec fn path_text(style: PathStyle, path: Seq<ComponentView>) -> Seq<u8>
    decreases path.len(),
{
    if path.len() == 0 {
        Seq::empty()
    } else {
        let before = path_text(style, path.drop_last());
        if path.len() > 1 && needs_separator(path[path.len() - 2], path.last()) {
            before.push(main_separator(style)) + component_text(style, path.last())
        } else {
            before + component_text(style, path.last())
        }
    }
}

/// Whether a path is another or lies below it.
pub open spec fn starts_with(path: Seq<ComponentView>, base: Seq<ComponentView>) -> bool {
    base.len() <= path.len() && path.take(base.len() as int) == base
}

/// Whether a path begins with a verbatim prefix.
fn begins_verbatim(path: &Vec<Component>) -> (yes: bool)
    ensures
        yes == is_verbatim_path(views(path@)),
{
    if path.len() == 0 {
        return false;
    }
    assert(views(path@)[0] == path@[0]@);
    match &path[0] {
        Component::Prefix(prefix) => match prefix {
            Prefix::Verbatim(_) | Prefix::VerbatimShare(..) | Prefix::VerbatimDrive(_) => true,
            _ => false,
        },
        _ => false,
    }
}

/// Leaves a path its prefix alone.
fn keep_prefix(path: &mut Vec<Component>)
    ensures
        views(final(path)@) == own_prefix(views(old(path)@)),
{
    let ghost before = path@;
    if path.len() > 0 {
        assert(views(before)[0] == before[0]@);
        let kept: usize = match &path[0] {
            Component::Prefix(_) => 1,
            _ => 0,
        };
        path.truncate(kept);
    }
    assert(views(path@) =~= own_prefix(views(before)));
}

/// Joins one component of another path to a path.
fn extend(path: &mut Vec<Component>, c: Component)
    ensures
        views(final(path)@) == extended(views(old(path)@), c@),
{
    let ghost before = path@;
    let ghost view = c@;
    match c {
        Component::Prefix(prefix) => {
            path.clear();
            path.push(Component::Prefix(prefix));
            assert(views(path@) =~= seq![view]);
        },
        Component::Root => {
            keep_prefix(path);
            path.push(Component::Root);
            assert(views(path@) =~= own_prefix(views(before)).push(view));
        },
        Component::Current => {},
        Component::Parent => {
            if begins_verbatim(path) {
                let n: usize = path.len();
                assert(views(before).last() == before.last()@);
                let named: bool = match &path[n - 1] {
                    Component::Name(_) => true,
                    _ => false,
                };
                if named {
                    path.truncate(n - 1);
                    assert(views(path@) =~= views(before).drop_last());
                }
            } else {
                path.push(Component::Parent);
                assert(views(path@) =~= views(before).push(view));
            }
        },
        Component::Name(name) => {
            path.push(Component::Name(name));
            assert(views(path@) =~= views(before).push(view));
        },
    }
}

/// Joins another path to a path.
fn extend_all(path: &mut Vec<Component>, more: Vec<Component>)
    ensures
        views(final(path)@) == joined(views(old(path)@), views(more@)),
{
    let ghost before = views(path@);
    let ghost pieces = more@;
    let ghost added = views(more@);
    assert(joined(before, added.take(0)) == before);
    for piece in iter: more
        invariant
            iter.seq() == pieces,
            added == views(pieces),
            views(path@) == joined(before, added.take(iter.index())),
    {
        let ghost i = iter.index();
        assert(added[i] == piece@);
        assert(added.take(i + 1).drop_last() =~= added.take(i));
        extend(path, piece);
    }
    assert(added.take(pieces.len() as int) =~= added);
}

/// Adds the text of a prefix.
fn write_prefix(prefix: &Prefix, text: &mut Vec<u8>)
    ensures
        final(text)@ == old(text)@ + prefix_text(prefix@),
{
    let ghost before = text@;
    match prefix {
        Prefix::Verbatim(name) => {
            text.push(BACKSLASH);
            text.push(BACKSLASH);
            text.push(QUESTION);
            text.push(BACKSLASH);
            text.extend_from_slice(name.as_slice());
        },
        Prefix::VerbatimShare(server, share) => {
            text.push(BACKSLASH);
            text.push(BACKSLASH);
            text.push(QUESTION);
            text.push(BACKSLASH);
            text.push(0x55);
            text.push(0x4e);
            text.push(0x43);
            text.push(BACKSLASH);
            text.extend_from_slice(server.as_slice());
            if share.len() > 0 {
                text.push(BACKSLASH);
                text.extend_from_slice(share.as_slice());
            }
        },
        Prefix::VerbatimDrive(letter) => {
            text.push(BACKSLASH);
            text.push(BACKSLASH);
            text.push(QUESTION);
            text.push(BACKSLASH);
            text.push(*letter);
            text.push(COLON);
        },
        Prefix::Device(name) => {
            text.push(BACKSLASH);
            text.push(BACKSLASH);
            text.push(DOT);
            text.push(BACKSLASH);
            text.extend_from_slice(name.as_slice());
        },
        Prefix::Share(server, share) => {
            text.push(BACKSLASH);
            text.push(BACKSLASH);
            text.extend_from_slice(server.as_slice());
            text.push(BACKSLASH);
            text.extend_from_slice(share.as_slice());
        },
        Prefix::Drive(letter) => {
            text.push(*letter);
            text.push(COLON);
        },
    }
    assert(text@ =~= before + prefix_text(prefix@));
}

/// The text of a path.
fn write_path(style: PathStyle, path: &Vec<Component>) -> (text: Vec<u8>)
    ensures
        text@ == path_text(style, views(path@)),
{
    let separator: u8 = match style {
        PathStyle::Unix => SLASH,
        PathStyle::Windows => BACKSLASH,
    };
    let ghost view = views(path@);
    let n: usize = path.len();
    let mut text: Vec<u8> = Vec::new();
    assert(view.take(0) =~= Seq::empty());
    for i in 0..n
        invariant
            n == path@.len(),
            view == views(path@),
            separator == main_separator(style),
            text@ == path_text(style, view.take(i as int)),
    {
        let ghost part = view.take(i + 1);
        assert(part.drop_last() =~= view.take(i as int));
        assert(view[i as int] == path@[i as int]@);
        if i > 0 {
            assert(view[i - 1] == path@[i - 1]@);
            let plain: bool = match &path[i] {
                Component::Prefix(_) | Component::Root => false,
                _ => true,
            };
            let open: bool = match &path[i - 1] {
                Component::Prefix(Prefix::Drive(_)) | Component::Root => false,
                _ => true,
            };
            if plain && open {
                text.push(separator);
            }
        }
        let ghost before = text@;
        match &path[i] {
            Component::Prefix(prefix) => write_prefix(prefix, &mut text),
            Component::Root => text.push(separator),
            Component::Current => text.push(DOT),
            Component::Parent => {
                text.push(DOT);
                text.push(DOT);
            },
            Component::Name(name) => text.extend_from_slice(name.as_slice()),
        }
        assert(text@ =~= before + component_text(style, view[i as int]));
    }
    assert(view.take(n as int) =~= view);
    text
}

/// How many bytes of a path its prefix takes.
pub open spec fn prefix_length(style: PathStyle, text: Seq<u8>) -> nat {
    match prefix_of(style, text) {
        Some(prefix) => prefix_len(prefix),
        None => 0,
    }
}

/// Whether a separator is written between a path and a relative one that is joined to it:
/// after a separator it is not, nor after a drive alone.
pub open spec fn takes_separator(style: PathStyle, text: Seq<u8>) -> bool {
    &&& text.len() > 0
    &&& !separates(separators_of(style, None), text.last())
    &&& !(prefix_of(style, text) matches Some(PrefixView::Drive(_)) && text.len() == 2)
}

/// The text of a path with another path joined to it. One that is absolute or has a prefix
/// replaces it, and one with a root all but its prefix. To a verbatim path the components
/// are joined one by one, below its prefix as it is written.
pub open spec fn joined_path(style: PathStyle, directory: Seq<u8>, name: Seq<u8>) -> Seq<u8> {
    let start = prefix_length(style, directory) as int;
    if is_absolute(style, name) || prefix_of(style, name) is Some {
        name
    } else if name.len() > 0 && is_verbatim_path(components(style, directory)) {
        let path = joined(components(style, directory), components(style, name));
        directory.take(start) + path_text(style, path).skip(start)
    } else if has_written_root(style, name) {
        directory.take(start) + name
    } else if takes_separator(style, directory) {
        directory.push(main_separator(style)) + name
    } else {
        directory + name
    }
}

/// The text of a path is no shorter than that of its prefix.
proof fn lemma_prefix_fits(style: PathStyle, path: Seq<ComponentView>)
    requires
        path.len() > 0,
        path[0] is Prefix,
    ensures
        path_text(style, path).len() >= prefix_text(path[0]->Prefix_0).len(),
    decreases path.len(),
{
    if path.len() > 1 {
        lemma_prefix_fits(style, path.drop_last());
    } else {
        assert(path_text(style, path.drop_last()).len() == 0);
    }
}

/// Joining a path without a prefix leaves a path its prefix.
proof fn lemma_joined_prefix(path: Seq<ComponentView>, more: Seq<ComponentView>)
    requires
        path.len() > 0,
        path[0] is Prefix,
        forall|i: int| 0 <= i < more.len() ==> !(#[trigger] more[i] is Prefix),
    ensures
        joined(path, more).len() > 0,
        joined(path, more)[0] == path[0],
    decreases more.len(),
{
    if more.len() > 0 {
        lemma_joined_prefix(path, more.drop_last());
        assert(!(more[more.len() - 1] is Prefix));
    }
}

/// The part of a path that follows prefix and root has no prefix.
proof fn lemma_names_have_no_prefix(separators: Separators, text: Seq<u8>)
    ensures
        forall|i: int|
            0 <= i < names(separators, text).len() ==> !(#[trigger] names(
                separators,
                text,
            )[i] is Prefix),
    decreases text.len(),
{
    if run(separators, text) < text.len() {
        lemma_names_have_no_prefix(separators, tail(separators, text));
    }
}

/// Joins a path to a path.
pub fn join(style: PathStyle, directory: &[u8], name: &str) -> (path: Vec<u8>)
    ensures
        path@ == joined_path(style, directory@, encode_utf8(name@)),
{
    join_bytes(style, directory, name.as_bytes())
}

/// Joins a path to a path.
fn join_bytes(style: PathStyle, directory: &[u8], more: &[u8]) -> (path: Vec<u8>)
    ensures
        path@ == joined_path(style, directory@, more@),
{
    let mut start: usize = 0;
    let mut bare: bool = false;
    let mut replaced: bool = absolute(style, more);
    if style == PathStyle::Windows {
        if let Some((prefix, length)) = read_prefix(directory) {
            start = length;
            bare = matches!(prefix, Prefix::Drive(_)) && directory.len() == 2;
        }
        if read_prefix(more).is_some() {
            replaced = true;
        }
    }
    if replaced {
        return slice_to_vec(more);
    }
    let outer = match style {
        PathStyle::Unix => Separators::Slash,
        PathStyle::Windows => Separators::Either,
    };
    let mut parts = parse_path(style, directory);
    let mut path = slice_to_vec(slice_subrange(directory, 0, start));
    assert(path@ =~= directory@.take(start as int));
    if more.len() > 0 && begins_verbatim(&parts) {
        let ghost before = views(parts@);
        let ghost added = components(style, more@);
        extend_all(&mut parts, parse_path(style, more));
        proof {
            lemma_names_have_no_prefix(separators_of(style, None), more@);
            lemma_names_have_no_prefix(separators_of(style, None), more@.skip(1));
            lemma_joined_prefix(before, added);
            lemma_prefix_fits(style, views(parts@));
        }
        let text = write_path(style, &parts);
        append_bytes(&mut path, after(text.as_slice(), start));
        return path;
    }
    if more.len() > 0 && is_separator(outer, more[0]) {
        append_bytes(&mut path, more);
        return path;
    }
    path = slice_to_vec(directory);
    let n: usize = directory.len();
    if n > 0 && !is_separator(outer, directory[n - 1]) && !bare {
        path.push(
            match style {
                PathStyle::Unix => SLASH,
                PathStyle::Windows => BACKSLASH,
            },
        );
    }
    append_bytes(&mut path, more);
    path
}

/// Where the last piece of a text begins: after its last separator.
pub open spec fn last_start(separators: Separators, text: Seq<u8>) -> nat
    decreases text.len(),
{
    if text.len() == 0 || separates(separators, text.last()) {
        text.len()
    } else {
        last_start(separators, text.drop_last())
    }
}

/// A text without its last piece and the separator before it.
pub open spec fn without_piece(separators: Separators, text: Seq<u8>) -> Seq<u8> {
    let n = last_start(separators, text);
    if 0 < n <= text.len() {
        text.take(n - 1)
    } else {
        Seq::empty()
    }
}

/// A text without the pieces at its end that are no components.
pub open spec fn trimmed(separators: Separators, text: Seq<u8>) -> Seq<u8>
    decreases text.len(),
{
    if text.len() > 0 && single(
        separators,
        text.skip(last_start(separators, text) as int),
    ).len() == 0 {
        trimmed(separators, without_piece(separators, text))
    } else {
        text
    }
}

/// Whether a path without a root has a `.` before all names.
pub open spec fn has_leading_current(style: PathStyle, text: Seq<u8>) -> bool {
    &&& !has_written_root(style, text)
    &&& prefix_of(style, text) matches Some(prefix) ==> prefix is Drive
    &&& starts_current(style, body_of(style, text))
}

/// How many bytes of a path come before its names.
pub open spec fn names_start(style: PathStyle, text: Seq<u8>) -> nat {
    prefix_length(style, text) + if has_written_root(style, text) || has_leading_current(
        style,
        text,
    ) {
        1nat
    } else {
        0
    }
}

/// The text of a path without its last component, where that is neither prefix nor root.
pub open spec fn parent_path(style: PathStyle, text: Seq<u8>) -> Seq<u8> {
    let start = names_start(style, text) as int;
    let separators = separators_of(style, prefix_of(style, text));
    let own = trimmed(separators, text.skip(start));
    if own.len() > 0 {
        text.take(start) + trimmed(separators, without_piece(separators, own))
    } else if has_leading_current(style, text) && prefix_of(style, text) is None {
        Seq::empty()
    } else {
        text
    }
}

/// How the prefix of a path is written, with a drive's letter in upper case.
pub open spec fn written_prefix(style: PathStyle, text: Seq<u8>) -> Seq<u8> {
    match prefix_of(style, text) {
        Some(PrefixView::Drive(letter)) => prefix_text(PrefixView::Drive(letter)),
        Some(PrefixView::VerbatimDrive(letter)) => prefix_text(PrefixView::VerbatimDrive(letter)),
        Some(prefix) => text.take(prefix_len(prefix) as int),
        None => Seq::empty(),
    }
}

/// The text of a path after one more component of `whole`. A name is joined as the path
/// that its own text is.
pub open spec fn resolved_step(
    style: PathStyle,
    whole: Seq<u8>,
    text: Seq<u8>,
    c: ComponentView,
) -> Seq<u8> {
    match c {
        ComponentView::Prefix(_) => written_prefix(style, whole),
        ComponentView::Root => joined_path(style, text, seq![main_separator(style)]),
        ComponentView::Current => text,
        ComponentView::Parent => parent_path(style, text),
        ComponentView::Name(name) => joined_path(style, text, name),
    }
}

/// The text of a path after several components of `whole`.
pub open spec fn resolved_parts(style: PathStyle, whole: Seq<u8>, parts: Seq<ComponentView>) -> Seq<
    u8,
>
    decreases parts.len(),
{
    if parts.len() == 0 {
        Seq::empty()
    } else {
        resolved_step(
            style,
            whole,
            resolved_parts(style, whole, parts.drop_last()),
            parts.last(),
        )
    }
}

/// The text of a path resolved by its text alone, component by component: `.` goes, `..`
/// takes what comes before it, and all else is joined. The prefix stays as it is written
/// but for the letter of a drive.
pub open spec fn resolved(style: PathStyle, text: Seq<u8>) -> Seq<u8> {
    resolved_parts(style, text, components(style, text))
}

/// Finds where the last piece of a text begins.
fn find_last(separators: Separators, text: &[u8]) -> (start: usize)
    ensures
        start == last_start(separators, text@),
        start <= text@.len(),
{
    let mut n: usize = text.len();
    assert(text@.take(n as int) =~= text@);
    while n > 0 && !is_separator(separators, text[n - 1])
        invariant
            n <= text@.len(),
            last_start(separators, text@) == last_start(separators, text@.take(n as int)),
        decreases n,
    {
        assert(text@.take(n as int).drop_last() =~= text@.take(n - 1));
        n = n - 1;
    }
    n
}

/// How long a text is without its last piece and the separator before it.
fn drop_piece(separators: Separators, text: &[u8]) -> (length: usize)
    ensures
        length <= text@.len(),
        text@.len() > 0 ==> length < text@.len(),
        text@.take(length as int) == without_piece(separators, text@),
{
    let n: usize = find_last(separators, text);
    assert(text@.take(0) =~= Seq::empty());
    if n > 0 {
        n - 1
    } else {
        0
    }
}

/// How long a text is without the pieces at its end that are no components.
fn trim(separators: Separators, text: &[u8]) -> (length: usize)
    ensures
        length <= text@.len(),
        text@.take(length as int) == trimmed(separators, text@),
{
    let mut n: usize = text.len();
    assert(text@.take(n as int) =~= text@);
    while n > 0
        invariant
            n <= text@.len(),
            trimmed(separators, text@) == trimmed(separators, text@.take(n as int)),
        decreases n,
    {
        let part = slice_subrange(text, 0, n);
        assert(part@ =~= text@.take(n as int));
        let mut found: Vec<Component> = Vec::new();
        let ghost none = views(found@);
        assert(none =~= Seq::empty());
        let start: usize = find_last(separators, part);
        push_single(separators, after(part, start), &mut found);
        assert(none + single(separators, part@.skip(start as int)) =~= single(
            separators,
            part@.skip(start as int),
        ));
        assert(views(found@).len() == found@.len());
        if found.len() > 0 {
            return n;
        }
        n = drop_piece(separators, part);
        assert(part@.take(n as int) =~= text@.take(n as int));
    }
    n
}

/// Where the names of a path begin.
struct Anchor {
    start: usize,
    separators: Separators,
    /// Whether there is a `.` before all names, and nothing before that.
    current: bool,
}

/// Finds where the names of a path begin.
fn find_anchor(style: PathStyle, text: &[u8]) -> (anchor: Anchor)
    ensures
        anchor.start == names_start(style, text@),
        anchor.start <= text@.len(),
        anchor.separators == separators_of(style, prefix_of(style, text@)),
        anchor.current == (has_leading_current(style, text@) && prefix_of(style, text@) is None),
{
    let mut separators = Separators::Slash;
    let mut outer = Separators::Slash;
    let mut start: usize = 0;
    let mut prefixed: bool = false;
    let mut rooted: bool = false;
    assert(text@.skip(0) =~= text@);
    if style == PathStyle::Windows {
        separators = Separators::Either;
        outer = Separators::Either;
        if let Some((prefix, length)) = read_prefix(text) {
            start = length;
            prefixed = true;
            match &prefix {
                Prefix::Verbatim(_) | Prefix::VerbatimShare(..) | Prefix::VerbatimDrive(_) => {
                    separators = Separators::Backslash;
                    rooted = true;
                },
                Prefix::Device(_) | Prefix::Share(..) => {
                    rooted = true;
                },
                Prefix::Drive(_) => {},
            }
        }
    }
    let n: usize = text.len();
    let body = after(text, start);
    assert(body@ =~= body_of(style, text@));
    let written: bool = body.len() > 0 && is_separator(outer, body[0]);
    let current: bool = !written && !rooted && body.len() > 0 && body[0] == DOT && (body.len() == 1
        || is_separator(outer, body[1]));
    if written || current {
        assert(start < n);
        start = start + 1;
    }
    Anchor { start, separators, current: current && !prefixed }
}

/// Takes the last component from a path, where that is neither prefix nor root.
fn pop(style: PathStyle, text: &mut Vec<u8>)
    ensures
        final(text)@ == parent_path(style, old(text)@),
{
    let ghost before = text@;
    let n: usize = text.len();
    let anchor = find_anchor(style, text.as_slice());
    let start: usize = anchor.start;
    let names = after(text.as_slice(), start);
    let own = slice_subrange(names, 0, trim(anchor.separators, names));
    assert(own@ =~= trimmed(anchor.separators, before.skip(start as int)));
    if own.len() > 0 {
        let rest = slice_subrange(own, 0, drop_piece(anchor.separators, own));
        assert(rest@ =~= without_piece(anchor.separators, own@));
        let length: usize = trim(anchor.separators, rest);
        let ghost left = rest@.take(length as int);
        assert(start + length <= n);
        text.truncate(start + length);
        assert(text@ =~= before.take(start as int) + left);
    } else if anchor.current {
        text.clear();
        assert(text@ =~= Seq::empty());
    }
}

/// The text of a path once it is resolved by its text alone.
pub fn resolve_text(style: PathStyle, text: &[u8]) -> (result: Vec<u8>)
    ensures
        result@ == resolved(style, text@),
{
    let parts = parse_path(style, text);
    let ghost all = parts@;
    let ghost view = views(parts@);
    let mut result: Vec<u8> = Vec::new();
    assert(result@ =~= Seq::empty());
    for c in iter: parts
        invariant
            iter.seq() == all,
            view == views(all),
            view == components(style, text@),
            result@ == resolved_parts(style, text@, view.take(iter.index())),
    {
        let ghost i = iter.index();
        assert(view[i] == c@);
        assert(view.take(i + 1).drop_last() =~= view.take(i));
        match c {
            Component::Prefix(prefix) => {
                result = rewrite_prefix(style, text);
            },
            Component::Root => {
                let root: Vec<u8> = vec![
                    match style {
                        PathStyle::Unix => SLASH,
                        PathStyle::Windows => BACKSLASH,
                    },
                ];
                assert(root@ =~= seq![main_separator(style)]);
                result = join_bytes(style, result.as_slice(), root.as_slice());
            },
            Component::Current => {},
            Component::Parent => pop(style, &mut result),
            Component::Name(name) => {
                result = join_bytes(style, result.as_slice(), name.as_slice());
            },
        }
    }
    assert(view.take(all.len() as int) =~= view);
    result
}

/// Writes the prefix of a path.
fn rewrite_prefix(style: PathStyle, text: &[u8]) -> (written: Vec<u8>)
    ensures
        written@ == written_prefix(style, text@),
{
    let mut written: Vec<u8> = Vec::new();
    assert(written@ =~= Seq::empty());
    if style == PathStyle::Windows {
        if let Some((prefix, length)) = read_prefix(text) {
            match &prefix {
                Prefix::Drive(_) | Prefix::VerbatimDrive(_) => {
                    write_prefix(&prefix, &mut written);
                    assert(written@ =~= prefix_text(prefix@));
                },
                _ => {
                    written = slice_to_vec(slice_subrange(text, 0, length));
                    assert(written@ =~= text@.take(length as int));
                },
            }
        }
    }
    written
}

fn same_prefix(a: &Prefix, b: &Prefix) -> (same: bool)
    ensures
        same == (a@ == b@),
{
    match (a, b) {
        (Prefix::Verbatim(x), Prefix::Verbatim(y)) => same_bytes(x.as_slice(), y.as_slice()),
        (Prefix::VerbatimShare(x, s), Prefix::VerbatimShare(y, t)) => same_bytes(
            x.as_slice(),
            y.as_slice(),
        ) && same_bytes(s.as_slice(), t.as_slice()),
        (Prefix::VerbatimDrive(x), Prefix::VerbatimDrive(y)) => *x == *y,
        (Prefix::Device(x), Prefix::Device(y)) => same_bytes(x.as_slice(), y.as_slice()),
        (Prefix::Share(x, s), Prefix::Share(y, t)) => same_bytes(x.as_slice(), y.as_slice())
            && same_bytes(s.as_slice(), t.as_slice()),
        (Prefix::Drive(x), Prefix::Drive(y)) => *x == *y,
        _ => false,
    }
}

fn same_component(a: &Component, b: &Component) -> (same: bool)
    ensures
        same == (a@ == b@),
{
    match (a, b) {
        (Component::Prefix(x), Component::Prefix(y)) => same_prefix(x, y),
        (Component::Root, Component::Root) => true,
        (Component::Current, Component::Current) => true,
        (Component::Parent, Component::Parent) => true,
        (Component::Name(x), Component::Name(y)) => same_bytes(x.as_slice(), y.as_slice()),
        _ => false,
    }
}

/// Whether a path is another or lies below it.
pub fn path_starts_with(path: &Vec<Component>, base: &Vec<Component>) -> (yes: bool)
    ensures
        yes == starts_with(views(path@), views(base@)),
{
    let n: usize = base.len();
    if n > path.len() {
        return false;
    }
    let ghost whole = views(path@);
    let ghost wanted = views(base@);
    for i in 0..n
        invariant
            n == base@.len() <= path@.len(),
            whole == views(path@),
            wanted == views(base@),
            forall|j: int| 0 <= j < i ==> whole[j] == wanted[j],
    {
        assert(whole[i as int] == path@[i as int]@ && wanted[i as int] == base@[i as int]@);
        if !same_component(&path[i], &base[i]) {
            assert(whole.take(n as int)[i as int] != wanted[i as int]);
            return false;
        }
    }
    assert(whole.take(n as int) =~= wanted);
    true
}

/// The text of a Windows path as UTF-8: a surrogate that stands alone, which takes
/// three bytes, gives way to the replacement character.
pub open spec fn mended(text: Seq<u8>) -> Seq<u8>
    decreases text.len(),
{
    if text.len() == 0 {
        Seq::empty()
    } else if text.len() >= 3 && text[0] == 0xed && text[1] >= 0xa0 {
        seq![0xefu8, 0xbf, 0xbd] + mended(text.skip(3))
    } else {
        seq![text[0]] + mended(text.skip(1))
    }
}

/// The text of a path as people read it.
pub open spec fn readable(style: PathStyle, text: Seq<u8>) -> Seq<char> {
    match style {
        PathStyle::Unix => lossy(text),
        PathStyle::Windows => lossy(mended(text)),
    }
}

/// Replaces surrogates that stand alone.
fn mend(text: &[u8]) -> (mended_text: Vec<u8>)
    ensures
        mended_text@ == mended(text@),
{
    let n: usize = text.len();
    let mut result: Vec<u8> = Vec::new();
    let mut i: usize = 0;
    assert(text@.skip(0) =~= text@);
    while i < n
        invariant
            i <= n == text@.len(),
            result@ + mended(text@.skip(i as int)) == mended(text@),
        decreases n - i,
    {
        let ghost rest = text@.skip(i as int);
        let ghost before = result@;
        assert(rest[0] == text@[i as int]);
        if n - i >= 3 && text[i] == 0xed && text[i + 1] >= 0xa0 {
            assert(rest[1] == text@[i + 1]);
            assert(rest.skip(3) =~= text@.skip(i + 3));
            result.push(0xef);
            result.push(0xbf);
            result.push(0xbd);
            assert(result@ + mended(rest.skip(3)) =~= before + mended(rest));
            i = i + 3;
        } else {
            assert(n - i >= 3 ==> rest[1] == text@[i + 1]);
            assert(rest.skip(1) =~= text@.skip(i + 1));
            result.push(text[i]);
            assert(result@ + mended(rest.skip(1)) =~= before + mended(rest));
            i = i + 1;
        }
    }
    assert(result@ + mended(text@.skip(i as int)) =~= result@);
    result
}

/// The text of a path as people read it.
pub fn read_text(style: PathStyle, text: &[u8]) -> (read: String)
    ensures
        read@ == readable(style, text@),
{
    match style {
        PathStyle::Unix => from_utf8_lossy(text),
        PathStyle::Windows => from_utf8_lossy(mend(text).as_slice()),
    }
}

} // verus!
