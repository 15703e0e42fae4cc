//! What holds of paths on Windows and of joined paths, said of their bytes.
use crate::path::{
    anchor, body_of, components, extended, has_written_root, is_absolute, is_verbatim, joined,
    joined_path, last_start, mended, names, names_start, parent_path, path_text, prefix_len,
    prefix_of, readable, resolved, resolved_parts, separates, separators_of, single, trimmed,
    windows_prefix, without_piece, written_prefix, ComponentView, PathStyle, PrefixView, Separators,
    BACKSLASH, COLON, DOT, QUESTION, SLASH,
};
use crate::routing_laws::{
    lemma_names_grow, lemma_prefix_fits, lemma_resolved_alike, lemma_run_is, piece,
};
use crate::text::lossy;
use vstd::prelude::*;

verus! {

/// Whether a byte separates names on Windows.
pub open spec fn is_slash(b: u8) -> bool {
    b == SLASH || b == BACKSLASH
}

/// Whether a text holds no separator of Windows.
pub open spec fn is_whole(text: Seq<u8>) -> bool {
    forall|i: int| 0 <= i < text.len() ==> !is_slash(#[trigger] text[i])
}

/// Whether a text begins with a drive, such as `c:`.
pub open spec fn has_drive(text: Seq<u8>) -> bool {
    text.len() >= 2 && (0x41 <= text[0] <= 0x5a || 0x61 <= text[0] <= 0x7a) && text[1] == COLON
}

/// The upper-case letter of the drive that a text begins with.
pub open spec fn letter_of(text: Seq<u8>) -> u8 {
    if text[0] >= 0x61 {
        (text[0] - 0x20) as u8
    } else {
        text[0]
    }
}

/// Whether a text begins with `\\?\`, in just this spelling.
pub open spec fn has_verbatim(text: Seq<u8>) -> bool {
    text.len() >= 4 && text.take(4) == seq![BACKSLASH, BACKSLASH, QUESTION, BACKSLASH]
}

/// What is joined to a Unix path replaces it where it begins with a slash, and otherwise
/// comes after it, and after a slash unless there is one or nothing comes before.
pub proof fn law_joined_on_unix(directory: Seq<u8>, name: Seq<u8>)
    ensures
        ({
            let path = joined_path(PathStyle::Unix, directory, name);
            if name.len() > 0 && name[0] == SLASH {
                path == name
            } else if directory.len() == 0 || directory[directory.len() - 1] == SLASH {
                path == directory + name
            } else {
                path == directory.push(SLASH) + name
            }
        }),
{
    lemma_unix_is_plain(directory);
}

proof fn lemma_unix_is_plain(text: Seq<u8>)
    ensures
        prefix_of(PathStyle::Unix, text) is None,
        components(PathStyle::Unix, text).len() > 0 ==> !(components(PathStyle::Unix, text)[0]
            is Prefix),
{
    lemma_no_prefix(Separators::Slash, text);
    lemma_no_prefix(Separators::Slash, text.skip(1));
}

proof fn lemma_no_prefix(separators: Separators, text: Seq<u8>)
    ensures
        forall|i: int|
            0 <= i < names(separators, text).len() ==> !(#[trigger] names(
                separators,
                text,
            )[i] is Prefix),
    decreases text.len(),
{
    if crate::path::run(separators, text) < text.len() {
        lemma_no_prefix(separators, crate::path::tail(separators, text));
    }
}

/// A Windows path that begins with a letter and a colon has that drive, whatever the case
/// of the letter. It is absolute just where a separator follows.
pub proof fn law_drives(text: Seq<u8>)
    requires
        has_drive(text),
    ensures
        windows_prefix(text) == Some(PrefixView::Drive(letter_of(text))),
        is_absolute(PathStyle::Windows, text) <==> text.len() > 2 && is_slash(text[2]),
{
}

/// A Windows path that begins with neither a drive nor two separators is not absolute.
pub proof fn law_paths_without_prefix(text: Seq<u8>)
    requires
        !has_drive(text),
        !(text.len() >= 2 && is_slash(text[0]) && is_slash(text[1])),
    ensures
        windows_prefix(text) is None,
        !is_absolute(PathStyle::Windows, text),
{
}

/// A Windows path that begins with two separators, a server, a separator and a share has
/// that share, and is absolute, unless it is verbatim or names a device.
pub proof fn law_shares(
    text: Seq<u8>,
    first: Seq<u8>,
    server: Seq<u8>,
    second: Seq<u8>,
    share: Seq<u8>,
    rest: Seq<u8>,
)
    requires
        text == first + server + second + share + rest,
        first.len() == 2 && is_slash(first[0]) && is_slash(first[1]),
        second.len() == 1 && is_slash(second[0]),
        server.len() > 0,
        share.len() > 0,
        is_whole(server),
        is_whole(share),
        rest.len() > 0 ==> is_slash(rest[0]),
        !has_verbatim(text),
        server != seq![DOT],
    ensures
        windows_prefix(text) == Some(PrefixView::Share(server, share)),
        is_absolute(PathStyle::Windows, text),
        prefix_len(PrefixView::Share(server, share)) == 3 + server.len() + share.len(),
{
    let either = Separators::Either;
    let n = server.len() as int;
    let m = share.len() as int;
    let after = text.skip(2);
    assert forall|i: int| 0 <= i < n implies !separates(either, #[trigger] after[i]) by {
        assert(server[i] == text[2 + i]);
    }
    assert(after[n] == second[0]);
    lemma_run_is(either, after, n);
    assert(after.take(n) =~= server);
    let tail = after.skip(n + 1);
    assert forall|i: int| 0 <= i < m implies !separates(either, #[trigger] tail[i]) by {
        assert(share[i] == text[3 + n + i]);
    }
    if rest.len() > 0 {
        assert(tail[m] == rest[0]);
    }
    lemma_run_is(either, tail, m);
    assert(tail.take(m) =~= share);
    assert(!crate::path::starts_verbatim(text)) by {
        if crate::path::starts_verbatim(text) {
            assert(text.take(4) =~= seq![BACKSLASH, BACKSLASH, QUESTION, BACKSLASH]);
        }
    }
    assert(!crate::path::starts_device(text)) by {
        if crate::path::starts_device(text) {
            assert(server[0] == text[2]);
            if n > 1 {
                assert(server[1] == text[3]);
            }
            assert(server =~= seq![DOT]);
        }
    }
}

/// A verbatim path with a drive, which nothing or a separator follows, has that drive, and
/// is absolute.
pub proof fn law_verbatim_drives(text: Seq<u8>)
    requires
        has_verbatim(text),
        has_drive(text.skip(4)),
        text.len() > 6 ==> is_slash(text[6]),
    ensures
        windows_prefix(text) == Some(PrefixView::VerbatimDrive(letter_of(text.skip(4)))),
        is_absolute(PathStyle::Windows, text),
{
    lemma_verbatim_bytes(text);
    assert(text.skip(4)[0] == text[4] && text.skip(4)[1] == text[5]);
    if text.len() > 6 {
        assert(text.skip(4)[2] == text[6]);
    }
}

proof fn lemma_verbatim_bytes(text: Seq<u8>)
    requires
        has_verbatim(text),
    ensures
        crate::path::starts_verbatim(text),
{
    let start = text.take(4);
    assert(start[0] == BACKSLASH && start[1] == BACKSLASH && start[2] == QUESTION && start[3]
        == BACKSLASH);
    assert(start[0] == text[0] && start[1] == text[1] && start[2] == text[2] && start[3]
        == text[3]);
}

/// A piece after a separator adds to the components of a Windows path what it is by itself,
/// as long as the prefix stays and a root comes after it. In a verbatim path only `\`
/// separates, and a dot is a component.
pub proof fn law_windows_components(text: Seq<u8>, sep: u8, name: Seq<u8>)
    requires
        is_whole(name),
        is_slash(sep),
        windows_prefix(text.push(sep) + name) == windows_prefix(text),
        windows_prefix(text) matches Some(prefix) && prefix_len(prefix) < text.len() && is_slash(
            text[prefix_len(prefix) as int],
        ),
    ensures
        ({
            let style = PathStyle::Windows;
            let more = components(style, text.push(sep) + name);
            let verbatim = is_verbatim(windows_prefix(text)->Some_0);
            &&& !verbatim ==> more == components(style, text) + piece(name)
            &&& verbatim && sep == BACKSLASH ==> more == components(style, text) + if name
                == seq![DOT] {
                seq![ComponentView::Current]
            } else {
                piece(name)
            }
        }),
{
    let style = PathStyle::Windows;
    let all = text.push(sep) + name;
    let prefix = windows_prefix(text)->Some_0;
    let n = prefix_len(prefix) as int;
    let separators = separators_of(style, Some(prefix));
    let body = text.skip(n).skip(1);
    assert(all.skip(n).skip(1) =~= body.push(sep) + name);
    assert(text.skip(n)[0] == text[n]);
    assert(all.skip(n)[0] == text[n]);
    assert(has_written_root(style, text) && has_written_root(style, all));
    assert(anchor(style, all) == anchor(style, text));
    if separates(separators, sep) {
        lemma_names_grow(separators, body, sep, name);
        assert(single(separators, name) =~= if is_verbatim(prefix) && name == seq![DOT] {
            seq![ComponentView::Current]
        } else {
            piece(name)
        }) by {
            if name.len() == 0 {
                assert(name =~= Seq::empty());
            }
        }
        assert(components(style, all) =~= components(style, text) + single(separators, name));
    }
}

/// The components of a Windows path with a drive, piece by piece.
pub proof fn law_windows_drive_components(text: Seq<u8>, sep: u8, name: Seq<u8>)
    requires
        has_drive(text),
        is_slash(sep),
        is_whole(name),
    ensures
        text.len() == 2 ==> components(PathStyle::Windows, text.push(sep) + name) == seq![
            ComponentView::Prefix(PrefixView::Drive(letter_of(text))),
            ComponentView::Root,
        ] + piece(name),
        text.len() > 2 && is_slash(text[2]) ==> components(
            PathStyle::Windows,
            text.push(sep) + name,
        ) == components(PathStyle::Windows, text) + piece(name),
{
    let style = PathStyle::Windows;
    let all = text.push(sep) + name;
    assert(all[0] == text[0] && all[1] == text[1]);
    law_drives(text);
    law_drives(all);
    if text.len() == 2 {
        assert(all.skip(2)[0] == sep);
        assert(all.skip(2).skip(1) =~= name);
        lemma_names_grow(Separators::Either, Seq::empty(), sep, name);
        assert(single(Separators::Either, name) =~= piece(name)) by {
            if name.len() == 0 {
                assert(name =~= Seq::empty());
            }
        }
        assert(components(style, all) =~= seq![
            ComponentView::Prefix(PrefixView::Drive(letter_of(text))),
            ComponentView::Root,
        ] + piece(name));
    } else if is_slash(text[2]) {
        law_windows_components(text, sep, name);
    }
}

/// What is joined to a Windows path that is not verbatim: one with a drive replaces it, one
/// that begins with one separator replaces all that follows the drive, and any other comes
/// after it, and after a backslash unless there is a separator, nothing, or a drive alone.
pub proof fn law_joined_on_windows(directory: Seq<u8>, name: Seq<u8>)
    requires
        !has_verbatim(directory),
        !(name.len() >= 2 && is_slash(name[0]) && is_slash(name[1])),
    ensures
        ({
            let path = joined_path(PathStyle::Windows, directory, name);
            if has_drive(name) {
                path == name
            } else if name.len() > 0 && is_slash(name[0]) {
                has_drive(directory) ==> path == directory.take(2) + name
            } else if directory.len() == 0 || is_slash(directory[directory.len() - 1]) || (
            directory.len() == 2 && has_drive(directory)) {
                path == directory + name
            } else {
                path == directory.push(BACKSLASH) + name
            }
        }),
{
    lemma_not_verbatim(directory);
    if !has_drive(name) {
        law_paths_without_prefix(name);
        assert(name.skip(0) =~= name);
    }
    if has_drive(directory) {
        law_drives(directory);
    }
}

proof fn lemma_not_verbatim(text: Seq<u8>)
    requires
        !has_verbatim(text),
    ensures
        windows_prefix(text) matches Some(prefix) ==> !is_verbatim(prefix),
        !crate::path::is_verbatim_path(components(PathStyle::Windows, text)),
{
    if crate::path::starts_verbatim(text) {
        assert(text.take(4) =~= seq![BACKSLASH, BACKSLASH, QUESTION, BACKSLASH]);
    }
    let body = body_of(PathStyle::Windows, text);
    lemma_no_prefix(Separators::Either, body);
    lemma_no_prefix(Separators::Either, body.skip(1));
    lemma_no_prefix(Separators::Backslash, body);
    lemma_no_prefix(Separators::Backslash, body.skip(1));
}

/// To join to a verbatim path is to add components to it, below its prefix as written: a
/// path of plain names adds them all, each after a backslash.
pub proof fn law_verbatim_paths_keep_their_prefix(directory: Seq<u8>, name: Seq<u8>)
    requires
        has_verbatim(directory),
        windows_prefix(name) is None,
    ensures
        windows_prefix(directory) matches Some(prefix) && joined_path(
            PathStyle::Windows,
            directory,
            name,
        ).take(prefix_len(prefix) as int) == directory.take(prefix_len(prefix) as int),
{
    lemma_verbatim_bytes(directory);
    lemma_prefix_fits(directory);
    let prefix = windows_prefix(directory)->Some_0;
    let n = prefix_len(prefix) as int;
    let path = joined_path(PathStyle::Windows, directory, name);
    assert(path.take(n) =~= directory.take(n));
}

/// How the text that a path is resolved to grows with a component more: a step back takes
/// the last component, and a name is joined.
pub proof fn law_resolving_goes_on(style: PathStyle, text: Seq<u8>, more: Seq<u8>, c: ComponentView)
    requires
        written_prefix(style, more) == written_prefix(style, text),
        components(style, more) == components(style, text).push(c),
        !(c is Prefix),
    ensures
        c is Current ==> resolved(style, more) == resolved(style, text),
        c is Parent ==> resolved(style, more) == parent_path(style, resolved(style, text)),
        c matches ComponentView::Name(name) ==> resolved(style, more) == joined_path(
            style,
            resolved(style, text),
            name,
        ),
{
    let parts = components(style, text);
    assert(parts.push(c).drop_last() =~= parts);
    lemma_resolved_alike(style, text, more, parts);
}

proof fn lemma_last_piece(separators: Separators, text: Seq<u8>, name: Seq<u8>)
    requires
        text.len() == 0 || separates(separators, text.last()),
        forall|i: int| 0 <= i < name.len() ==> !separates(separators, #[trigger] name[i]),
    ensures
        last_start(separators, text + name) == text.len(),
    decreases name.len(),
{
    let all = text + name;
    if name.len() == 0 {
        assert(all =~= text);
    } else {
        assert(all.last() == name[name.len() - 1]);
        assert(all.drop_last() =~= text + name.drop_last());
        lemma_last_piece(separators, text, name.drop_last());
    }
}

/// What a path reads as: on Unix what its bytes do, and on Windows the same once each
/// surrogate that stands alone has given way to a replacement character.
pub proof fn law_readable(text: Seq<u8>)
    ensures
        readable(PathStyle::Unix, text) == lossy(text),
        readable(PathStyle::Windows, text) == lossy(mended(text)),
        (forall|i: int| 0 <= i < text.len() ==> #[trigger] text[i] != 0xed) ==> mended(text)
            == text,
        text.len() >= 3 && text[0] == 0xed && text[1] >= 0xa0 ==> mended(text) == seq![
            0xefu8,
            0xbf,
            0xbd,
        ] + mended(text.skip(3)),
        text.len() > 0 && !(text.len() >= 3 && text[0] == 0xed && text[1] >= 0xa0) ==> mended(text)
            == seq![text[0]] + mended(text.skip(1)),
    decreases text.len(),
{
    if text.len() > 0 && (forall|i: int| 0 <= i < text.len() ==> #[trigger] text[i] != 0xed) {
        let rest = text.skip(1);
        assert forall|i: int| 0 <= i < rest.len() implies #[trigger] rest[i] != 0xed by {
            assert(rest[i] == text[i + 1]);
        }
        law_readable(rest);
        assert(text[0] != 0xed);
        assert(seq![text[0]] + rest =~= text);
    } else if text.len() == 0 {
        assert(mended(text) =~= text);
    }
}

/// A Windows path that begins with two separators, a dot, a separator and a name has that
/// device, and is absolute.
pub proof fn law_devices(text: Seq<u8>, first: Seq<u8>, name: Seq<u8>, rest: Seq<u8>)
    requires
        text == first + name + rest,
        first.len() == 4 && is_slash(first[0]) && is_slash(first[1]) && first[2] == DOT
            && is_slash(first[3]),
        is_whole(name),
        rest.len() > 0 ==> is_slash(rest[0]),
    ensures
        windows_prefix(text) == Some(PrefixView::Device(name)),
        prefix_len(PrefixView::Device(name)) == 4 + name.len(),
        is_absolute(PathStyle::Windows, text),
{
    let n = name.len() as int;
    let after = text.skip(4);
    assert forall|i: int| 0 <= i < n implies !separates(
        Separators::Either,
        #[trigger] after[i],
    ) by {
        assert(after[i] == name[i]);
    }
    if rest.len() > 0 {
        assert(after[n] == rest[0]);
    }
    lemma_run_is(Separators::Either, after, n);
    assert(after.take(n) =~= name);
    assert(text[2] == DOT);
}

/// Whether a text holds no backslash.
pub open spec fn has_no_backslash(text: Seq<u8>) -> bool {
    forall|i: int| 0 <= i < text.len() ==> #[trigger] text[i] != BACKSLASH
}

/// A verbatim path with `UNC`, a separator, a server, a backslash and a share has that
/// share.
pub proof fn law_verbatim_shares(
    text: Seq<u8>,
    sep: u8,
    server: Seq<u8>,
    share: Seq<u8>,
    rest: Seq<u8>,
)
    requires
        has_verbatim(text),
        is_slash(sep),
        text.skip(4) == seq![0x55u8, 0x4e, 0x43, sep] + server + seq![BACKSLASH] + share + rest,
        has_no_backslash(server),
        has_no_backslash(share),
        rest.len() > 0 ==> rest[0] == BACKSLASH,
    ensures
        windows_prefix(text) == Some(PrefixView::VerbatimShare(server, share)),
        share.len() > 0 ==> prefix_len(PrefixView::VerbatimShare(server, share)) == 9
            + server.len() + share.len(),
        is_absolute(PathStyle::Windows, text),
{
    lemma_verbatim_bytes(text);
    let backslash = Separators::Backslash;
    let n = server.len() as int;
    let m = share.len() as int;
    let body = text.skip(4);
    assert(body[0] == text[4] && body[1] == text[5] && body[2] == text[6] && body[3] == text[7]);
    let after = text.skip(8);
    assert(after =~= server + seq![BACKSLASH] + share + rest) by {
        assert(after =~= body.skip(4));
    }
    assert forall|i: int| 0 <= i < n implies !separates(backslash, #[trigger] after[i]) by {
        assert(after[i] == server[i]);
    }
    assert(after[n] == BACKSLASH);
    lemma_run_is(backslash, after, n);
    assert(after.take(n) =~= server);
    let tail = after.skip(n + 1);
    assert forall|i: int| 0 <= i < m implies !separates(backslash, #[trigger] tail[i]) by {
        assert(tail[i] == share[i]);
    }
    if rest.len() > 0 {
        assert(tail[m] == rest[0]);
    }
    lemma_run_is(backslash, tail, m);
    assert(tail.take(m) =~= share);
}

/// Any other verbatim path has the name that comes first, up to a backslash.
pub proof fn law_verbatim_names(text: Seq<u8>, name: Seq<u8>, rest: Seq<u8>)
    requires
        has_verbatim(text),
        text.skip(4) == name + rest,
        has_no_backslash(name),
        rest.len() > 0 ==> rest[0] == BACKSLASH,
        !(text.len() >= 8 && text.subrange(4, 7) == seq![0x55u8, 0x4e, 0x43] && is_slash(text[7])),
        !(has_drive(text.skip(4)) && (text.len() > 6 ==> is_slash(text[6]))),
    ensures
        windows_prefix(text) == Some(PrefixView::Verbatim(name)),
        prefix_len(PrefixView::Verbatim(name)) == 4 + name.len(),
        is_absolute(PathStyle::Windows, text),
{
    lemma_verbatim_bytes(text);
    let n = name.len() as int;
    let after = text.skip(4);
    assert forall|i: int| 0 <= i < n implies !separates(
        Separators::Backslash,
        #[trigger] after[i],
    ) by {
        assert(after[i] == name[i]);
    }
    if rest.len() > 0 {
        assert(after[n] == rest[0]);
    }
    lemma_run_is(Separators::Backslash, after, n);
    assert(after.take(n) =~= name);
    if crate::path::has_unc(text) {
        assert(text.subrange(4, 7) =~= seq![0x55u8, 0x4e, 0x43]);
    }
    if after.len() > 2 {
        assert(after[2] == text[6]);
    }
}

/// The prefix of a path is written as it is, but for the letter of a drive, which is
/// written in upper case.
pub proof fn law_prefixes_are_kept(text: Seq<u8>)
    ensures
        has_drive(text) ==> written_prefix(PathStyle::Windows, text) == seq![
            letter_of(text),
            COLON,
        ],
        windows_prefix(text) matches Some(prefix) && !(prefix is Drive || prefix is VerbatimDrive)
            ==> written_prefix(PathStyle::Windows, text) == text.take(
            prefix_len(windows_prefix(text)->Some_0) as int,
        ),
        has_verbatim(text) && has_drive(text.skip(4)) && (text.len() > 6 ==> is_slash(text[6]))
            ==> written_prefix(PathStyle::Windows, text) == seq![
            BACKSLASH,
            BACKSLASH,
            QUESTION,
            BACKSLASH,
            letter_of(text.skip(4)),
            COLON,
        ],
        written_prefix(PathStyle::Unix, text).len() == 0,
{
    if has_drive(text) {
        law_drives(text);
    }
    if has_verbatim(text) && has_drive(text.skip(4)) && (text.len() > 6 ==> is_slash(text[6])) {
        law_verbatim_drives(text);
        assert(written_prefix(PathStyle::Windows, text) =~= seq![
            BACKSLASH,
            BACKSLASH,
            QUESTION,
            BACKSLASH,
            letter_of(text.skip(4)),
            COLON,
        ]);
    }
}

/// What a Windows path with a drive is resolved to, piece by piece: the drive's letter is
/// written in upper case and the root as a backslash; a name is joined, a step back takes
/// the last component, and an empty piece or a dot adds nothing.
pub proof fn law_windows_drives_are_resolved(text: Seq<u8>, sep: u8, name: Seq<u8>)
    requires
        has_drive(text),
        text.len() >= 3,
        is_slash(text[2]),
        is_slash(sep),
        is_whole(name),
    ensures
        text.len() == 3 ==> resolved(PathStyle::Windows, text) == seq![
            letter_of(text),
            COLON,
            BACKSLASH,
        ],
        name == Seq::<u8>::empty() || name == seq![DOT] ==> resolved(
            PathStyle::Windows,
            text.push(sep) + name,
        ) == resolved(PathStyle::Windows, text),
        name == seq![DOT, DOT] ==> resolved(PathStyle::Windows, text.push(sep) + name)
            == parent_path(PathStyle::Windows, resolved(PathStyle::Windows, text)),
        name.len() > 0 && name != seq![DOT] && name != seq![DOT, DOT] ==> resolved(
            PathStyle::Windows,
            text.push(sep) + name,
        ) == joined_path(PathStyle::Windows, resolved(PathStyle::Windows, text), name),
{
    let style = PathStyle::Windows;
    let all = text.push(sep) + name;
    let parts = components(style, text);
    assert(all[0] == text[0] && all[1] == text[1]);
    law_prefixes_are_kept(text);
    law_prefixes_are_kept(all);
    law_windows_drive_components(text, sep, name);
    if text.len() == 3 {
        let drive = text.take(2);
        law_windows_drive_components(drive, text[2], Seq::empty());
        assert(drive.push(text[2]) + Seq::<u8>::empty() =~= text);
        let root = seq![
            ComponentView::Prefix(PrefixView::Drive(letter_of(text))),
            ComponentView::Root,
        ];
        assert(piece(Seq::<u8>::empty()) =~= Seq::empty());
        assert(parts =~= root);
        let start = seq![ComponentView::Prefix(PrefixView::Drive(letter_of(text)))];
        assert(root.drop_last() =~= start);
        assert(resolved_parts(style, text, start) == written_prefix(style, text));
        let prefix = seq![letter_of(text), COLON];
        let slash = seq![BACKSLASH];
        assert(slash.len() == 1);
        law_joined_on_windows(prefix, slash);
        assert(has_drive(prefix));
        assert(prefix.take(2) + slash =~= seq![letter_of(text), COLON, BACKSLASH]);
    }
    if piece(name).len() == 0 {
        assert(parts + piece(name) =~= parts);
        lemma_resolved_alike(style, text, all, parts);
    } else {
        let c = piece(name)[0];
        assert(parts + piece(name) =~= parts.push(c));
        law_resolving_goes_on(style, text, all, c);
    }
    if name == seq![DOT, DOT] {
        assert(name.len() == 2);
    }
    if name == seq![DOT] {
        assert(name.len() == 1);
    }
}

/// What a Windows path begins with: its prefix, then a root where a separator follows or
/// where the prefix is that of a share or a device.
pub proof fn law_windows_roots(text: Seq<u8>, prefix: PrefixView)
    requires
        windows_prefix(text) == Some(prefix),
        text.len() == prefix_len(prefix) || text.len() == prefix_len(prefix) + 1 && is_slash(
            text[prefix_len(prefix) as int],
        ),
    ensures
        ({
            let rooted = text.len() > prefix_len(prefix) || prefix is Share || prefix is Device;
            &&& rooted ==> components(PathStyle::Windows, text) == seq![
                ComponentView::Prefix(prefix),
                ComponentView::Root,
            ]
            &&& !rooted ==> components(PathStyle::Windows, text) == seq![
                ComponentView::Prefix(prefix),
            ]
        }),
{
    let n = prefix_len(prefix) as int;
    let style = PathStyle::Windows;
    let body = text.skip(n);
    let separators = separators_of(style, Some(prefix));
    let none = Seq::<u8>::empty();
    lemma_run_is(separators, none, 0);
    assert(none.take(0) =~= none);
    assert(names(separators, none) =~= Seq::empty());
    if text.len() > n {
        assert(body[0] == text[n]);
        assert(body.skip(1) =~= none);
        assert(components(style, text) =~= seq![
            ComponentView::Prefix(prefix),
            ComponentView::Root,
        ]);
    } else {
        assert(body =~= none);
        if prefix is Share || prefix is Device {
            assert(components(style, text) =~= seq![
                ComponentView::Prefix(prefix),
                ComponentView::Root,
            ]);
        } else {
            assert(components(style, text) =~= seq![ComponentView::Prefix(prefix)]);
        }
    }
}

/// The components of a name by itself.
proof fn lemma_single_name(name: Seq<u8>)
    requires
        is_whole(name),
        !has_drive(name),
        piece(name) == seq![ComponentView::Name(name)],
    ensures
        components(PathStyle::Windows, name) == piece(name),
        windows_prefix(name) is None,
        name.len() > 0,
{
    assert(piece(name).len() == 1 && piece(name)[0] == ComponentView::Name(name));
    if name.len() == 0 {
        assert(name =~= Seq::empty());
    }
    assert(!is_slash(name[0]));
    law_paths_without_prefix(name);
    lemma_names_grow(Separators::Either, Seq::empty(), SLASH, name);
    if crate::path::starts_current(PathStyle::Windows, name) {
        if name.len() == 1 {
            assert(name =~= seq![DOT]);
        } else {
            assert(is_slash(name[1]));
        }
    }
    assert(components(PathStyle::Windows, name) =~= names(Separators::Either, name));
    assert(single(Separators::Either, name) =~= piece(name));
}

/// To join a name to a verbatim path that is written as its components are is to add it,
/// after a backslash unless the root comes right before.
pub proof fn law_names_are_joined_to_verbatim_paths(directory: Seq<u8>, name: Seq<u8>)
    requires
        has_verbatim(directory),
        is_whole(name),
        !has_drive(name),
        piece(name) == seq![ComponentView::Name(name)],
        ({
            let start = prefix_len(windows_prefix(directory)->Some_0) as int;
            directory == directory.take(start) + path_text(
                PathStyle::Windows,
                components(PathStyle::Windows, directory),
            ).skip(start)
        }),
    ensures
        joined_path(PathStyle::Windows, directory, name) == if components(
            PathStyle::Windows,
            directory,
        ).last() is Root {
            directory + name
        } else {
            directory.push(BACKSLASH) + name
        },
{
    let style = PathStyle::Windows;
    lemma_verbatim_bytes(directory);
    lemma_prefix_fits(directory);
    lemma_single_name(name);
    let parts = components(style, directory);
    let prefix = windows_prefix(directory)->Some_0;
    let start = prefix_len(prefix) as int;
    let c = ComponentView::Name(name);
    assert(parts[0] == ComponentView::Prefix(prefix));
    assert(seq![c].drop_last() =~= Seq::empty());
    reveal_with_fuel(joined, 2);
    assert(joined(parts, seq![c]) == parts.push(c));
    assert(parts.push(c).drop_last() =~= parts);
    let text = path_text(style, parts);
    let longer = path_text(style, parts.push(c));
    lemma_text_covers_prefix(parts);
    assert(parts.push(c)[parts.len() - 1] == parts.last());
    if parts.last() is Root {
        assert(longer == text + name);
        assert(longer.skip(start) =~= text.skip(start) + name);
        assert(directory.take(start) + (text.skip(start) + name) =~= directory + name);
    } else {
        assert(longer == text.push(BACKSLASH) + name) by {
            if parts.len() > 1 {
                lemma_later_parts(directory);
            }
        }
        assert(longer.skip(start) =~= text.skip(start).push(BACKSLASH) + name);
        assert(directory.take(start) + (text.skip(start).push(BACKSLASH) + name) =~= directory.push(
            BACKSLASH,
        ) + name);
    }
}

proof fn lemma_later_parts(text: Seq<u8>)
    requires
        has_verbatim(text),
    ensures
        forall|i: int|
            1 <= i < components(PathStyle::Windows, text).len() ==> !(#[trigger] components(
                PathStyle::Windows,
                text,
            )[i] is Prefix),
{
    lemma_verbatim_bytes(text);
    let body = body_of(PathStyle::Windows, text);
    lemma_no_prefix(Separators::Backslash, body);
    lemma_no_prefix(Separators::Backslash, body.skip(1));
}

/// The text of a path covers that of its prefix.
proof fn lemma_text_covers_prefix(parts: Seq<ComponentView>)
    requires
        parts.len() > 0,
        parts[0] is Prefix,
    ensures
        path_text(PathStyle::Windows, parts).len() >= prefix_len(parts[0]->Prefix_0),
    decreases parts.len(),
{
    if parts.len() > 1 {
        lemma_text_covers_prefix(parts.drop_last());
    } else {
        assert(path_text(PathStyle::Windows, parts.drop_last()).len() == 0);
    }
}

/// Whether a byte separates the names that follow a prefix: a backslash does, and a slash
/// does unless the prefix is verbatim.
pub open spec fn parts_names(prefix: PrefixView, b: u8) -> bool {
    b == BACKSLASH || b == SLASH && !(prefix is Verbatim || prefix is VerbatimShare || prefix
        is VerbatimDrive)
}

/// Whether a text is a name below a prefix by itself: it is not empty and holds no
/// separator, and is no dot unless the prefix is verbatim.
pub open spec fn is_part(prefix: PrefixView, text: Seq<u8>) -> bool {
    &&& text.len() > 0
    &&& forall|i: int| 0 <= i < text.len() ==> !parts_names(prefix, #[trigger] text[i])
    &&& parts_names(prefix, SLASH) ==> text != seq![DOT]
}

proof fn lemma_part(prefix: PrefixView, text: Seq<u8>)
    requires
        is_part(prefix, text),
    ensures
        single(separators_of(PathStyle::Windows, Some(prefix)), text).len() > 0,
        forall|i: int|
            0 <= i < text.len() ==> !separates(
                separators_of(PathStyle::Windows, Some(prefix)),
                #[trigger] text[i],
            ),
{
    assert forall|i: int| 0 <= i < text.len() implies !separates(
        separators_of(PathStyle::Windows, Some(prefix)),
        #[trigger] text[i],
    ) by {
        assert(!parts_names(prefix, text[i]));
    }
}

/// Below any prefix with a root, taking the last component from one name leaves the root,
/// and from more it leaves those before the last. `before` is empty or ends with a
/// separator.
pub proof fn law_windows_parents(
    prefix: PrefixView,
    base: Seq<u8>,
    before: Seq<u8>,
    last: Seq<u8>,
    sep: u8,
    name: Seq<u8>,
)
    requires
        base.len() == prefix_len(prefix) + 1,
        is_slash(base.last()),
        before.len() == 0 || parts_names(prefix, before.last()),
        is_part(prefix, last),
        parts_names(prefix, sep),
        is_part(prefix, name),
        windows_prefix(base + name) == Some(prefix),
        windows_prefix(base + ((before + last).push(sep) + name)) == Some(prefix),
    ensures
        parent_path(PathStyle::Windows, base + name) == base,
        parent_path(PathStyle::Windows, base + ((before + last).push(sep) + name)) == base + (before
            + last),
{
    let style = PathStyle::Windows;
    let separators = separators_of(style, Some(prefix));
    let n = prefix_len(prefix) as int;
    lemma_part(prefix, last);
    lemma_part(prefix, name);

    let one = base + name;
    assert(one.skip(n)[0] == base.last());
    assert(names_start(style, one) == n + 1);
    assert(one.skip(n + 1) =~= name);
    assert(one.take(n + 1) =~= base);
    lemma_last_piece(separators, Seq::empty(), name);
    assert(Seq::<u8>::empty() + name =~= name);
    assert(name.skip(0) =~= name);
    assert(trimmed(separators, name) == name);
    assert(without_piece(separators, name) =~= Seq::empty());
    assert(trimmed(separators, Seq::empty()) =~= Seq::empty());
    assert(base + Seq::<u8>::empty() =~= base);

    let outer = before + last;
    let body = outer.push(sep) + name;
    let all = base + body;
    assert(all.skip(n)[0] == base.last());
    assert(names_start(style, all) == n + 1);
    assert(all.skip(n + 1) =~= body);
    assert(all.take(n + 1) =~= base);
    lemma_last_piece(separators, outer.push(sep), name);
    lemma_last_piece(separators, before, last);
    assert(body.skip(outer.len() as int + 1) =~= name);
    assert(outer.skip(before.len() as int) =~= last);
    assert(trimmed(separators, body) == body);
    assert(without_piece(separators, body) =~= outer);
    assert(trimmed(separators, outer) == outer);
}

/// What a component does that is joined to a verbatim path: a name is added, a step back
/// takes a name and nothing else, a dot does nothing, and a root leaves the prefix alone.
pub proof fn law_verbatim_paths_are_extended(path: Seq<ComponentView>, name: Seq<u8>)
    requires
        path.len() > 0,
        path[0] matches ComponentView::Prefix(prefix) && !parts_names(prefix, SLASH),
    ensures
        extended(path, ComponentView::Name(name)) == path.push(ComponentView::Name(name)),
        extended(path, ComponentView::Current) == path,
        extended(path, ComponentView::Parent) == if path.last() is Name {
            path.drop_last()
        } else {
            path
        },
        extended(path, ComponentView::Root) == seq![path[0], ComponentView::Root],
{
    assert(extended(path, ComponentView::Root) =~= seq![path[0], ComponentView::Root]);
}

} // verus!
