//! What holds of normalized paths and of roots that contain a directory.
use crate::path::{
    body_of, component_text, components, drive, head, is_absolute, joined_path, last_start, names,
    names_start, parent_path, path_text, prefix_len, readable, resolved, resolved_parts, run,
    separates, single, starts_current, starts_double, starts_verbatim, starts_with, tail, trimmed,
    windows_prefix, without_piece, written_prefix, ComponentView, PathStyle, Separators, BACKSLASH,
    DOT, QUESTION, SLASH,
};
use crate::routing::{
    comparable, depth, depth_at, has_lower_unc, is_ambiguous, is_best, is_first_best, is_matched,
    is_selected, is_selection, normal, starts_plain_verbatim, Location, LocationView,
};
use crate::text::lowered;
use vstd::prelude::*;
use vstd::utf8::encode_utf8;

verus! {

/// Whether a name can stand in a normalized Unix path.
pub open spec fn is_clean_name(name: Seq<u8>) -> bool {
    &&& name.len() > 0
    &&& name != seq![DOT]
    &&& name != seq![DOT, DOT]
    &&& forall|i: int| 0 <= i < name.len() ==> #[trigger] name[i] != SLASH
}

/// Whether a Unix path is the root followed by names, with no detours.
pub open spec fn is_clean(path: Seq<ComponentView>) -> bool {
    &&& path.len() > 0
    &&& path[0] is Root
    &&& forall|i: int|
        1 <= i < path.len() ==> (#[trigger] path[i] matches ComponentView::Name(name)
            && is_clean_name(name))
}

/// What comes before the first separator holds none, and a separator follows it.
pub proof fn lemma_run(separators: Separators, text: Seq<u8>)
    ensures
        run(separators, text) <= text.len(),
        run(separators, text) < text.len() ==> separates(
            separators,
            text[run(separators, text) as int],
        ),
        forall|i: int|
            0 <= i < run(separators, text) ==> !separates(separators, #[trigger] text[i]),
    decreases text.len(),
{
    if text.len() > 0 && !separates(separators, text[0]) {
        let rest = text.drop_first();
        lemma_run(separators, rest);
        assert forall|i: int| 0 <= i < run(separators, text) implies !separates(
            separators,
            #[trigger] text[i],
        ) by {
            if i > 0 {
                assert(rest[i - 1] == text[i]);
            }
        }
    }
}

/// Where the first separator is, is where the run ends.
pub proof fn lemma_run_is(separators: Separators, text: Seq<u8>, n: int)
    requires
        0 <= n <= text.len(),
        n < text.len() ==> separates(separators, text[n]),
        forall|i: int| 0 <= i < n ==> !separates(separators, #[trigger] text[i]),
    ensures
        run(separators, text) == n,
    decreases text.len(),
{
    if n > 0 {
        let rest = text.drop_first();
        assert(!separates(separators, text[0]));
        assert forall|i: int| 0 <= i < n - 1 implies !separates(
            separators,
            #[trigger] rest[i],
        ) by {
            assert(rest[i] == text[i + 1]);
        }
        lemma_run_is(separators, rest, n - 1);
    }
}

/// A clean name is one component.
proof fn lemma_clean_name(name: Seq<u8>)
    requires
        is_clean_name(name),
    ensures
        names(Separators::Slash, name) == seq![ComponentView::Name(name)],
        components(PathStyle::Unix, name) == seq![ComponentView::Name(name)],
{
    lemma_run_is(Separators::Slash, name, name.len() as int);
    assert(name.take(name.len() as int) =~= name);
    if starts_current(PathStyle::Unix, name) {
        assert(name =~= seq![DOT]);
    }
    assert(name[0] != SLASH);
    assert(components(PathStyle::Unix, name) =~= names(Separators::Slash, name));
}

/// The names of a Unix path are clean ones and steps back.
proof fn lemma_names_clean(text: Seq<u8>)
    ensures
        forall|i: int|
            0 <= i < names(Separators::Slash, text).len() ==> match (
            #[trigger] names(Separators::Slash, text)[i]) {
                ComponentView::Parent => true,
                ComponentView::Name(name) => is_clean_name(name),
                _ => false,
            },
    decreases text.len(),
{
    let separators = Separators::Slash;
    lemma_run(separators, text);
    let piece = head(separators, text);
    assert(forall|i: int| 0 <= i < piece.len() ==> #[trigger] piece[i] == text[i]);
    let first = single(separators, piece);
    if run(separators, text) < text.len() {
        let rest = tail(separators, text);
        lemma_names_clean(rest);
        let all = names(separators, text);
        assert forall|i: int| 0 <= i < all.len() implies match (#[trigger] all[i]) {
            ComponentView::Parent => true,
            ComponentView::Name(name) => is_clean_name(name),
            _ => false,
        } by {
            if i >= first.len() {
                assert(all[i] == names(separators, rest)[i - first.len()]);
            }
        }
    }
}

/// A name written after a separator is one more component.
proof fn lemma_names_push(text: Seq<u8>, name: Seq<u8>)
    requires
        is_clean_name(name),
    ensures
        names(Separators::Slash, text.push(SLASH) + name) == names(Separators::Slash, text).push(
            ComponentView::Name(name),
        ),
    decreases text.len(),
{
    let separators = Separators::Slash;
    let all = text.push(SLASH) + name;
    let n = run(separators, text) as int;
    lemma_run(separators, text);
    assert forall|i: int| 0 <= i < n implies !separates(separators, #[trigger] all[i]) by {
        assert(all[i] == text[i]);
    }
    if n < text.len() {
        assert(all[n] == text[n]);
        lemma_run_is(separators, all, n);
        assert(head(separators, all) =~= head(separators, text));
        let rest = tail(separators, text);
        assert(tail(separators, all) =~= rest.push(SLASH) + name);
        lemma_names_push(rest, name);
        assert(names(separators, all) =~= names(separators, text).push(
            ComponentView::Name(name),
        ));
    } else {
        assert(all[n] == SLASH);
        lemma_run_is(separators, all, n);
        assert(head(separators, all) =~= text);
        assert(head(separators, text) =~= text);
        assert(tail(separators, all) =~= name);
        lemma_clean_name(name);
        assert(names(separators, all) =~= names(separators, text).push(
            ComponentView::Name(name),
        ));
    }
}

/// The text of a clean path: it begins with a separator, and its components are those
/// of the path.
proof fn lemma_clean_text(path: Seq<ComponentView>)
    requires
        is_clean(path),
    ensures
        path_text(PathStyle::Unix, path).len() > 0,
        path_text(PathStyle::Unix, path)[0] == SLASH,
        path.len() > 1 ==> path_text(PathStyle::Unix, path).len() > 1,
        seq![ComponentView::Root] + names(
            Separators::Slash,
            path_text(PathStyle::Unix, path).skip(1),
        ) == path,
    decreases path.len(),
{
    let style = PathStyle::Unix;
    let text = path_text(style, path);
    let before = path.drop_last();
    reveal_with_fuel(path_text, 3);
    if path.len() == 1 {
        assert(before =~= Seq::empty());
        assert(text =~= seq![SLASH]);
        assert(text.skip(1) =~= Seq::empty());
        assert(names(Separators::Slash, text.skip(1)) =~= Seq::empty());
        assert(seq![ComponentView::Root] + names(Separators::Slash, text.skip(1)) =~= path);
    } else {
        let name = path.last()->Name_0;
        assert(path[path.len() - 1] matches ComponentView::Name(n) && is_clean_name(n));
        assert(forall|i: int| 0 <= i < before.len() ==> #[trigger] before[i] == path[i]);
        lemma_clean_text(before);
        let prior = path_text(style, before);
        if path.len() == 2 {
            assert(before.drop_last() =~= Seq::empty());
            assert(prior =~= seq![SLASH]);
            assert(text =~= prior + name);
            assert(text.skip(1) =~= name);
            lemma_clean_name(name);
            assert(seq![ComponentView::Root] + names(Separators::Slash, name) =~= path);
        } else {
            assert(path[path.len() - 2] is Name);
            assert(text == prior.push(SLASH) + name);
            assert(text.skip(1) =~= prior.skip(1).push(SLASH) + name);
            lemma_names_push(prior.skip(1), name);
            let own = names(Separators::Slash, prior.skip(1));
            assert(seq![ComponentView::Root] + own.push(path.last()) =~= (
            seq![ComponentView::Root] + own).push(path.last()));
            assert(before.push(path.last()) =~= path);
        }
    }
}

/// The components that a Unix path is resolved to.
spec fn cleaned(path: Seq<ComponentView>) -> Seq<ComponentView>
    decreases path.len(),
{
    if path.len() == 0 {
        Seq::empty()
    } else {
        let before = cleaned(path.drop_last());
        match path.last() {
            ComponentView::Root => seq![ComponentView::Root],
            ComponentView::Parent => if before.len() > 0 && before.last() is Name {
                before.drop_last()
            } else {
                before
            },
            ComponentView::Name(_) => before.push(path.last()),
            _ => before,
        }
    }
}

/// Where a name comes last, it begins where the last piece does.
proof fn lemma_last_start(text: Seq<u8>, name: Seq<u8>)
    requires
        text.len() == 0 || text.last() == SLASH,
        forall|i: int| 0 <= i < name.len() ==> #[trigger] name[i] != SLASH,
    ensures
        last_start(Separators::Slash, text + name) == text.len(),
    decreases name.len(),
{
    let all = text + name;
    if name.len() == 0 {
        assert(all =~= text);
    } else {
        assert(all.last() == name[name.len() - 1]);
        assert(all.drop_last() =~= text + name.drop_last());
        lemma_last_start(text, name.drop_last());
    }
}

/// A text that ends with a clean name is trimmed, and is left without the name.
proof fn lemma_last_name(text: Seq<u8>, name: Seq<u8>)
    requires
        text.len() == 0 || text.last() == SLASH,
        is_clean_name(name),
    ensures
        trimmed(Separators::Slash, text + name) == text + name,
        without_piece(Separators::Slash, text + name) == if text.len() == 0 {
            text
        } else {
            text.drop_last()
        },
{
    lemma_last_start(text, name);
    let all = text + name;
    assert(all.skip(text.len() as int) =~= name);
    if text.len() > 0 {
        assert(all.take(text.len() - 1) =~= text.drop_last());
    } else {
        assert(text =~= Seq::empty());
    }
}

/// How the text of a clean path ends.
proof fn lemma_clean_end(path: Seq<ComponentView>)
    requires
        is_clean(path),
    ensures
        ({
            let text = path_text(PathStyle::Unix, path);
            &&& path.len() == 1 ==> text == seq![SLASH]
            &&& path.len() > 1 ==> {
                let before = path_text(PathStyle::Unix, path.drop_last());
                let name = path.last()->Name_0;
                &&& is_clean_name(name)
                &&& path.len() == 2 ==> before == seq![SLASH] && text == before + name
                &&& path.len() > 2 ==> text == before.push(SLASH) + name
                &&& text.last() != SLASH
            }
        }),
{
    reveal_with_fuel(path_text, 3);
    let text = path_text(PathStyle::Unix, path);
    let before = path.drop_last();
    if path.len() == 1 {
        assert(before =~= Seq::empty());
        assert(text =~= seq![SLASH]);
    } else {
        assert(path[path.len() - 1] matches ComponentView::Name(n) && is_clean_name(n));
        let name = path.last()->Name_0;
        if path.len() == 2 {
            assert(before.drop_last() =~= Seq::empty());
            assert(path_text(PathStyle::Unix, before) =~= seq![SLASH]);
        } else {
            assert(path[path.len() - 2] is Name);
        }
        assert(text.last() == name[name.len() - 1]);
    }
}

/// To take the last component from the text of a clean path is to take its last name.
proof fn lemma_clean_parent(path: Seq<ComponentView>)
    requires
        is_clean(path),
    ensures
        parent_path(PathStyle::Unix, path_text(PathStyle::Unix, path)) == if path.len() > 1 {
            path_text(PathStyle::Unix, path.drop_last())
        } else {
            path_text(PathStyle::Unix, path)
        },
{
    let style = PathStyle::Unix;
    let text = path_text(style, path);
    lemma_clean_text(path);
    lemma_clean_end(path);
    let body = text.skip(1);
    assert(names_start(style, text) == 1);
    if path.len() == 1 {
        assert(body =~= Seq::empty());
    } else {
        let before = path.drop_last();
        let prior = path_text(style, before);
        let name = path.last()->Name_0;
        assert(forall|i: int| 0 <= i < before.len() ==> #[trigger] before[i] == path[i]);
        lemma_clean_text(before);
        lemma_clean_end(before);
        if path.len() == 2 {
            assert(body =~= Seq::<u8>::empty() + name);
            lemma_last_name(Seq::empty(), name);
            assert(text.take(1) + Seq::<u8>::empty() =~= prior);
        } else {
            let own = prior.skip(1);
            assert(body =~= own.push(SLASH) + name);
            lemma_last_name(own.push(SLASH), name);
            assert(own.push(SLASH).drop_last() =~= own);
            let last = before.last()->Name_0;
            let earlier = path_text(style, before.drop_last());
            if before.len() == 2 {
                assert(own =~= Seq::<u8>::empty() + last);
                lemma_last_name(Seq::empty(), last);
            } else {
                lemma_clean_text(before.drop_last());
                assert(own =~= earlier.skip(1).push(SLASH) + last);
                lemma_last_name(earlier.skip(1).push(SLASH), last);
            }
            assert(text.take(1) + own =~= prior);
        }
    }
}

/// To join a clean name to the text of a clean path is to add it.
proof fn lemma_clean_join(path: Seq<ComponentView>, name: Seq<u8>)
    requires
        is_clean(path),
        is_clean_name(name),
    ensures
        is_clean(path.push(ComponentView::Name(name))),
        joined_path(PathStyle::Unix, path_text(PathStyle::Unix, path), name) == path_text(
            PathStyle::Unix,
            path.push(ComponentView::Name(name)),
        ),
{
    let longer = path.push(ComponentView::Name(name));
    assert(forall|i: int| 0 <= i < path.len() ==> #[trigger] longer[i] == path[i]);
    assert(longer.drop_last() =~= path);
    lemma_clean_text(path);
    lemma_clean_end(path);
    lemma_clean_end(longer);
    assert(name[0] != SLASH);
}

/// What an absolute Unix path is resolved to is clean.
proof fn lemma_resolved_clean(whole: Seq<u8>, path: Seq<ComponentView>)
    requires
        path.len() > 0,
        path[0] is Root,
        forall|i: int|
            1 <= i < path.len() ==> match (#[trigger] path[i]) {
                ComponentView::Parent => true,
                ComponentView::Name(name) => is_clean_name(name),
                _ => false,
            },
    ensures
        is_clean(cleaned(path)),
        resolved_parts(PathStyle::Unix, whole, path) == path_text(PathStyle::Unix, cleaned(path)),
    decreases path.len(),
{
    let style = PathStyle::Unix;
    let before = path.drop_last();
    if path.len() == 1 {
        assert(cleaned(path) =~= seq![ComponentView::Root]);
        lemma_clean_end(cleaned(path));
        let root = seq![SLASH];
        assert(root[0] == SLASH);
        assert(resolved_parts(style, whole, path) == joined_path(
            style,
            resolved_parts(style, whole, before),
            root,
        ));
    } else {
        assert(forall|i: int| 1 <= i < before.len() ==> #[trigger] before[i] == path[i]);
        lemma_resolved_clean(whole, before);
        let found = cleaned(before);
        assert(path[path.len() - 1] == path.last());
        match path.last() {
            ComponentView::Parent => {
                lemma_clean_parent(found);
                if found.len() > 1 {
                    assert(found[found.len() - 1] is Name);
                    let left = found.drop_last();
                    assert(forall|i: int| 0 <= i < left.len() ==> #[trigger] left[i] == found[i]);
                }
            },
            ComponentView::Name(name) => lemma_clean_join(found, name),
            _ => {},
        }
    }
}

/// A clean path is resolved already.
proof fn lemma_clean_is_resolved(path: Seq<ComponentView>)
    requires
        is_clean(path),
    ensures
        cleaned(path) == path,
    decreases path.len(),
{
    let before = path.drop_last();
    if path.len() == 1 {
        assert(cleaned(path) =~= path);
    } else {
        assert(forall|i: int| 0 <= i < before.len() ==> #[trigger] before[i] == path[i]);
        lemma_clean_is_resolved(before);
        assert(path[path.len() - 1] is Name);
        assert(before.push(path.last()) =~= path);
    }
}

/// The text of a clean path reads as that path again.
proof fn lemma_clean_round_trip(path: Seq<ComponentView>)
    requires
        is_clean(path),
    ensures
        components(PathStyle::Unix, path_text(PathStyle::Unix, path)) == path,
{
    lemma_clean_text(path);
}

/// The components of an absolute Unix path.
proof fn lemma_absolute_components(text: Seq<u8>)
    requires
        is_absolute(PathStyle::Unix, text),
    ensures
        is_clean(cleaned(components(PathStyle::Unix, text))),
        resolved(PathStyle::Unix, text) == path_text(
            PathStyle::Unix,
            cleaned(components(PathStyle::Unix, text)),
        ),
{
    let path = components(PathStyle::Unix, text);
    let own = names(Separators::Slash, text.skip(1));
    lemma_names_clean(text.skip(1));
    assert(path == seq![ComponentView::Root] + own);
    assert forall|i: int| 1 <= i < path.len() implies match (#[trigger] path[i]) {
        ComponentView::Parent => true,
        ComponentView::Name(name) => is_clean_name(name),
        _ => false,
    } by {
        assert(path[i] == own[i - 1]);
    }
    lemma_resolved_clean(text, path);
}

/// What a Unix path is normalized to is absolute and has no empty names, no `.` and no
/// `..`.
pub proof fn law_normal_paths_are_clean(path: Seq<u8>)
    requires
        is_absolute(PathStyle::Unix, path),
    ensures
        normal(PathStyle::Unix, LocationView { path, resolved: None }) matches Some(text) && {
            &&& is_absolute(PathStyle::Unix, text)
            &&& is_clean(components(PathStyle::Unix, text))
        },
{
    lemma_absolute_components(path);
    let clean = cleaned(components(PathStyle::Unix, path));
    lemma_clean_text(clean);
    lemma_clean_round_trip(clean);
}

/// Normalizing a Unix path again changes nothing.
pub proof fn law_normalize_is_idempotent(path: Seq<u8>, text: Seq<u8>)
    requires
        normal(PathStyle::Unix, LocationView { path, resolved: None }) == Some(text),
    ensures
        normal(PathStyle::Unix, LocationView { path: text, resolved: None }) == Some(text),
{
    law_normal_paths_are_clean(path);
    lemma_absolute_components(path);
    let clean = cleaned(components(PathStyle::Unix, path));
    lemma_clean_round_trip(clean);
    lemma_clean_is_resolved(clean);
    lemma_absolute_components(text);
}

/// A path below another begins with the other's text, and a separator follows there:
/// a root does not contain a directory whose name merely begins like its own.
pub proof fn law_component_boundaries(inner: Seq<ComponentView>, outer: Seq<ComponentView>)
    requires
        is_clean(inner),
        is_clean(outer),
        outer.len() > 1,
        starts_with(inner, outer),
    ensures
        ({
            let long = path_text(PathStyle::Unix, inner);
            let short = path_text(PathStyle::Unix, outer);
            long == short || {
                &&& long.len() > short.len()
                &&& long.take(short.len() as int) == short
                &&& long[short.len() as int] == SLASH
            }
        }),
    decreases inner.len(),
{
    if inner.len() == outer.len() {
        assert(inner.take(outer.len() as int) =~= inner);
    } else {
        let before = inner.drop_last();
        assert(forall|i: int| 0 <= i < before.len() ==> #[trigger] before[i] == inner[i]);
        assert(before.take(outer.len() as int) =~= inner.take(outer.len() as int));
        law_component_boundaries(before, outer);
        let prior = path_text(PathStyle::Unix, before);
        let short = path_text(PathStyle::Unix, outer);
        let long = path_text(PathStyle::Unix, inner);
        assert(inner[inner.len() - 2] is Name);
        assert(inner[inner.len() - 1] is Name);
        assert(long == prior.push(SLASH) + component_text(PathStyle::Unix, inner.last()));
        assert(long.take(short.len() as int) =~= prior.take(short.len() as int));
        assert(prior.take(prior.len() as int) =~= prior);
    }
}

/// A directory on Unix lies in itself.
pub proof fn law_a_root_contains_itself(path: Seq<u8>)
    requires
        is_absolute(PathStyle::Unix, path),
    ensures
        ({
            let location = LocationView { path, resolved: None };
            depth(PathStyle::Unix, location, location) > 0
        }),
{
    law_normal_paths_are_clean(path);
    let text = normal(PathStyle::Unix, LocationView { path, resolved: None })->Some_0;
    let own = components(PathStyle::Unix, text);
    assert(own.take(own.len() as int) =~= own);
}

/// Two roots that contain the same directory are equally specific only where they are
/// the same place: otherwise one of them lies in the other and wins.
pub proof fn law_ties_are_duplicates(
    style: PathStyle,
    directory: LocationView,
    a: LocationView,
    b: LocationView,
)
    requires
        depth(style, directory, a) > 0,
        depth(style, directory, b) > 0,
    ensures
        ({
            let left = components(style, normal(style, a)->Some_0);
            let right = components(style, normal(style, b)->Some_0);
            &&& depth(style, directory, a) == depth(style, directory, b) ==> left == right
            &&& depth(style, directory, a) < depth(style, directory, b) ==> starts_with(
                right,
                left,
            )
        }),
{
    let inner = components(style, normal(style, directory)->Some_0);
    let left = components(style, normal(style, a)->Some_0);
    let right = components(style, normal(style, b)->Some_0);
    if left.len() < right.len() {
        assert(right.take(left.len() as int) =~= left) by {
            assert(forall|i: int|
                0 <= i < left.len() ==> left[i] == inner[i] && #[trigger] right[i] == inner[i])
                by {
                assert forall|i: int| 0 <= i < left.len() implies left[i] == inner[i]
                    && #[trigger] right[i] == inner[i] by {
                    assert(inner.take(left.len() as int)[i] == left[i]);
                    assert(inner.take(right.len() as int)[i] == right[i]);
                }
            }
        }
    }
}

/// Whether two texts differ in nothing but which separators they use.
pub open spec fn same_but_separators(a: Seq<u8>, b: Seq<u8>) -> bool {
    &&& a.len() == b.len()
    &&& forall|i: int|
        0 <= i < a.len() ==> #[trigger] a[i] == b[i] || separates(Separators::Either, a[i])
            && separates(Separators::Either, b[i])
}

proof fn lemma_same_run(a: Seq<u8>, b: Seq<u8>)
    requires
        same_but_separators(a, b),
    ensures
        run(Separators::Either, a) == run(Separators::Either, b),
        head(Separators::Either, a) == head(Separators::Either, b),
        same_but_separators(tail(Separators::Either, a), tail(Separators::Either, b)),
{
    let separators = Separators::Either;
    let n = run(separators, a) as int;
    lemma_run(separators, a);
    assert forall|i: int| 0 <= i < n implies !separates(separators, #[trigger] b[i]) by {
        assert(a[i] == b[i]);
    }
    if n < a.len() {
        assert(separates(separators, a[n]));
        assert(a[n] == b[n] || separates(separators, b[n]));
    }
    lemma_run_is(separators, b, n);
    assert(head(separators, a) =~= head(separators, b)) by {
        assert(forall|i: int| 0 <= i < n ==> a[i] == b[i]) by {
            assert forall|i: int| 0 <= i < n implies a[i] == b[i] by {
                assert(!separates(separators, a[i]));
            }
        }
    }
    if n < a.len() {
        let x = tail(separators, a);
        let y = tail(separators, b);
        assert forall|i: int| 0 <= i < x.len() implies #[trigger] x[i] == y[i] || separates(
            separators,
            x[i],
        ) && separates(separators, y[i]) by {
            assert(x[i] == a[n + 1 + i] && y[i] == b[n + 1 + i]);
        }
    }
}

proof fn lemma_same_skip(a: Seq<u8>, b: Seq<u8>, n: int)
    requires
        same_but_separators(a, b),
        0 <= n <= a.len(),
    ensures
        same_but_separators(a.skip(n), b.skip(n)),
{
    let x = a.skip(n);
    let y = b.skip(n);
    assert forall|i: int| 0 <= i < x.len() implies #[trigger] x[i] == y[i] || separates(
        Separators::Either,
        x[i],
    ) && separates(Separators::Either, y[i]) by {
        assert(x[i] == a[n + i] && y[i] == b[n + i]);
    }
}

proof fn lemma_same_names(a: Seq<u8>, b: Seq<u8>)
    requires
        same_but_separators(a, b),
    ensures
        names(Separators::Either, a) == names(Separators::Either, b),
    decreases a.len(),
{
    lemma_same_run(a, b);
    if run(Separators::Either, a) < a.len() {
        lemma_same_names(tail(Separators::Either, a), tail(Separators::Either, b));
    }
}

/// Components are resolved alike below prefixes that are written alike.
pub proof fn lemma_resolved_alike(
    style: PathStyle,
    a: Seq<u8>,
    b: Seq<u8>,
    parts: Seq<ComponentView>,
)
    requires
        written_prefix(style, a) == written_prefix(style, b),
    ensures
        resolved_parts(style, a, parts) == resolved_parts(style, b, parts),
    decreases parts.len(),
{
    if parts.len() > 0 {
        lemma_resolved_alike(style, a, b, parts.drop_last());
    }
}

/// Which separators a Windows path uses does not matter to its components, unless it is
/// verbatim. It matters nowhere but in the prefix, which stays as it is written: a path
/// that begins with a drive, or has no prefix, is normalized to the same text.
pub proof fn law_windows_separators(a: Seq<u8>, b: Seq<u8>)
    requires
        same_but_separators(a, b),
        !starts_verbatim(a),
        !starts_verbatim(b),
    ensures
        components(PathStyle::Windows, a) == components(PathStyle::Windows, b),
        is_absolute(PathStyle::Windows, a) == is_absolute(PathStyle::Windows, b),
        windows_prefix(a) is None || windows_prefix(a)->Some_0 is Drive ==> normal(
            PathStyle::Windows,
            LocationView { path: a, resolved: None },
        ) == normal(PathStyle::Windows, LocationView { path: b, resolved: None }),
{
    let style = PathStyle::Windows;
    if a.len() >= 2 {
        assert(a[0] == b[0] || separates(Separators::Either, a[0]));
        assert(a[1] == b[1] || separates(Separators::Either, a[1]));
        lemma_same_skip(a, b, 2);
        lemma_same_run(a.skip(2), b.skip(2));
        lemma_same_run(
            tail(Separators::Either, a.skip(2)),
            tail(Separators::Either, b.skip(2)),
        );
    }
    if a.len() >= 4 {
        assert(a[2] == b[2] || separates(Separators::Either, a[2]));
        assert(a[3] == b[3] || separates(Separators::Either, a[3]));
        lemma_same_skip(a, b, 4);
        lemma_same_run(a.skip(4), b.skip(4));
    }
    assert(windows_prefix(a) == windows_prefix(b));
    lemma_prefix_fits(a);
    let taken = match windows_prefix(a) {
        Some(prefix) => prefix_len(prefix) as int,
        None => 0,
    };
    assert(a.skip(0) =~= a && b.skip(0) =~= b);
    lemma_same_skip(a, b, taken);
    let x = body_of(style, a);
    let y = body_of(style, b);
    if x.len() > 0 {
        assert(x[0] == y[0] || separates(Separators::Either, x[0]));
        lemma_same_skip(x, y, 1);
        lemma_same_names(x.skip(1), y.skip(1));
    }
    if x.len() > 1 {
        assert(x[1] == y[1] || separates(Separators::Either, x[1]));
    }
    lemma_same_names(x, y);
    if windows_prefix(a) is None || windows_prefix(a)->Some_0 is Drive {
        lemma_resolved_alike(style, a, b, components(style, a));
    }
}

/// A prefix is a part of the path that it is read from.
pub proof fn lemma_prefix_fits(text: Seq<u8>)
    ensures
        windows_prefix(text) matches Some(prefix) ==> prefix_len(prefix) <= text.len(),
{
    lemma_run(Separators::Backslash, text.skip(8));
    lemma_run(Separators::Backslash, tail(Separators::Backslash, text.skip(8)));
    lemma_run(Separators::Backslash, text.skip(4));
    lemma_run(Separators::Either, text.skip(4));
    lemma_run(Separators::Either, text.skip(2));
    lemma_run(Separators::Either, tail(Separators::Either, text.skip(2)));
}

/// The case of a drive's letter does not matter.
pub proof fn law_windows_drive_case(a: Seq<u8>, b: Seq<u8>)
    requires
        drive(a) is Some,
        a.len() == b.len(),
        a.skip(1) == b.skip(1),
        drive(b) == drive(a),
    ensures
        components(PathStyle::Windows, a) == components(PathStyle::Windows, b),
        normal(PathStyle::Windows, LocationView { path: a, resolved: None }) == normal(
            PathStyle::Windows,
            LocationView { path: b, resolved: None },
        ),
{
    assert(!starts_double(a) && !starts_double(b));
    assert(windows_prefix(a) == windows_prefix(b));
    assert(a.skip(2) =~= a.skip(1).skip(1));
    assert(b.skip(2) =~= b.skip(1).skip(1));
    lemma_resolved_alike(PathStyle::Windows, a, b, components(PathStyle::Windows, a));
}

/// Whether a directory lies in a root, at whatever depth: the components of the root are
/// the first ones of the directory, once both are normalized.
pub open spec fn lies_in(style: PathStyle, directory: LocationView, root: LocationView) -> bool {
    match (normal(style, directory), normal(style, root)) {
        (Some(inner), Some(outer)) => {
            let long = components(style, inner);
            let short = components(style, outer);
            &&& 0 < short.len() <= long.len()
            &&& forall|i: int| 0 <= i < short.len() ==> #[trigger] long[i] == short[i]
        },
        _ => false,
    }
}

/// How specific a root is: by the number of its components.
pub open spec fn specificity(style: PathStyle, root: LocationView) -> int {
    match normal(style, root) {
        Some(text) => components(style, text).len() as int,
        None => 0,
    }
}

/// A root counts for every directory that lies in it, at whatever depth below it, by the
/// number of its own components; and for no other.
pub proof fn law_roots_count_at_any_depth(
    style: PathStyle,
    directory: LocationView,
    root: LocationView,
)
    ensures
        lies_in(style, directory, root) ==> depth(style, directory, root) == specificity(
            style,
            root,
        ) && depth(style, directory, root) > 0,
        !lies_in(style, directory, root) ==> depth(style, directory, root) == 0,
{
    if let (Some(inner), Some(outer)) = (normal(style, directory), normal(style, root)) {
        let long = components(style, inner);
        let short = components(style, outer);
        if lies_in(style, directory, root) {
            assert(long.take(short.len() as int) =~= short);
        } else if short.len() <= long.len() && long.take(short.len() as int) == short {
            assert forall|i: int| 0 <= i < short.len() implies #[trigger] long[i] == short[i] by {
                assert(long.take(short.len() as int)[i] == long[i]);
            }
        }
    }
}

/// Whether a root of a workspace contains a directory.
pub open spec fn contains_at(
    style: PathStyle,
    directory: LocationView,
    workspaces: Seq<Vec<Location>>,
    w: int,
    r: int,
) -> bool {
    0 <= w < workspaces.len() && 0 <= r < workspaces[w]@.len() && lies_in(
        style,
        directory,
        workspaces[w]@[r]@,
    )
}

/// Whether the root of a workspace is a most specific one that contains a directory.
pub open spec fn is_deepest(
    style: PathStyle,
    directory: LocationView,
    workspaces: Seq<Vec<Location>>,
    w: int,
    r: int,
) -> bool {
    &&& contains_at(style, directory, workspaces, w, r)
    &&& forall|v: int, q: int| #[trigger]
        contains_at(style, directory, workspaces, v, q) ==> specificity(
            style,
            workspaces[v]@[q]@,
        ) <= specificity(style, workspaces[w]@[r]@)
}

proof fn lemma_deepest_is_best(
    style: PathStyle,
    directory: LocationView,
    workspaces: Seq<Vec<Location>>,
    w: int,
    r: int,
)
    ensures
        is_best(style, directory, workspaces, w, r) == is_deepest(
            style,
            directory,
            workspaces,
            w,
            r,
        ),
        contains_at(style, directory, workspaces, w, r) == (depth_at(
            style,
            directory,
            workspaces,
            w,
            r,
        ) > 0),
{
    assert forall|v: int, q: int|
        #![trigger contains_at(style, directory, workspaces, v, q)]
        #![trigger depth_at(style, directory, workspaces, v, q)]
        contains_at(style, directory, workspaces, v, q) == (depth_at(
            style,
            directory,
            workspaces,
            v,
            q,
        ) > 0) && (contains_at(style, directory, workspaces, v, q) ==> depth_at(
            style,
            directory,
            workspaces,
            v,
            q,
        ) == specificity(style, workspaces[v]@[q]@)) by {
        if 0 <= v < workspaces.len() && 0 <= q < workspaces[v]@.len() {
            law_roots_count_at_any_depth(style, directory, workspaces[v]@[q]@);
        }
    }
}

/// What a selection comes to. A workspace is selected with a root of its own that contains
/// the directory: no other root that does has more components, none of another workspace
/// has as many, and none before it in the same workspace. Where there is none, either the
/// directory is not absolute, or no root contains it, or the most specific roots that do
/// are those of several workspaces; each has its reason.
pub proof fn law_the_most_specific_root_is_selected(
    style: PathStyle,
    directory: LocationView,
    workspaces: Seq<Vec<Location>>,
    selected: Result<(int, Location), Seq<char>>,
)
    requires
        is_selected(style, directory, workspaces, selected),
    ensures
        match selected {
            Ok((w, root)) => exists|r: int|
                #![trigger is_deepest(style, directory, workspaces, w, r)]
                {
                    &&& is_deepest(style, directory, workspaces, w, r)
                    &&& root == workspaces[w]@[r]
                    &&& forall|v: int, q: int| #[trigger]
                        is_deepest(style, directory, workspaces, v, q) ==> v == w && r <= q
                },
            Err(reason) => if !is_absolute(style, directory.path) {
                reason == "invalid-workspace-root"@
            } else if exists|v: int, q: int| #[trigger]
                contains_at(style, directory, workspaces, v, q) {
                &&& reason == "ambiguous-workspace"@
                &&& exists|w: int, r: int, v: int, q: int|
                    #![trigger is_deepest(style, directory, workspaces, w, r), is_deepest(style, directory, workspaces, v, q)]
                    is_deepest(style, directory, workspaces, w, r) && is_deepest(
                        style,
                        directory,
                        workspaces,
                        v,
                        q,
                    ) && w != v
            } else {
                reason == "no-client-found"@
            },
        },
{
    assert forall|v: int, q: int|
        #![trigger is_best(style, directory, workspaces, v, q)]
        #![trigger is_deepest(style, directory, workspaces, v, q)]
        #![trigger contains_at(style, directory, workspaces, v, q)]
        is_best(style, directory, workspaces, v, q) == is_deepest(
            style,
            directory,
            workspaces,
            v,
            q,
        ) && contains_at(style, directory, workspaces, v, q) == (depth_at(
            style,
            directory,
            workspaces,
            v,
            q,
        ) > 0) by {
        lemma_deepest_is_best(style, directory, workspaces, v, q);
    }
    match selected {
        Ok((w, root)) => {
            let r = choose|r: int| #[trigger]
                is_first_best(style, directory, workspaces, w, r) && root == workspaces[w]@[r];
            assert(is_best(style, directory, workspaces, w, r));
            assert forall|v: int, q: int| #[trigger]
                is_deepest(style, directory, workspaces, v, q) implies v == w && r <= q by {
                assert(is_best(style, directory, workspaces, v, q));
            }
        },
        Err(_) => {
            if is_absolute(style, directory.path) {
                if is_ambiguous(style, directory, workspaces) {
                    let (w, r, v, q) = choose|w: int, r: int, v: int, q: int|
                        #![trigger is_best(style, directory, workspaces, w, r), is_best(style, directory, workspaces, v, q)]
                        w != v && is_best(style, directory, workspaces, w, r) && is_best(
                            style,
                            directory,
                            workspaces,
                            v,
                            q,
                        );
                    assert(is_deepest(style, directory, workspaces, w, r));
                    assert(is_deepest(style, directory, workspaces, v, q));
                } else if exists|v: int, q: int| #[trigger]
                    contains_at(style, directory, workspaces, v, q) {
                    let (v, q) = choose|v: int, q: int| #[trigger]
                        contains_at(style, directory, workspaces, v, q);
                    lemma_some_best(style, directory, workspaces, v, q);
                }
            }
        },
    }
}

/// Where some root contains a directory, some root is a most specific one.
proof fn lemma_some_best(
    style: PathStyle,
    directory: LocationView,
    workspaces: Seq<Vec<Location>>,
    w: int,
    r: int,
)
    requires
        depth_at(style, directory, workspaces, w, r) > 0,
    ensures
        exists|v: int, q: int| #[trigger] is_best(style, directory, workspaces, v, q),
    decreases
            components(style, normal(style, directory)->Some_0).len() - depth_at(
                style,
                directory,
                workspaces,
                w,
                r,
            ),
{
    if !is_best(style, directory, workspaces, w, r) {
        let (v, q) = choose|v: int, q: int| #[trigger]
            depth_at(style, directory, workspaces, v, q) > depth_at(
                style,
                directory,
                workspaces,
                w,
                r,
            );
        lemma_some_best(style, directory, workspaces, v, q);
    }
}

/// What a matching comes to is what the selection comes to, without the root.
pub proof fn law_matching_is_selection(
    style: PathStyle,
    directory: LocationView,
    workspaces: Seq<Vec<Location>>,
    found: Result<int, Seq<char>>,
)
    requires
        is_matched(style, directory, workspaces, found),
    ensures
        match found {
            Ok(w) => exists|root: Location|
                #![trigger is_selection(style, directory, workspaces, w, root)]
                is_selected(style, directory, workspaces, Ok((w, root))),
            Err(reason) => is_selected(style, directory, workspaces, Err(reason)),
        },
{
    if let Ok(w) = found {
        let r = choose|r: int| #[trigger] is_best(style, directory, workspaces, w, r);
        let first = lemma_first_best(style, directory, workspaces, w, r);
        let root = workspaces[w]@[first];
        assert(is_first_best(style, directory, workspaces, w, first));
        assert(is_selection(style, directory, workspaces, w, root));
        let selected: Result<(int, Location), Seq<char>> = Ok((w, root));
        assert(is_selected(style, directory, workspaces, selected));
    }
}

proof fn lemma_first_best(
    style: PathStyle,
    directory: LocationView,
    workspaces: Seq<Vec<Location>>,
    w: int,
    r: int,
) -> (first: int)
    requires
        is_best(style, directory, workspaces, w, r),
    ensures
        is_first_best(style, directory, workspaces, w, first),
        0 <= first <= r,
    decreases r,
{
    if exists|q: int| 0 <= q < r && #[trigger] is_best(style, directory, workspaces, w, q) {
        let q = choose|q: int|
            0 <= q < r && #[trigger] is_best(style, directory, workspaces, w, q);
        lemma_first_best(style, directory, workspaces, w, q)
    } else {
        r
    }
}

/// What a piece of a path between separators adds to its components.
pub open spec fn piece(name: Seq<u8>) -> Seq<ComponentView> {
    if name == Seq::<u8>::empty() || name == seq![DOT] {
        Seq::empty()
    } else if name == seq![DOT, DOT] {
        seq![ComponentView::Parent]
    } else {
        seq![ComponentView::Name(name)]
    }
}

/// A piece written after a separator adds to the names what it is by itself.
pub proof fn lemma_names_grow(separators: Separators, text: Seq<u8>, sep: u8, name: Seq<u8>)
    requires
        separates(separators, sep),
        forall|i: int| 0 <= i < name.len() ==> !separates(separators, #[trigger] name[i]),
    ensures
        names(separators, text.push(sep) + name) == names(separators, text) + single(
            separators,
            name,
        ),
        names(separators, name) == single(separators, name),
    decreases text.len(),
{
    let all = text.push(sep) + name;
    let n = run(separators, text) as int;
    lemma_run(separators, text);
    lemma_run_is(separators, name, name.len() as int);
    assert(name.take(name.len() as int) =~= name);
    assert forall|i: int| 0 <= i < n implies !separates(separators, #[trigger] all[i]) by {
        assert(all[i] == text[i]);
    }
    if n < text.len() {
        assert(all[n] == text[n]);
        lemma_run_is(separators, all, n);
        assert(head(separators, all) =~= head(separators, text));
        let rest = tail(separators, text);
        assert(tail(separators, all) =~= rest.push(sep) + name);
        lemma_names_grow(separators, rest, sep, name);
        assert(names(separators, all) =~= names(separators, text) + single(separators, name));
    } else {
        assert(all[n] == sep);
        lemma_run_is(separators, all, n);
        assert(head(separators, all) =~= text);
        assert(head(separators, text) =~= text);
        assert(tail(separators, all) =~= name);
        assert(names(separators, text) == single(separators, text));
        assert(names(separators, name) == single(separators, name));
        assert(names(separators, all) == single(separators, text) + names(separators, name));
    }
}

/// The components of an absolute Unix path, piece by piece: the root comes first, and each
/// piece after a slash adds a name, a step back, or nothing where it is empty or a dot.
pub proof fn law_unix_components(text: Seq<u8>, name: Seq<u8>)
    requires
        text.len() > 0 ==> text[0] == SLASH,
        forall|i: int| 0 <= i < name.len() ==> #[trigger] name[i] != SLASH,
    ensures
        text.len() == 0 ==> components(PathStyle::Unix, text.push(SLASH) + name)
            == seq![ComponentView::Root] + piece(name),
        text.len() > 0 ==> components(PathStyle::Unix, text.push(SLASH) + name) == components(
            PathStyle::Unix,
            text,
        ) + piece(name),
{
    let all = text.push(SLASH) + name;
    assert(single(Separators::Slash, name) =~= piece(name)) by {
        if name.len() == 0 {
            assert(name =~= Seq::empty());
        }
    }
    if text.len() == 0 {
        lemma_names_grow(Separators::Slash, text, SLASH, name);
        assert(all.skip(1) =~= name);
        assert(all[0] == SLASH);
    } else {
        let body = text.skip(1);
        lemma_names_grow(Separators::Slash, body, SLASH, name);
        assert(all.skip(1) =~= body.push(SLASH) + name);
        assert(all[0] == SLASH);
        assert(components(PathStyle::Unix, all) =~= components(PathStyle::Unix, text) + piece(
            name,
        ));
    }
}

/// What a Unix path is normalized to.
pub open spec fn unix_normal(path: Seq<u8>) -> Option<Seq<u8>> {
    normal(PathStyle::Unix, LocationView { path, resolved: None })
}

/// How the components that a Unix path is resolved to grow with a piece more.
proof fn lemma_cleaned_grows(text: Seq<u8>, name: Seq<u8>)
    requires
        text.len() > 0,
        text[0] == SLASH,
        forall|i: int| 0 <= i < name.len() ==> #[trigger] name[i] != SLASH,
    ensures
        ({
            let found = cleaned(components(PathStyle::Unix, text));
            let next = cleaned(components(PathStyle::Unix, text.push(SLASH) + name));
            &&& is_clean(found) && is_clean(next)
            &&& unix_normal(text) == Some(path_text(PathStyle::Unix, found))
            &&& unix_normal(text.push(SLASH) + name) == Some(path_text(PathStyle::Unix, next))
            &&& piece(name).len() == 0 ==> next == found
            &&& name == seq![DOT, DOT] ==> next == if found.len() > 1 {
                found.drop_last()
            } else {
                found
            }
            &&& piece(name) == seq![ComponentView::Name(name)] ==> is_clean_name(name) && next
                == found.push(ComponentView::Name(name))
        }),
{
    let style = PathStyle::Unix;
    let all = text.push(SLASH) + name;
    let path = components(style, text);
    let found = cleaned(path);
    law_unix_components(text, name);
    lemma_absolute_components(text);
    lemma_absolute_components(all);
    if piece(name).len() == 0 {
        assert(path + piece(name) =~= path);
    } else {
        let c = piece(name)[0];
        assert(path + piece(name) =~= path.push(c));
        assert(path.push(c).drop_last() =~= path);
        if found.len() > 1 {
            assert(found[found.len() - 1] is Name);
        }
    }
    if name == seq![DOT, DOT] {
        assert(name.len() == 2);
        assert(piece(name) == seq![ComponentView::Parent]);
    }
    if piece(name) == seq![ComponentView::Name(name)] {
        lemma_clean_name_of(name);
    }
}

/// A name after a slash is added to what a Unix path is normalized to.
pub proof fn law_unix_names_are_added(text: Seq<u8>, name: Seq<u8>)
    requires
        text.len() > 0,
        text[0] == SLASH,
        name.len() > 0,
        name != seq![DOT],
        name != seq![DOT, DOT],
        forall|i: int| 0 <= i < name.len() ==> #[trigger] name[i] != SLASH,
    ensures
        unix_normal(text) matches Some(short) && unix_normal(text.push(SLASH) + name) == Some(
            if short == seq![SLASH] {
                short + name
            } else {
                short.push(SLASH) + name
            },
        ),
{
    let style = PathStyle::Unix;
    let found = cleaned(components(style, text));
    lemma_cleaned_grows(text, name);
    let longer = found.push(ComponentView::Name(name));
    lemma_clean_end(found);
    lemma_clean_end(longer);
    assert(longer.drop_last() =~= found);
    if found.len() > 1 {
        lemma_clean_text(found);
    }
}

/// An empty piece and a dot add nothing to what a Unix path is normalized to.
pub proof fn law_unix_dots_add_nothing(text: Seq<u8>)
    requires
        text.len() > 0,
        text[0] == SLASH,
    ensures
        unix_normal(text.push(SLASH)) == unix_normal(text),
        unix_normal(text.push(SLASH).push(DOT)) == unix_normal(text),
        unix_normal(seq![SLASH]) == Some(seq![SLASH]),
{
    lemma_cleaned_grows(text, Seq::empty());
    lemma_cleaned_grows(text, seq![DOT]);
    assert(text.push(SLASH) + Seq::<u8>::empty() =~= text.push(SLASH));
    assert(text.push(SLASH) + seq![DOT] =~= text.push(SLASH).push(DOT));
    let root = seq![SLASH];
    law_unix_components(Seq::empty(), Seq::empty());
    assert(Seq::<u8>::empty().push(SLASH) + Seq::<u8>::empty() =~= root);
    lemma_absolute_components(root);
    let path = components(PathStyle::Unix, root);
    assert(path =~= seq![ComponentView::Root]);
    assert(cleaned(path) =~= seq![ComponentView::Root]);
    lemma_clean_end(cleaned(path));
}

/// A step back takes the last name from what a Unix path is normalized to, with the slash
/// before it, and nothing where there is no name.
pub proof fn law_unix_steps_back(text: Seq<u8>, before: Seq<u8>, name: Seq<u8>)
    requires
        text.len() > 0,
        text[0] == SLASH,
        forall|i: int| 0 <= i < name.len() ==> #[trigger] name[i] != SLASH,
        unix_normal(text) == Some(before.push(SLASH) + name),
    ensures
        name.len() > 0 ==> unix_normal(text.push(SLASH) + seq![DOT, DOT]) == Some(
            if before.len() == 0 {
                seq![SLASH]
            } else {
                before
            },
        ),
        name.len() == 0 ==> unix_normal(text.push(SLASH) + seq![DOT, DOT]) == Some(seq![SLASH]),
{
    let style = PathStyle::Unix;
    let found = cleaned(components(style, text));
    let short = before.push(SLASH) + name;
    let up = seq![DOT, DOT];
    lemma_cleaned_grows(text, up);
    lemma_clean_text(found);
    lemma_clean_end(found);
    if found.len() == 1 {
        if name.len() > 0 {
            assert(short.last() == name[name.len() - 1]);
            assert(short.last() == SLASH);
        }
    } else {
        let last = found.last()->Name_0;
        let outer = found.drop_last();
        let prior = path_text(style, outer);
        assert(forall|i: int| 0 <= i < outer.len() ==> #[trigger] outer[i] == found[i]);
        lemma_clean_text(outer);
        if name.len() == 0 {
            assert(short.last() == SLASH);
        }
        lemma_last_start(before.push(SLASH), name);
        if found.len() == 2 {
            lemma_last_start(prior, last);
            assert(before.len() == 0);
        } else {
            lemma_last_start(prior.push(SLASH), last);
            assert(before.len() == prior.len());
            assert(short.take(before.len() as int) =~= before);
            assert(short.take(before.len() as int) =~= prior);
        }
    }
}

proof fn lemma_clean_name_of(name: Seq<u8>)
    requires
        piece(name) == seq![ComponentView::Name(name)],
        forall|i: int| 0 <= i < name.len() ==> #[trigger] name[i] != SLASH,
    ensures
        is_clean_name(name),
{
    assert(piece(name).len() == 1);
    assert(piece(name)[0] == ComponentView::Name(name));
    if name.len() == 0 {
        assert(name =~= Seq::empty());
    }
}

/// What the file system says of a path is normalized in its place; the path itself only
/// has to be absolute.
pub proof fn law_what_the_file_system_says_counts(style: PathStyle, path: Seq<u8>, found: Seq<u8>)
    requires
        is_absolute(style, path),
        is_absolute(style, found),
    ensures
        normal(style, LocationView { path, resolved: Some(found) }) == normal(
            style,
            LocationView { path: found, resolved: None },
        ),
{
}

/// A path is normalized just where it is absolute: on Unix, where it begins with a slash.
pub proof fn law_absolute_paths(style: PathStyle, location: LocationView)
    ensures
        normal(style, location) is Some <==> is_absolute(style, location.path),
        is_absolute(PathStyle::Unix, location.path) <==> location.path.len() > 0
            && location.path[0] == SLASH,
{
}

/// Lying in a root goes deeper: where a root contains a directory on Unix, it contains
/// whatever lies below that, and counts as much for it.
pub proof fn law_roots_contain_what_lies_deeper(
    directory: Seq<u8>,
    name: Seq<u8>,
    root: LocationView,
)
    requires
        directory.len() > 0,
        directory[0] == SLASH,
        forall|i: int| 0 <= i < name.len() ==> #[trigger] name[i] != SLASH,
        name != seq![DOT, DOT],
        depth(PathStyle::Unix, LocationView { path: directory, resolved: None }, root) > 0,
    ensures
        depth(
            PathStyle::Unix,
            LocationView { path: directory.push(SLASH) + name, resolved: None },
            root,
        ) == depth(PathStyle::Unix, LocationView { path: directory, resolved: None }, root),
{
    let style = PathStyle::Unix;
    let all = directory.push(SLASH) + name;
    let path = components(style, directory);
    let found = cleaned(path);
    law_unix_components(directory, name);
    lemma_absolute_components(directory);
    lemma_absolute_components(all);
    lemma_clean_round_trip(found);
    lemma_clean_round_trip(cleaned(components(style, all)));
    if piece(name).len() == 0 {
        assert(path + piece(name) =~= path);
    } else {
        let c = piece(name)[0];
        assert(path + piece(name) =~= path.push(c));
        assert(path.push(c).drop_last() =~= path);
        assert(cleaned(path.push(c)) == found.push(c));
        let outer = components(style, normal(style, root)->Some_0);
        assert(found.push(c).take(outer.len() as int) =~= found.take(outer.len() as int));
    }
}

/// A path with names below it.
pub open spec fn with_names(path: Seq<u8>, more: Seq<Seq<u8>>) -> Seq<u8>
    decreases more.len(),
{
    if more.len() == 0 {
        path
    } else {
        with_names(path, more.drop_last()).push(SLASH) + more.last()
    }
}

/// Whatever lies below the only root there is, at whatever depth, is matched to it.
pub proof fn law_the_only_root_above_is_selected(
    root: Seq<u8>,
    more: Seq<Seq<u8>>,
    workspaces: Seq<Vec<Location>>,
    selected: Result<(int, Location), Seq<char>>,
)
    requires
        root.len() > 0,
        root[0] == SLASH,
        forall|k: int|
            0 <= k < more.len() ==> #[trigger] more[k] != seq![DOT, DOT] && forall|i: int|
                0 <= i < more[k].len() ==> #[trigger] more[k][i] != SLASH,
        workspaces.len() == 1,
        workspaces[0]@.len() == 1,
        workspaces[0]@[0]@ == (LocationView { path: root, resolved: None }),
        is_selected(
            PathStyle::Unix,
            LocationView { path: with_names(root, more), resolved: None },
            workspaces,
            selected,
        ),
    ensures
        selected == Ok::<(int, Location), Seq<char>>((0, workspaces[0]@[0])),
{
    let style = PathStyle::Unix;
    let directory = LocationView { path: with_names(root, more), resolved: None };
    lemma_below_lies_in(root, more);
    law_the_most_specific_root_is_selected(style, directory, workspaces, selected);
    law_roots_count_at_any_depth(style, directory, workspaces[0]@[0]@);
    assert(contains_at(style, directory, workspaces, 0, 0));
    assert forall|v: int, q: int| #[trigger] is_deepest(
        style,
        directory,
        workspaces,
        v,
        q,
    ) implies v == 0 && q == 0 by {}
}

proof fn lemma_below_lies_in(root: Seq<u8>, more: Seq<Seq<u8>>)
    requires
        root.len() > 0,
        root[0] == SLASH,
        forall|k: int|
            0 <= k < more.len() ==> #[trigger] more[k] != seq![DOT, DOT] && forall|i: int|
                0 <= i < more[k].len() ==> #[trigger] more[k][i] != SLASH,
    ensures
        with_names(root, more).len() > 0,
        with_names(root, more)[0] == SLASH,
        depth(
            PathStyle::Unix,
            LocationView { path: with_names(root, more), resolved: None },
            LocationView { path: root, resolved: None },
        ) > 0,
    decreases more.len(),
{
    if more.len() == 0 {
        law_a_root_contains_itself(root);
    } else {
        let before = more.drop_last();
        assert(more[more.len() - 1] == more.last());
        assert forall|k: int| 0 <= k < before.len() implies #[trigger] before[k] != seq![DOT, DOT]
            && forall|i: int| 0 <= i < before[k].len() ==> #[trigger] before[k][i] != SLASH by {
            assert(before[k] == more[k]);
        }
        lemma_below_lies_in(root, before);
        law_roots_contain_what_lies_deeper(
            with_names(root, before),
            more.last(),
            LocationView { path: root, resolved: None },
        );
    }
}

/// In what form paths are compared: on Unix as they are, and on Windows in lower case and
/// without `\\?\`, with `\\` in place of `\\?\unc\`.
pub proof fn law_comparable_paths(text: Seq<u8>)
    ensures
        comparable(PathStyle::Unix, text) == text,
        ({
            let lower = encode_utf8(lowered(readable(PathStyle::Windows, text)));
            let plain = seq![BACKSLASH, BACKSLASH, QUESTION, BACKSLASH];
            let share = plain + seq![0x75u8, 0x6e, 0x63, BACKSLASH];
            let form = comparable(PathStyle::Windows, text);
            &&& share.is_prefix_of(lower) ==> form == seq![BACKSLASH, BACKSLASH] + lower.skip(8)
            &&& plain.is_prefix_of(lower) && !share.is_prefix_of(lower) ==> form == lower.skip(4)
            &&& !plain.is_prefix_of(lower) ==> form == lower
        }),
{
    let lower = encode_utf8(lowered(readable(PathStyle::Windows, text)));
    let plain = seq![BACKSLASH, BACKSLASH, QUESTION, BACKSLASH];
    let share = plain + seq![0x75u8, 0x6e, 0x63, BACKSLASH];
    if plain.is_prefix_of(lower) {
        assert(lower[0] == plain[0] && lower[1] == plain[1] && lower[2] == plain[2] && lower[3]
            == plain[3]);
    } else if starts_plain_verbatim(lower) {
        assert(plain =~= lower.take(4));
    }
    if share.is_prefix_of(lower) {
        assert(lower[4] == share[4] && lower[5] == share[5] && lower[6] == share[6] && lower[7]
            == share[7]);
        assert(lower[0] == share[0] && lower[1] == share[1] && lower[2] == share[2] && lower[3]
            == share[3]);
    } else if starts_plain_verbatim(lower) && has_lower_unc(lower) {
        assert(share =~= lower.take(8));
    }
}

/// What is compared of an absolute path is its resolved text.
pub proof fn law_normal_paths_are_resolved(style: PathStyle, path: Seq<u8>)
    requires
        is_absolute(style, path),
    ensures
        normal(style, LocationView { path, resolved: None }) == Some(
            comparable(style, resolved(style, path)),
        ),
{
}

} // verus!
