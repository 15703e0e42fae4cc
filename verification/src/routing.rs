//! Which workspace a directory belongs to.
use crate::path::{
    absolute, components, is_absolute, parse_path, path_starts_with, read_text,
    readable, resolve_text, resolved, starts_with, views, Component, PathStyle, BACKSLASH,
    QUESTION,
};
use crate::text::{lowered, to_lowercase};
use vstd::prelude::*;
use vstd::slice::{slice_subrange, slice_to_vec};
use vstd::utf8::encode_utf8;

verus! {

/// A path, and what the file system says that it stands for once symbolic links are
/// followed, where it says anything.
pub struct Location {
    pub path: Vec<u8>,
    pub resolved: Option<Vec<u8>>,
}

/// A path, and what the file system says that it stands for.
pub struct LocationView {
    pub path: Seq<u8>,
    pub resolved: Option<Seq<u8>>,
}

impl View for Location {
    type V = LocationView;

    open spec fn view(&self) -> LocationView {
        LocationView {
            path: self.path@,
            resolved: match self.resolved {
                Some(text) => Some(text@),
                None => None,
            },
        }
    }
}

/// Whether a text begins with `\\?\`.
pub open spec fn starts_plain_verbatim(text: Seq<u8>) -> bool {
    text.len() >= 4 && text[0] == BACKSLASH && text[1] == BACKSLASH && text[2] == QUESTION
        && text[3] == BACKSLASH
}

/// Whether a text has `unc\` at its fifth byte.
pub open spec fn has_lower_unc(text: Seq<u8>) -> bool {
    text.len() >= 8 && text[4] == 0x75 && text[5] == 0x6e && text[6] == 0x63 && text[7]
        == BACKSLASH
}

/// A lower-case Windows path in its everyday form.
pub open spec fn unverbatim(text: Seq<u8>) -> Seq<u8> {
    if starts_plain_verbatim(text) {
        if has_lower_unc(text) {
            seq![BACKSLASH, BACKSLASH] + text.skip(8)
        } else {
            text.skip(4)
        }
    } else {
        text
    }
}

/// A path in the form in which paths are compared.
pub open spec fn comparable(style: PathStyle, text: Seq<u8>) -> Seq<u8> {
    match style {
        PathStyle::Unix => text,
        PathStyle::Windows => unverbatim(encode_utf8(lowered(readable(style, text)))),
    }
}

/// What a location is normalized to: nothing unless its path is absolute. What the
/// file system says goes before what the path says.
pub open spec fn normal(style: PathStyle, location: LocationView) -> Option<Seq<u8>> {
    if is_absolute(style, location.path) {
        let text = match location.resolved {
            Some(text) => text,
            None => location.path,
        };
        Some(comparable(style, resolved(style, text)))
    } else {
        None
    }
}

/// How deep a root is that a directory lies in: nothing where it does not.
pub open spec fn depth(
    style: PathStyle,
    directory: LocationView,
    root: LocationView,
) -> nat {
    match (normal(style, directory), normal(style, root)) {
        (Some(inner), Some(outer)) => if starts_with(
            components(style, inner),
            components(style, outer),
        ) {
            components(style, outer).len()
        } else {
            0
        },
        _ => 0,
    }
}

/// How deep the root with index `r` of the workspace with index `w` is.
pub open spec fn depth_at(
    style: PathStyle,
    directory: LocationView,
    workspaces: Seq<Vec<Location>>,
    w: int,
    r: int,
) -> nat {
    if 0 <= w < workspaces.len() && 0 <= r < workspaces[w]@.len() {
        depth(style, directory, workspaces[w]@[r]@)
    } else {
        0
    }
}

/// Whether a root is a most specific one that a directory lies in.
pub open spec fn is_best(
    style: PathStyle,
    directory: LocationView,
    workspaces: Seq<Vec<Location>>,
    w: int,
    r: int,
) -> bool {
    &&& depth_at(style, directory, workspaces, w, r) > 0
    &&& forall|v: int, q: int| #[trigger]
        depth_at(style, directory, workspaces, v, q) <= depth_at(
            style,
            directory,
            workspaces,
            w,
            r,
        )
}

/// Whether a root is the first of its workspace that is a most specific one.
pub open spec fn is_first_best(
    style: PathStyle,
    directory: LocationView,
    workspaces: Seq<Vec<Location>>,
    w: int,
    r: int,
) -> bool {
    &&& is_best(style, directory, workspaces, w, r)
    &&& forall|q: int|
        0 <= q < r ==> !#[trigger] is_best(style, directory, workspaces, w, q)
}

/// Whether a root is the one to choose from its workspace.
pub open spec fn is_selection(
    style: PathStyle,
    directory: LocationView,
    workspaces: Seq<Vec<Location>>,
    w: int,
    root: Location,
) -> bool {
    exists|r: int| #[trigger]
        is_first_best(style, directory, workspaces, w, r) && root == workspaces[w]@[r]
}

/// Whether two workspaces have equally specific roots.
pub open spec fn is_ambiguous(
    style: PathStyle,
    directory: LocationView,
    workspaces: Seq<Vec<Location>>,
) -> bool {
    exists|w: int, r: int, v: int, q: int|
        #![trigger is_best(style, directory, workspaces, w, r), is_best(style, directory, workspaces, v, q)]
        w != v && is_best(style, directory, workspaces, w, r) && is_best(
            style,
            directory,
            workspaces,
            v,
            q,
        )
}

/// What a selection comes to: a workspace with its root, or why there is none.
pub open spec fn is_selected(
    style: PathStyle,
    directory: LocationView,
    workspaces: Seq<Vec<Location>>,
    selected: Result<(int, Location), Seq<char>>,
) -> bool {
    match selected {
        Ok((w, root)) => {
            &&& is_absolute(style, directory.path)
            &&& !is_ambiguous(style, directory, workspaces)
            &&& is_selection(style, directory, workspaces, w, root)
        },
        Err(reason) => if !is_absolute(style, directory.path) {
            reason == "invalid-workspace-root"@
        } else if is_ambiguous(style, directory, workspaces) {
            reason == "ambiguous-workspace"@
        } else {
            &&& reason == "no-client-found"@
            &&& forall|w: int, r: int| !#[trigger] is_best(style, directory, workspaces, w, r)
        },
    }
}

/// Whether a workspace has a most specific root.
pub open spec fn has_best(
    style: PathStyle,
    directory: LocationView,
    workspaces: Seq<Vec<Location>>,
    w: int,
) -> bool {
    exists|r: int| #[trigger] is_best(style, directory, workspaces, w, r)
}

/// What the matching of a directory comes to: the workspace with the most specific root
/// that it lies in, or why there is none.
pub open spec fn is_matched(
    style: PathStyle,
    directory: LocationView,
    workspaces: Seq<Vec<Location>>,
    found: Result<int, Seq<char>>,
) -> bool {
    match found {
        Ok(w) => {
            &&& is_absolute(style, directory.path)
            &&& !is_ambiguous(style, directory, workspaces)
            &&& has_best(style, directory, workspaces, w)
        },
        Err(reason) => if !is_absolute(style, directory.path) {
            reason == "invalid-workspace-root"@
        } else if is_ambiguous(style, directory, workspaces) {
            reason == "ambiguous-workspace"@
        } else {
            &&& reason == "no-client-found"@
            &&& forall|w: int, r: int| !#[trigger] is_best(style, directory, workspaces, w, r)
        },
    }
}

/// Canonicalization handles symlink aliases. Lexical normalization also supports
/// paths that no longer exist. Windows comparison follows native drive casing.
pub fn normalize(style: PathStyle, location: &Location) -> (normalized: Option<Vec<u8>>)
    ensures
        match normalized {
            Some(text) => normal(style, location@) == Some(text@),
            None => normal(style, location@) is None,
        },
{
    if !absolute(style, location.path.as_slice()) {
        return None;
    }
    let text = match &location.resolved {
        Some(text) => resolve_text(style, text.as_slice()),
        None => resolve_text(style, location.path.as_slice()),
    };
    match style {
        PathStyle::Unix => Some(text),
        PathStyle::Windows => {
            let lower = to_lowercase(read_text(style, text.as_slice()).as_str());
            let bytes: &[u8] = lower.as_str().as_bytes();
            let n: usize = bytes.len();
            if n >= 4 && bytes[0] == BACKSLASH && bytes[1] == BACKSLASH && bytes[2] == QUESTION
                && bytes[3] == BACKSLASH {
                if n >= 8 && bytes[4] == 0x75 && bytes[5] == 0x6e && bytes[6] == 0x63 && bytes[7]
                    == BACKSLASH {
                    let mut result: Vec<u8> = Vec::new();
                    result.push(BACKSLASH);
                    result.push(BACKSLASH);
                    result.extend_from_slice(slice_subrange(bytes, 8, n));
                    assert(result@ =~= unverbatim(bytes@));
                    return Some(result);
                }
                let result = slice_to_vec(slice_subrange(bytes, 4, n));
                assert(result@ =~= unverbatim(bytes@));
                return Some(result);
            }
            Some(slice_to_vec(bytes))
        },
    }
}

/// How deep a root is that the directory with these components lies in.
fn measure_depth(
    style: PathStyle,
    inner: &Vec<Component>,
    root: &Location,
    directory: Ghost<LocationView>,
) -> (found: usize)
    requires
        normal(style, directory@) matches Some(text) && views(inner@) == components(style, text),
    ensures
        found == depth(style, directory@, root@),
{
    match normalize(style, root) {
        None => 0,
        Some(text) => {
            let outer = parse_path(style, text.as_slice());
            if path_starts_with(inner, &outer) {
                outer.len()
            } else {
                0
            }
        },
    }
}

/// Returns the workspace index and its most specific matching root. Multiple
/// roots in one window are fine; equally specific roots in two windows are not.
pub fn select<'a>(style: PathStyle, directory: &Location, workspaces: &'a [Vec<Location>]) -> (
    selected: Result<(usize, &'a Location), &'static str>)
    ensures
        is_selected(
            style,
            directory@,
            workspaces@,
            match selected {
                Ok((w, root)) => Ok((w as int, *root)),
                Err(reason) => Err(reason@),
            },
        ),
{
    let inner = match normalize(style, directory) {
        Some(text) => parse_path(style, text.as_slice()),
        None => return Err("invalid-workspace-root"),
    };
    let ghost d = |w: int, r: int| depth_at(style, directory@, workspaces@, w, r);
    let mut best: Option<(usize, usize)> = None;
    let mut deepest: usize = 0;
    let mut ambiguous: bool = false;
    let n: usize = workspaces.len();
    for i in 0..n
        invariant
            n == workspaces@.len(),
            d == (|w: int, r: int| depth_at(style, directory@, workspaces@, w, r)),
            normal(style, directory@) matches Some(text) && views(inner@) == components(
                style,
                text,
            ),
            scanned(d, workspaces@, i as int, 0, best, deepest, ambiguous),
    {
        let roots = &workspaces[i];
        let m: usize = roots.len();
        for j in 0..m
            invariant
                i < n == workspaces@.len(),
                *roots == workspaces@[i as int],
                m == roots@.len(),
                d == (|w: int, r: int| depth_at(style, directory@, workspaces@, w, r)),
                normal(style, directory@) matches Some(text) && views(inner@) == components(
                    style,
                    text,
                ),
                scanned(d, workspaces@, i as int, j as int, best, deepest, ambiguous),
        {
            let candidate: usize = measure_depth(style, &inner, &roots[j], Ghost(directory@));
            assert(candidate == d(i as int, j as int));
            let ghost was = (best, deepest, ambiguous);
            if candidate > deepest {
                deepest = candidate;
                best = Some((i, j));
                ambiguous = false;
            } else if candidate == deepest {
                if let Some((other, _)) = best {
                    if other != i {
                        ambiguous = true;
                    }
                }
            }
            proof {
                lemma_scanned(d, workspaces@, i as int, j as int, was, best, deepest, ambiguous);
            }
        }
        proof {
            lemma_next_row(d, workspaces@, i as int, best, deepest, ambiguous);
        }
    }
    proof {
        lemma_all_scanned(style, directory@, workspaces@, d, best, deepest, ambiguous);
    }
    if ambiguous {
        return Err("ambiguous-workspace");
    }
    if let Some((w, r)) = best {
        let root = &workspaces[w][r];
        assert(is_first_best(style, directory@, workspaces@, w as int, r as int));
        assert(is_selection(style, directory@, workspaces@, w as int, *root));
        return Ok((w, root));
    }
    Err("no-client-found")
}

/// Whether one root comes before another.
spec fn earlier(w: int, r: int, v: int, q: int) -> bool {
    w < v || w == v && r < q
}

/// Whether an index is one of a root that comes before another.
spec fn seen(workspaces: Seq<Vec<Location>>, w: int, r: int, i: int, j: int) -> bool {
    0 <= w < workspaces.len() && 0 <= r < workspaces[w]@.len() && earlier(w, r, i, j)
}

/// What the search knows once it has seen all roots before `(i, j)`.
spec fn scanned(
    d: spec_fn(int, int) -> nat,
    workspaces: Seq<Vec<Location>>,
    i: int,
    j: int,
    best: Option<(usize, usize)>,
    deepest: usize,
    ambiguous: bool,
) -> bool {
    &&& forall|w: int, r: int| #[trigger]
        seen(workspaces, w, r, i, j) ==> d(w, r) <= deepest
    &&& match best {
        None => deepest == 0 && !ambiguous,
        Some((w, r)) => {
            &&& deepest > 0
            &&& seen(workspaces, w as int, r as int, i, j)
            &&& d(w as int, r as int) == deepest
            &&& forall|v: int, q: int| #[trigger]
                seen(workspaces, v, q, i, j) && d(v, q) == deepest ==> !earlier(
                    v,
                    q,
                    w as int,
                    r as int,
                )
            &&& ambiguous <==> exists|v: int, q: int| #[trigger]
                seen(workspaces, v, q, i, j) && d(v, q) == deepest && v != w
        },
    }
}

proof fn lemma_scanned(
    d: spec_fn(int, int) -> nat,
    workspaces: Seq<Vec<Location>>,
    i: int,
    j: int,
    was: (Option<(usize, usize)>, usize, bool),
    best: Option<(usize, usize)>,
    deepest: usize,
    ambiguous: bool,
)
    requires
        scanned(d, workspaces, i, j, was.0, was.1, was.2),
        0 <= i < workspaces.len(),
        0 <= j < workspaces[i]@.len(),
        i <= usize::MAX,
        j <= usize::MAX,
        if d(i, j) > was.1 {
            deepest == d(i, j) && best == Some((i as usize, j as usize)) && !ambiguous
        } else {
            &&& deepest == was.1
            &&& best == was.0
            &&& ambiguous == (was.2 || d(i, j) == was.1 && was.0 is Some && was.0->Some_0.0 != i)
        },
    ensures
        scanned(d, workspaces, i, j + 1, best, deepest, ambiguous),
{
    assert(seen(workspaces, i, j, i, j + 1));
    assert forall|w: int, r: int|
        seen(workspaces, w, r, i, j + 1) <==> #[trigger] seen(workspaces, w, r, i, j) || (w == i
            && r == j) by {
    }
    assert forall|w: int, r: int| #[trigger]
        seen(workspaces, w, r, i, j + 1) implies d(w, r) <= deepest by {
        assert(seen(workspaces, w, r, i, j) || (w == i && r == j));
    }
    if let Some((w, r)) = best {
        if d(i, j) > was.1 {
            assert forall|v: int, q: int| #[trigger]
                seen(workspaces, v, q, i, j + 1) && d(v, q) == deepest implies !earlier(
                v,
                q,
                w as int,
                r as int,
            ) && v == w by {
                assert(seen(workspaces, v, q, i, j) || (v == i && q == j));
            }
        } else {
            assert forall|v: int, q: int| #[trigger]
                seen(workspaces, v, q, i, j + 1) && d(v, q) == deepest implies !earlier(
                v,
                q,
                w as int,
                r as int,
            ) by {
                assert(seen(workspaces, v, q, i, j) || (v == i && q == j));
            }
            if ambiguous {
                if was.2 {
                    let (v, q) = choose|v: int, q: int| #[trigger]
                        seen(workspaces, v, q, i, j) && d(v, q) == deepest && v != w;
                    assert(seen(workspaces, v, q, i, j + 1));
                }
            }
            if exists|v: int, q: int| #[trigger]
                seen(workspaces, v, q, i, j + 1) && d(v, q) == deepest && v != w {
                let (v, q) = choose|v: int, q: int| #[trigger]
                    seen(workspaces, v, q, i, j + 1) && d(v, q) == deepest && v != w;
                assert(seen(workspaces, v, q, i, j) || (v == i && q == j));
            }
            assert(seen(workspaces, w as int, r as int, i, j + 1));
        }
    }
}

proof fn lemma_next_row(
    d: spec_fn(int, int) -> nat,
    workspaces: Seq<Vec<Location>>,
    i: int,
    best: Option<(usize, usize)>,
    deepest: usize,
    ambiguous: bool,
)
    requires
        0 <= i < workspaces.len(),
        scanned(d, workspaces, i, workspaces[i]@.len() as int, best, deepest, ambiguous),
    ensures
        scanned(d, workspaces, i + 1, 0, best, deepest, ambiguous),
{
    let m = workspaces[i]@.len() as int;
    assert forall|w: int, r: int|
        #![trigger seen(workspaces, w, r, i, m)]
        #![trigger seen(workspaces, w, r, i + 1, 0)]
        seen(workspaces, w, r, i, m) == seen(workspaces, w, r, i + 1, 0) by {
    }
}

proof fn lemma_all_scanned(
    style: PathStyle,
    directory: LocationView,
    workspaces: Seq<Vec<Location>>,
    d: spec_fn(int, int) -> nat,
    best: Option<(usize, usize)>,
    deepest: usize,
    ambiguous: bool,
)
    requires
        d == (|w: int, r: int| depth_at(style, directory, workspaces, w, r)),
        scanned(d, workspaces, workspaces.len() as int, 0, best, deepest, ambiguous),
    ensures
        ambiguous == is_ambiguous(style, directory, workspaces),
        match best {
            None => forall|w: int, r: int|
                !#[trigger] is_best(style, directory, workspaces, w, r),
            Some((w, r)) => {
                &&& w < workspaces.len()
                &&& r < workspaces[w as int]@.len()
                &&& is_first_best(style, directory, workspaces, w as int, r as int)
            },
        },
{
    let n = workspaces.len() as int;
    assert forall|w: int, r: int| #[trigger]
        depth_at(style, directory, workspaces, w, r) <= deepest by {
        if depth_at(style, directory, workspaces, w, r) > 0 {
            assert(seen(workspaces, w, r, n, 0));
            assert(d(w, r) <= deepest);
        }
    }
    assert forall|w: int, r: int| #[trigger]
        is_best(style, directory, workspaces, w, r) implies seen(workspaces, w, r, n, 0) && d(
        w,
        r,
    ) == deepest by {
        if let Some((v, q)) = best {
            assert(depth_at(style, directory, workspaces, v as int, q as int) == deepest);
        }
    }
    if let Some((w, r)) = best {
        assert(d(w as int, r as int) == depth_at(
            style,
            directory,
            workspaces,
            w as int,
            r as int,
        ));
        assert(is_best(style, directory, workspaces, w as int, r as int));
        if ambiguous {
            let (v, q) = choose|v: int, q: int| #[trigger]
                seen(workspaces, v, q, n, 0) && d(v, q) == deepest && v != w;
            assert(depth_at(style, directory, workspaces, v, q) == deepest);
            assert(is_best(style, directory, workspaces, v, q));
        }
        if is_ambiguous(style, directory, workspaces) {
            let (a, b, v, q) = choose|a: int, b: int, v: int, q: int|
                #![trigger is_best(style, directory, workspaces, a, b), is_best(style, directory, workspaces, v, q)]
                a != v && is_best(style, directory, workspaces, a, b) && is_best(
                    style,
                    directory,
                    workspaces,
                    v,
                    q,
                );
            if a != w {
                assert(seen(workspaces, a, b, n, 0));
            } else {
                assert(seen(workspaces, v, q, n, 0));
            }
        }
        assert forall|q: int| 0 <= q < r implies !#[trigger] is_best(
            style,
            directory,
            workspaces,
            w as int,
            q,
        ) by {
            if is_best(style, directory, workspaces, w as int, q) {
                assert(seen(workspaces, w as int, q, n, 0));
                assert(earlier(w as int, q, w as int, r as int));
            }
        }
    }
}

} // verus!
