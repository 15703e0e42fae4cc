//! What holds of every context, and of what the editor keeps for it.
use crate::codex::{
    choice, context_answer, context_view, descriptor_view, home_of, is_active_file, is_plan,
    path_at, paths_of, range_view, remembered_in, roots_of, window_at, with_active, with_window,
    without_window, CodexIdeStatusView, OpenEditor, Project, QueryPlan, WindowContext,
};
use crate::editor_context::{
    before_column, file_path, is_bounded, is_read, joined_text, lemma_boundary, lemma_encode_concat,
    lemma_joined, lemma_prefix_is_shorter, lemma_utf16_is_shorter, BufferFile, Point, PointUtf16,
};
use crate::json::JsonView;
use crate::names::lemma_context_names;
use crate::path::{components, joined_path, readable, ComponentView, PathStyle, DOT, SLASH};
use crate::path_laws::{has_drive, is_slash, is_whole, law_windows_drive_components};
use crate::routing_laws::law_unix_components;
use crate::sequence::lemma_filter_members;
use crate::session::StatusView;
use crate::text::digits;
use crate::text_laws::{law_decimal_gives_the_number, law_utf16_length, number_of, units_in};
use vstd::prelude::*;
use vstd::utf8::*;

verus! {

/// A column in bytes becomes one in UTF-16 code units: as many as the characters before it
/// take, two for each beyond the sixteen-bit ones and one for each other. The line stays.
pub proof fn law_columns_count_code_units(point: Point, before: Seq<char>, after: Seq<char>)
    requires
        point.line@ == before + after,
        point.column == encode_utf8(before).len(),
    ensures
        point.wf(),
        point.in_utf16().row == point.row,
        point.in_utf16().column == units_in(before),
{
    let bytes = encode_utf8(point.line@);
    lemma_boundary(point.line@, before.len() as int);
    assert(point.line@.take(before.len() as int) =~= before);
    lemma_encode_concat(before, after);
    assert(bytes.take(point.column as int) =~= encode_utf8(before));
    encode_utf8_decode_utf8(before);
    law_utf16_length(before);
    lemma_utf16_is_shorter(before);
}

/// Every place between characters is such a one: what comes before it is the beginning of
/// its line that has as many bytes as the column says.
pub proof fn law_columns_split_lines(point: Point)
    requires
        point.wf(),
    ensures
        ({
            let before = before_column(point.line@, point.column);
            &&& before.is_prefix_of(point.line@)
            &&& encode_utf8(before).len() == point.column
            &&& point.in_utf16().column == units_in(before)
        }),
{
    let bytes = encode_utf8(point.line@);
    let before = before_column(point.line@, point.column);
    encode_utf8_valid_utf8(point.line@);
    encode_utf8_decode_utf8(point.line@);
    valid_utf8_split(bytes, point.column as int);
    decode_utf8_split(bytes, point.column as int);
    let head = bytes.take(point.column as int);
    assert(bytes.subrange(0, point.column as int) =~= head);
    decode_utf8_encode_utf8(head);
    law_utf16_length(before);
    lemma_utf16_is_shorter(before);
}

/// A range has the line and the column of its start and those of its end, and the two do
/// not bear on each other.
pub proof fn law_ranges(start: PointUtf16, end: PointUtf16)
    ensures
        range_view(start, end) matches JsonView::Object(ends) && {
            &&& ends.dom() =~= set!["start"@, "end"@]
            &&& ends["start"@] matches JsonView::Object(place) && {
                &&& place.dom() =~= set!["line"@, "character"@]
                &&& place["line"@] == JsonView::Int(start.row as int)
                &&& place["character"@] == JsonView::Int(start.column as int)
            }
            &&& ends["end"@] matches JsonView::Object(place) && {
                &&& place.dom() =~= set!["line"@, "character"@]
                &&& place["line"@] == JsonView::Int(end.row as int)
                &&& place["character"@] == JsonView::Int(end.column as int)
            }
        },
{
    lemma_context_names();
}

/// Whether a document is the range from one place to another, by its members.
pub open spec fn runs_from_to(range: JsonView, start: Point, end: Point) -> bool {
    &&& range.at("start"@).at("line"@) == JsonView::Int(start.row as int)
    &&& range.at("start"@).at("character"@) == JsonView::Int(
        units_in(before_column(start.line@, start.column)) as int,
    )
    &&& range.at("end"@).at("line"@) == JsonView::Int(end.row as int)
    &&& range.at("end"@).at("character"@) == JsonView::Int(
        units_in(before_column(end.line@, end.column)) as int,
    )
}

proof fn lemma_range(start: Point, end: Point)
    requires
        start.wf(),
        end.wf(),
    ensures
        runs_from_to(range_view(start.in_utf16(), end.in_utf16()), start, end),
{
    law_ranges(start.in_utf16(), end.in_utf16());
    law_columns_split_lines(start);
    law_columns_split_lines(end);
}

/// What the active file of a context says: where the file is, the newest selection with
/// its own lines and columns, the first 1024 selections in order with theirs, and as much
/// of the selected text as fits into 200,000 bytes.
pub proof fn law_active_file(
    style: PathStyle,
    path: Seq<char>,
    newest: (Point, Point),
    selections: Seq<(Point, Point)>,
    selected: Seq<char>,
    file: JsonView,
)
    requires
        newest.0.wf(),
        newest.1.wf(),
        forall|i: int|
            0 <= i < selections.len() ==> (#[trigger] selections[i]).0.wf()
                && selections[i].1.wf(),
        is_active_file(style, path, newest, selections, selected, file),
    ensures
        file.at("path"@) == JsonView::Str(path),
        file.at("fsPath"@) == JsonView::Str(path),
        file.at("label"@) == descriptor_view(style, path).at("label"@),
        runs_from_to(file.at("selection"@), newest.0, newest.1),
        file.at("selections"@) matches JsonView::List(ranges) && {
            &&& selections.len() <= 1_024 ==> ranges.len() == selections.len()
            &&& selections.len() > 1_024 ==> ranges.len() == 1_024
            &&& forall|i: int|
                0 <= i < ranges.len() ==> #[trigger] runs_from_to(
                    ranges[i],
                    selections[i].0,
                    selections[i].1,
                )
        },
        file.at("activeSelectionContent"@) matches JsonView::Str(text) && {
            &&& text.is_prefix_of(selected)
            &&& encode_utf8(text).len() <= 200_000
            &&& encode_utf8(selected).len() <= 200_000 ==> text == selected
            &&& forall|n: int|
                text.len() < n <= selected.len() ==> encode_utf8(#[trigger] selected.take(n)).len()
                    > 200_000
        },
{
    lemma_context_names();
    lemma_range(newest.0, newest.1);
    let (text, cut) = choose|text: Seq<char>, cut: bool| #[trigger]
        is_bounded(selected, 200_000, text, cut) && file.at("activeSelectionContent"@)
            == JsonView::Str(text);
    assert(is_bounded(selected, 200_000, text, cut));
    law_bounded_text_is_the_longest(selected, 200_000, text, cut);
    let ranges = file.at("selections"@)->List_0;
    assert forall|i: int| 0 <= i < ranges.len() implies #[trigger] runs_from_to(
        ranges[i],
        selections[i].0,
        selections[i].1,
    ) by {
        lemma_range(selections[i].0, selections[i].1);
    }
}

/// What is copied of a text is the longest beginning of it that fits, and the whole of it
/// where that fits.
pub proof fn law_bounded_text_is_the_longest(
    whole: Seq<char>,
    limit: usize,
    text: Seq<char>,
    cut: bool,
)
    requires
        is_bounded(whole, limit, text, cut),
    ensures
        text.is_prefix_of(whole),
        encode_utf8(text).len() <= limit,
        encode_utf8(whole).len() <= limit <==> !cut,
        !cut ==> text == whole,
        forall|n: int|
            text.len() < n <= whole.len() ==> encode_utf8(#[trigger] whole.take(n)).len() > limit,
{
    assert forall|n: int| text.len() < n <= whole.len() implies encode_utf8(
        #[trigger] whole.take(n),
    ).len() > limit by {
        lemma_prefix_is_shorter(whole, text.len() as int + 1, n);
    }
}

/// The text of chunks is the text of each, one after the other.
pub proof fn law_chunks_are_joined(a: Seq<&str>, b: Seq<&str>, chunk: &str)
    ensures
        joined_text(a + b) == joined_text(a) + joined_text(b),
        joined_text(seq![chunk]) == chunk@,
        joined_text(Seq::<&str>::empty()) == Seq::<char>::empty(),
{
    lemma_joined(a, b);
    reveal_with_fuel(joined_text, 2);
    assert(seq![chunk].drop_last() =~= Seq::empty());
    assert(joined_text(seq![chunk]) =~= chunk@);
}

/// Chunks are read in order and no further than needed: as soon as those that were read do
/// not fit, no more are, and all are where all fit.
pub proof fn law_reading_stops(all: Seq<&str>, limit: usize, cut: bool, left: Seq<&str>, k: int)
    requires
        is_read(all, limit, cut, left),
        cut == (encode_utf8(joined_text(all)).len() > limit),
        0 <= k <= all.len(),
    ensures
        left.len() <= all.len(),
        left == all.skip(all.len() - left.len()),
        encode_utf8(joined_text(all.take(k))).len() > limit ==> all.len() - left.len() <= k,
        encode_utf8(joined_text(all)).len() <= limit ==> left.len() == 0,
        cut ==> encode_utf8(joined_text(all.take(all.len() - left.len()))).len() > limit,
{
    let n = all.len() - left.len();
    if cut && k < n {
        assert(all.take(n - 1) =~= all.take(k) + all.subrange(k, n - 1));
        lemma_joined(all.take(k), all.subrange(k, n - 1));
        lemma_encode_concat(joined_text(all.take(k)), joined_text(all.subrange(k, n - 1)));
    }
    if !cut {
        assert(all.take(k) + all.skip(k) =~= all);
        lemma_joined(all.take(k), all.skip(k));
        lemma_encode_concat(joined_text(all.take(k)), joined_text(all.skip(k)));
    }
}

/// A file is described by its path, twice, and by a label, and by nothing else.
pub proof fn law_descriptors(style: PathStyle, path: Seq<char>)
    ensures
        descriptor_view(style, path) matches JsonView::Object(members) && {
            &&& members.dom() =~= set!["label"@, "path"@, "fsPath"@]
            &&& members["path"@] == JsonView::Str(path)
            &&& members["fsPath"@] == JsonView::Str(path)
            &&& members["label"@] is Str
        },
{
    lemma_context_names();
}

/// The active editor gives the context where it has a file, whatever is remembered.
pub proof fn law_the_active_editor_goes_first(
    active: OpenEditor,
    remembered: Option<u64>,
    editors: Seq<OpenEditor>,
)
    ensures
        active.path matches Some(path) ==> choice(Some(active), remembered, editors) == Some(
            (active.id, path@),
        ),
{
}

/// While a terminal or another item without a file is active, the remembered editor gives
/// the context, under its own path, as long as it is open and has a file. There is none
/// just where there is no such editor.
pub proof fn law_the_remembered_editor_steps_in(
    active: Option<OpenEditor>,
    remembered: Option<u64>,
    editors: Seq<OpenEditor>,
    i: int,
)
    requires
        active matches Some(editor) ==> editor.path is None,
        forall|j: int, k: int|
            0 <= j < k < editors.len() ==> (#[trigger] editors[j]).id != (#[trigger] editors[k]).id,
    ensures
        0 <= i < editors.len() && remembered == Some(editors[i].id) ==> (editors[i].path
            matches Some(path) ==> choice(active, remembered, editors) == Some(
            (editors[i].id, path@),
        )),
        choice(active, remembered, editors) is None <==> forall|j: int|
            0 <= j < editors.len() && Some((#[trigger] editors[j]).id) == remembered
                ==> editors[j].path is None,
        choice(active, remembered, editors) matches Some((id, path)) ==> remembered == Some(id)
            && exists|j: int|
            0 <= j < editors.len() && (#[trigger] editors[j]).id == id && (editors[j].path
                matches Some(own) && own@ == path),
{
    if let Some(id) = remembered {
        lemma_path_at(editors, id);
    }
}

proof fn lemma_path_at(editors: Seq<OpenEditor>, id: u64)
    ensures
        match path_at(editors, id) {
            Some(path) => exists|j: int|
                0 <= j < editors.len() && (#[trigger] editors[j]).id == id && (editors[j].path
                    matches Some(own) && own@ == path),
            None => forall|j: int|
                0 <= j < editors.len() && (#[trigger] editors[j]).id == id ==> editors[j].path
                    is None || exists|k: int|
                    0 <= k < j && (#[trigger] editors[k]).id == id,
        },
    decreases editors.len(),
{
    if editors.len() > 0 && editors[0].id != id {
        let rest = editors.drop_first();
        lemma_path_at(rest, id);
        if path_at(editors, id) is Some {
            let j = choose|j: int|
                0 <= j < rest.len() && (#[trigger] rest[j]).id == id && (rest[j].path
                    matches Some(own) && own@ == path_at(rest, id)->Some_0);
            assert(editors[j + 1] == rest[j]);
        } else {
            assert forall|j: int|
                0 <= j < editors.len() && (#[trigger] editors[j]).id == id implies editors[j].path
                is None || exists|k: int| 0 <= k < j && (#[trigger] editors[k]).id == id by {
                assert(rest[j - 1] == editors[j]);
                if rest[j - 1].path is Some {
                    let k = choose|k: int| 0 <= k < j - 1 && (#[trigger] rest[k]).id == id;
                    assert(editors[k + 1].id == id);
                }
            }
        }
    } else if editors.len() > 0 {
        assert(editors[0].id == id);
    }
}

/// The tabs of a context.
pub open spec fn tabs_of(context: JsonView) -> Seq<JsonView> {
    context.at("openTabs"@)->List_0
}

/// A context has the active file, or null, and the tabs. Without editors there are no tabs;
/// one more editor adds, at the end, the description of its file where it has one and there
/// are fewer than 128 tabs, and nothing otherwise.
pub proof fn law_contexts(
    style: PathStyle,
    active: JsonView,
    editors: Seq<OpenEditor>,
    editor: OpenEditor,
)
    ensures
        context_view(style, active, editors) matches JsonView::Object(members) && {
            &&& members.dom() =~= set!["activeFile"@, "openTabs"@]
            &&& members["activeFile"@] == active
            &&& members["openTabs"@] is List
        },
        tabs_of(context_view(style, active, Seq::empty())) == Seq::<JsonView>::empty(),
        ({
            let tabs = tabs_of(context_view(style, active, editors));
            let more = tabs_of(context_view(style, active, editors.push(editor)));
            match editor.path {
                Some(path) => if tabs.len() < 128 {
                    more == tabs.push(descriptor_view(style, path@))
                } else {
                    more == tabs
                },
                None => more == tabs,
            }
        }),
{
    lemma_context_names();
    reveal_with_fuel(paths_of, 2);
    let tabs = tabs_of(context_view(style, active, editors));
    let more = tabs_of(context_view(style, active, editors.push(editor)));
    assert(editors.push(editor).drop_last() =~= editors);
    assert(tabs_of(context_view(style, active, Seq::empty())) =~= Seq::empty());
    if editor.path is Some && tabs.len() < 128 {
        assert(more =~= tabs.push(descriptor_view(style, editor.path->Some_0@)));
    } else {
        assert(more =~= tabs);
    }
}

/// A window answers with its context just while it is registered and has editors to show.
pub proof fn law_closed_windows_answer_so(
    style: PathStyle,
    windows: Seq<WindowContext>,
    id: u64,
    editors: Option<Seq<OpenEditor>>,
    active: JsonView,
)
    ensures
        ({
            let answer = context_answer(style, windows, id, editors, active);
            let open = exists|i: int| 0 <= i < windows.len() && (#[trigger] windows[i]).id == id;
            &&& open && editors is Some ==> answer == Ok::<JsonView, Seq<char>>(
                context_view(style, active, editors->Some_0),
            )
            &&& !open || editors is None ==> answer == Err::<JsonView, Seq<char>>(
                "workspace-closed"@,
            )
        }),
{
    lemma_window_at(windows, id);
}

proof fn lemma_window_at(windows: Seq<WindowContext>, id: u64)
    ensures
        match window_at(windows, id) {
            Some(i) => 0 <= i < windows.len() && windows[i].id == id && forall|j: int|
                0 <= j < i ==> (#[trigger] windows[j]).id != id,
            None => forall|j: int| 0 <= j < windows.len() ==> (#[trigger] windows[j]).id != id,
        },
    decreases windows.len(),
{
    if windows.len() > 0 && windows[0].id != id {
        let rest = windows.drop_first();
        lemma_window_at(rest, id);
        match window_at(rest, id) {
            Some(i) => {
                assert forall|j: int| 0 <= j < i + 1 implies (#[trigger] windows[j]).id != id by {
                    if j > 0 {
                        assert(rest[j - 1] == windows[j]);
                    }
                }
            },
            None => {
                assert forall|j: int| 0 <= j < windows.len() implies (#[trigger] windows[j]).id
                    != id by {
                    if j > 0 {
                        assert(rest[j - 1] == windows[j]);
                    }
                }
            },
        }
    }
}

/// A window whose project is local is known from when it is opened, and remembers no editor
/// at first. One whose project is not local is not. Nothing changes for the others.
pub proof fn law_windows_are_opened(windows: Seq<WindowContext>, id: u64, local: bool, other: u64)
    requires
        forall|i: int| 0 <= i < windows.len() ==> (#[trigger] windows[i]).id != id,
        other != id,
    ensures
        ({
            let next = with_window(windows, id, local);
            &&& local ==> remembered_in(next, id) == Some(None::<u64>)
            &&& !local ==> remembered_in(next, id) is None
            &&& remembered_in(next, other) == remembered_in(windows, other)
            &&& next.len() == windows.len() + if local {
                1int
            } else {
                0
            }
            &&& forall|i: int| 0 <= i < windows.len() ==> #[trigger] next[i] == windows[i]
        }),
{
    let next = with_window(windows, id, local);
    lemma_window_at(windows, id);
    lemma_window_at(windows, other);
    lemma_window_at(next, id);
    lemma_window_at(next, other);
    if local {
        assert(next[windows.len() as int].id == id);
    }
    lemma_same_window(windows, next, other);
}

/// Where the windows before agree and no other has the id, the same one is found.
proof fn lemma_same_window(windows: Seq<WindowContext>, next: Seq<WindowContext>, id: u64)
    requires
        windows.len() <= next.len(),
        forall|i: int| 0 <= i < windows.len() ==> (#[trigger] next[i]).id == windows[i].id,
        forall|i: int| windows.len() <= i < next.len() ==> (#[trigger] next[i]).id != id,
    ensures
        window_at(next, id) == window_at(windows, id),
{
    lemma_window_at(windows, id);
    lemma_window_at(next, id);
    match (window_at(windows, id), window_at(next, id)) {
        (Some(i), Some(j)) => {
            assert(next[i].id == id);
            assert(windows[j].id == id);
        },
        (Some(i), None) => {
            assert(next[i].id == id);
        },
        (None, Some(j)) => {
            assert(windows[j].id == id);
        },
        _ => {},
    }
}

/// An editor with a file that becomes active in a window is remembered there, in place of
/// an earlier one; one without a file is not. No other window is touched.
pub proof fn law_active_editors_are_remembered(
    windows: Seq<WindowContext>,
    id: u64,
    editor: u64,
    has_path: bool,
    other: u64,
)
    requires
        other != id,
    ensures
        ({
            let next = with_active(windows, id, editor, has_path);
            let open = exists|i: int| 0 <= i < windows.len() && (#[trigger] windows[i]).id == id;
            &&& open && has_path ==> remembered_in(next, id) == Some(Some(editor))
            &&& !open || !has_path ==> next == windows
            &&& remembered_in(next, other) == remembered_in(windows, other)
            &&& next.len() == windows.len()
            &&& forall|i: int| 0 <= i < next.len() ==> (#[trigger] next[i]).id == windows[i].id
        }),
{
    let next = with_active(windows, id, editor, has_path);
    lemma_window_at(windows, id);
    lemma_same_window(windows, next, id);
    lemma_same_window(windows, next, other);
    lemma_window_at(windows, other);
}

/// A window that is closed is forgotten, and no other one is.
pub proof fn law_windows_are_closed(windows: Seq<WindowContext>, id: u64, i: int)
    requires
        0 <= i < windows.len(),
    ensures
        ({
            let next = without_window(windows, id);
            &&& forall|j: int| 0 <= j < next.len() ==> (#[trigger] next[j]).id != id
            &&& forall|j: int| 0 <= j < next.len() ==> windows.contains(#[trigger] next[j])
            &&& windows[i].id != id ==> next.contains(windows[i])
            &&& remembered_in(next, id) is None
        }),
{
    let keep = |window: WindowContext| window.id != id;
    let next = without_window(windows, id);
    lemma_filter_members(windows, keep);
    assert forall|j: int| 0 <= j < next.len() implies (#[trigger] next[j]).id != id
        && windows.contains(next[j]) by {
        assert(next.contains(next[j]));
    }
    assert(windows.contains(windows[i]));
    lemma_window_at(next, id);
}

/// Only local projects offer roots, and they offer all of them.
pub proof fn law_only_local_projects_take_part(project: Project)
    ensures
        project.local ==> roots_of(Some(project)) == project.roots@,
        !project.local ==> roots_of(Some(project)).len() == 0,
        roots_of(None).len() == 0,
{
}

/// A directory that is matched is answered with null where the question is for discovery,
/// and otherwise leads to the context of the window that was matched. What was not matched
/// is answered with the reason.
pub proof fn law_questions_lead_to_windows(
    found: Result<int, Seq<char>>,
    discovery: bool,
    ids: Seq<u64>,
    plan: QueryPlan,
)
    requires
        is_plan(found, discovery, ids, plan),
    ensures
        found matches Ok(i) ==> {
            &&& discovery ==> (plan matches QueryPlan::Answer(Ok(json)) && json@ is Null)
            &&& !discovery && 0 <= i < ids.len() ==> (plan matches QueryPlan::Context(id) && id
                == ids[i])
            &&& !discovery && !(0 <= i < ids.len()) ==> (plan matches QueryPlan::Answer(
                Err(reason),
            ) && reason@ == "workspace-closed"@)
        },
        found matches Err(error) ==> (plan matches QueryPlan::Answer(Err(reason)) && reason@
            == error),
{
}

/// News replaces what was known of the provider, but for the time of the last success,
/// which only a success replaces.
pub proof fn law_news_is_taken(status: CodexIdeStatusView, news: StatusView, now: u64)
    ensures
        ({
            let next = status.told(news, now);
            &&& next.available == news.available
            &&& next.last_error == news.error
            &&& news.succeeded ==> next.last_successful_request == Some(now)
            &&& !news.succeeded ==> next.last_successful_request
                == status.last_successful_request
        }),
{
}

/// What the status says, from front to back: whether the provider is available; how many
/// whole seconds ago the last success was, where there was one and it does not lie ahead;
/// the last error; and where to look for the rest.
pub proof fn law_status_message(status: CodexIdeStatusView, now: u64)
    ensures
        ({
            let state = if status.available {
                "available"@
            } else {
                "unavailable"@
            };
            let error = match status.last_error {
                Some(error) => " "@ + error,
                None => Seq::empty(),
            };
            let none = "No successful context request yet."@;
            let close = " Use /ide status in Codex to check whether context is enabled."@;
            let said = |last: Seq<char>|
                "Codex IDE provider "@ + state + ". "@ + last + error + close;
            &&& status.last_successful_request is None ==> status.message(now) == said(none)
            &&& status.last_successful_request matches Some(time) ==> {
                &&& time > now ==> status.message(now) == said(none)
                &&& time <= now ==> exists|seconds: Seq<char>| #[trigger]
                    is_seconds(seconds, now - time) && status.message(now) == said(
                        "Last successful request "@ + seconds + "s ago."@,
                    )
            }
        }),
{
    if let Some(time) = status.last_successful_request {
        if time <= now {
            let n = ((now - time) / 1_000_000_000) as nat;
            law_decimal_gives_the_number(n);
            assert(is_seconds(digits(n), now - time));
        }
    }
}

/// Whether a text is a number of nanoseconds in whole seconds, in decimal.
pub open spec fn is_seconds(text: Seq<char>, nanos: int) -> bool {
    let n = number_of(text, 10);
    &&& n * 1_000_000_000 <= nanos < (n + 1) * 1_000_000_000
    &&& text.len() > 0
    &&& forall|i: int| 0 <= i < text.len() ==> '0' <= #[trigger] text[i] <= '9'
}

/// The environment names the home, unless it names nothing; then it is `.codex` below the
/// user's own.
pub proof fn law_home(style: PathStyle, variable: Seq<u8>, user_home: Seq<u8>)
    ensures
        variable.len() > 0 ==> home_of(style, Some(variable), user_home) == variable,
        variable.len() == 0 ==> home_of(style, Some(variable), user_home) == home_of(
            style,
            None,
            user_home,
        ),
        home_of(style, None, user_home) == joined_path(style, user_home, encode_utf8(".codex"@)),
{
}

/// A file is labelled with the last name of its path, as that reads: on Unix with what
/// follows the last slash.
pub proof fn law_labels_on_unix(path: Seq<char>, before: Seq<u8>, name: Seq<u8>)
    requires
        encode_utf8(path) == before.push(SLASH) + name,
        before.len() > 0 ==> before[0] == SLASH,
        forall|i: int| 0 <= i < name.len() ==> #[trigger] name[i] != SLASH,
        name.len() > 0,
        name != seq![DOT],
        name != seq![DOT, DOT],
    ensures
        descriptor_view(PathStyle::Unix, path).at("label"@) == JsonView::Str(
            readable(PathStyle::Unix, name),
        ),
{
    lemma_context_names();
    law_unix_components(before, name);
    let parts = components(PathStyle::Unix, encode_utf8(path));
    assert(parts.last() == ComponentView::Name(name));
}

/// On Windows, with what follows the last separator.
pub proof fn law_labels_on_windows(path: Seq<char>, before: Seq<u8>, sep: u8, name: Seq<u8>)
    requires
        encode_utf8(path) == before.push(sep) + name,
        has_drive(before),
        before.len() > 2 ==> is_slash(before[2]),
        is_slash(sep),
        is_whole(name),
        name.len() > 0,
        name != seq![DOT],
        name != seq![DOT, DOT],
    ensures
        descriptor_view(PathStyle::Windows, path).at("label"@) == JsonView::Str(
            readable(PathStyle::Windows, name),
        ),
{
    lemma_context_names();
    law_windows_drive_components(before, sep, name);
    let parts = components(PathStyle::Windows, encode_utf8(path));
    assert(parts.last() == ComponentView::Name(name));
}

/// A path that ends with a step back, or is a root alone, has an empty label.
pub proof fn law_labels_of_no_name(style: PathStyle, path: Seq<char>)
    ensures
        ({
            let parts = components(style, encode_utf8(path));
            parts.len() == 0 || !(parts.last() is Name) ==> descriptor_view(style, path).at(
                "label"@,
            ) == JsonView::Str(Seq::empty())
        }),
{
    lemma_context_names();
}

/// Every local file has its path, as that reads; untitled and remote ones have none, nor has
/// an editor over several buffers.
pub proof fn law_only_local_files_have_paths(style: PathStyle, singleton: Option<BufferFile>)
    ensures
        file_path(style, singleton) is Some <==> singleton is Some && singleton->Some_0 is Local,
        singleton matches Some(BufferFile::Local(bytes)) ==> file_path(style, singleton) == Some(
            readable(style, bytes@),
        ),
{
}

} // verus!
