//! What the editor keeps for the provider: how the provider is doing, which windows
//! there are, and the context that a window gives.
use crate::editor_context::{
    bounded_text, is_bounded, joined_text, utf16_range, Point, PointUtf16,
};
use crate::json::{empty_object, list_view, Json, JsonView};
use crate::path::{
    components, join, joined_path, parse_path, read_text, readable, views, Component, PathStyle,
};
use crate::routing::{has_best, is_best, is_first_best, is_matched, select, Location};
use crate::sequence::{lemma_filter_members, lemma_filter_step};
use crate::session::{maybe_text, Status, StatusView};
use crate::text::{decimal, digits};
use vstd::prelude::*;
use vstd::slice::slice_to_vec;
use vstd::std_specs::iter::IteratorSpec;
use vstd::utf8::encode_utf8;

verus! {

/// How many tabs a context lists.
pub const MAX_TABS: usize = 128;

/// How many selections a context lists.
pub const MAX_SELECTIONS: usize = 1_024;

/// How many bytes of selected text a context holds.
pub const MAX_SELECTION_BYTES: usize = 200_000;

/// Availability describes the provider's registration, never connected terminals.
/// CLI context is opt-in and requests are short lived; `/ide status` remains the
/// authority for whether context is enabled in a particular CLI session. The time of
/// the last success is in nanoseconds since the Unix epoch.
#[derive(Clone)]
pub struct CodexIdeStatus {
    pub available: bool,
    pub last_successful_request: Option<u64>,
    pub last_error: Option<String>,
}

/// How the provider is doing.
pub struct CodexIdeStatusView {
    pub available: bool,
    pub last_successful_request: Option<u64>,
    pub last_error: Option<Seq<char>>,
}

impl View for CodexIdeStatus {
    type V = CodexIdeStatusView;

    open spec fn view(&self) -> CodexIdeStatusView {
        CodexIdeStatusView {
            available: self.available,
            last_successful_request: self.last_successful_request,
            last_error: maybe_text(self.last_error),
        }
    }
}

impl Default for CodexIdeStatus {
    fn default() -> (status: CodexIdeStatus)
        ensures
            status@ == (CodexIdeStatusView {
                available: false,
                last_successful_request: None,
                last_error: None,
            }),
    {
        CodexIdeStatus { available: false, last_successful_request: None, last_error: None }
    }
}

/// When the last success was, as the message says it. A time that lies ahead counts as
/// none.
pub open spec fn last_success(last: Option<u64>, now: u64) -> Seq<char> {
    match last {
        Some(time) => if time <= now {
            "Last successful request "@ + digits(((now - time) / 1_000_000_000) as nat)
                + "s ago."@
        } else {
            "No successful context request yet."@
        },
        None => "No successful context request yet."@,
    }
}

impl CodexIdeStatusView {
    /// The status after news from the provider. A success stays known until the next.
    pub open spec fn told(self, news: StatusView, now: u64) -> CodexIdeStatusView {
        CodexIdeStatusView {
            available: news.available,
            last_error: news.error,
            last_successful_request: if news.succeeded {
                Some(now)
            } else {
                self.last_successful_request
            },
        }
    }

    /// The message that shows the status.
    pub open spec fn message(self, now: u64) -> Seq<char> {
        "Codex IDE provider "@ + (if self.available {
            "available"@
        } else {
            "unavailable"@
        }) + ". "@ + last_success(self.last_successful_request, now) + (match self.last_error {
            Some(error) => " "@ + error,
            None => Seq::empty(),
        }) + " Use /ide status in Codex to check whether context is enabled."@
    }
}

impl CodexIdeStatus {
    /// Takes news from the provider, with the time in nanoseconds since the epoch.
    pub fn update(&mut self, news: Status, now: u64)
        ensures
            final(self)@ == old(self)@.told(news@, now),
    {
        self.available = news.available;
        self.last_error = news.error;
        if news.succeeded {
            self.last_successful_request = Some(now);
        }
    }

    /// Takes that there will be no more news: the transport has died.
    pub fn stop(&mut self)
        ensures
            final(self)@ == (CodexIdeStatusView {
                available: false,
                last_error: Some("Codex IPC transport stopped unexpectedly"@),
                ..old(self)@
            }),
    {
        self.available = false;
        self.last_error = Some("Codex IPC transport stopped unexpectedly".to_owned());
    }

    /// The message that shows the status, with the time in nanoseconds since the epoch.
    pub fn message(&self, now: u64) -> (text: String)
        ensures
            text@ == self@.message(now),
    {
        let mut text = String::new();
        text.append("Codex IDE provider ");
        if self.available {
            text.append("available");
        } else {
            text.append("unavailable");
        }
        text.append(". ");
        let ghost start = text@;
        let mut told: bool = false;
        if let Some(time) = self.last_successful_request {
            if time <= now {
                text.append("Last successful request ");
                text.append(decimal((now - time) / 1_000_000_000).as_str());
                text.append("s ago.");
                told = true;
            }
        }
        if !told {
            text.append("No successful context request yet.");
        }
        assert(text@ =~= start + last_success(self@.last_successful_request, now));
        if let Some(error) = &self.last_error {
            text.append(" ");
            text.append(error.as_str());
        }
        text.append(" Use /ide status in Codex to check whether context is enabled.");
        assert(text@ =~= self@.message(now));
        text
    }
}

/// A window, and the editor in it that last gave a context. Windows and editors are
/// held by their ids.
#[derive(Clone, Copy, PartialEq, Eq, Structural, Debug)]
pub struct WindowContext {
    pub id: u64,
    pub last_editor: Option<u64>,
}

/// The windows of the editor, in the order in which they were opened.
pub struct Registry {
    windows: Vec<WindowContext>,
}

impl View for Registry {
    type V = Seq<WindowContext>;

    closed spec fn view(&self) -> Seq<WindowContext> {
        self.windows@
    }
}

/// The first window with an id.
pub open spec fn window_at(windows: Seq<WindowContext>, id: u64) -> Option<int>
    decreases windows.len(),
{
    if windows.len() == 0 {
        None
    } else if windows[0].id == id {
        Some(0)
    } else {
        match window_at(windows.drop_first(), id) {
            Some(i) => Some(i + 1),
            None => None,
        }
    }
}

/// The windows once one more was opened. Only local projects take part.
pub open spec fn with_window(windows: Seq<WindowContext>, id: u64, local: bool) -> Seq<
    WindowContext,
> {
    if local {
        windows.push(WindowContext { id, last_editor: None })
    } else {
        windows
    }
}

/// The windows once an editor has become the active item of one. It is remembered where it
/// has a file.
pub open spec fn with_active(
    windows: Seq<WindowContext>,
    id: u64,
    editor: u64,
    has_path: bool,
) -> Seq<WindowContext> {
    match window_at(windows, id) {
        Some(i) if has_path => windows.update(i, WindowContext { id, last_editor: Some(editor) }),
        _ => windows,
    }
}

/// The windows once one was closed.
pub open spec fn without_window(windows: Seq<WindowContext>, id: u64) -> Seq<WindowContext> {
    windows.filter(|window: WindowContext| window.id != id)
}

/// The editor that a window remembers; nothing where there is no such window.
pub open spec fn remembered_in(windows: Seq<WindowContext>, id: u64) -> Option<Option<u64>> {
    match window_at(windows, id) {
        Some(i) => Some(windows[i].last_editor),
        None => None,
    }
}

impl Registry {
    /// A registry without windows.
    pub fn new() -> (registry: Registry)
        ensures
            registry@ == Seq::<WindowContext>::empty(),
    {
        Registry { windows: Vec::new() }
    }

    /// Takes that a window was opened. Only local projects take part.
    pub fn opened(&mut self, id: u64, local: bool)
        ensures
            final(self)@ == with_window(old(self)@, id, local),
    {
        if local {
            self.windows.push(WindowContext { id, last_editor: None });
        }
    }

    /// The position of a window.
    fn find(&self, id: u64) -> (at: Option<usize>)
        ensures
            match at {
                Some(i) => window_at(self@, id) == Some(i as int) && i < self@.len()
                    && self@[i as int].id == id,
                None => window_at(self@, id) is None,
            },
    {
        let n: usize = self.windows.len();
        let ghost all = self.windows@;
        assert(all.skip(0) =~= all);
        for i in 0..n
            invariant
                n == self.windows@.len(),
                all == self.windows@,
                window_at(all, id) == match window_at(all.skip(i as int), id) {
                    Some(j) => Some(i + j),
                    None => None,
                },
        {
            let ghost rest = all.skip(i as int);
            assert(rest[0] == all[i as int]);
            assert(rest.drop_first() =~= all.skip(i + 1));
            if self.windows[i].id == id {
                return Some(i);
            }
        }
        None
    }

    /// Takes that an editor has become the active item of a window. It is remembered
    /// where it has a file.
    pub fn activated(&mut self, id: u64, editor: u64, has_path: bool)
        ensures
            final(self)@ == with_active(old(self)@, id, editor, has_path),
    {
        if has_path {
            if let Some(i) = self.find(id) {
                self.windows.set(i, WindowContext { id, last_editor: Some(editor) });
            }
        }
    }

    /// Takes that a window was closed.
    pub fn released(&mut self, id: u64)
        ensures
            final(self)@ == without_window(old(self)@, id),
    {
        let ghost all = self.windows@;
        let ghost keep = |window: WindowContext| window.id != id;
        let mut kept: Vec<WindowContext> = Vec::new();
        let n: usize = self.windows.len();
        assert(kept@ =~= all.take(0).filter(keep)) by {
            reveal(Seq::filter);
        }
        for i in 0..n
            invariant
                n == self.windows@.len(),
                all == self.windows@,
                keep == (|window: WindowContext| window.id != id),
                kept@ == all.take(i as int).filter(keep),
        {
            proof {
                lemma_filter_step(all, keep, i as int);
            }
            let window = self.windows[i];
            if window.id != id {
                kept.push(window);
            }
        }
        assert(all.take(n as int) =~= all);
        self.windows = kept;
    }

    /// How many windows there are.
    pub fn len(&self) -> (n: usize)
        ensures
            n == self@.len(),
    {
        self.windows.len()
    }

    /// The id of a window.
    pub fn id(&self, i: usize) -> (id: u64)
        requires
            i < self@.len(),
        ensures
            id == self@[i as int].id,
    {
        self.windows[i].id
    }

    /// The editor that a window remembers.
    pub fn remembered(&self, id: u64) -> (editor: Option<Option<u64>>)
        ensures
            editor == remembered_in(self@, id),
    {
        match self.find(id) {
            Some(i) => Some(self.windows[i].last_editor),
            None => None,
        }
    }
}

/// A project as a window has it.
pub struct Project {
    pub local: bool,
    pub roots: Vec<Location>,
}

/// The roots that a window offers.
pub open spec fn roots_of(project: Option<Project>) -> Seq<Location> {
    match project {
        Some(project) if project.local => project.roots@,
        _ => Seq::empty(),
    }
}

/// The roots that a window offers: none once it is closed, and none of a project that
/// is not local.
pub fn offered_roots(project: Option<Project>) -> (roots: Vec<Location>)
    ensures
        roots@ == roots_of(project),
{
    match project {
        Some(project) => if project.local {
            project.roots
        } else {
            Vec::new()
        },
        None => Vec::new(),
    }
}

/// What a question to the editor leads to.
pub enum QueryPlan {
    /// It is answered at once.
    Answer(Result<Json, &'static str>),
    /// It is answered with the context of a window.
    Context(u64),
}

/// What a question to the editor leads to, once the matching of its directory has come
/// to something.
pub open spec fn is_plan(
    selected: Result<int, Seq<char>>,
    discovery: bool,
    ids: Seq<u64>,
    plan: QueryPlan,
) -> bool {
    match selected {
        Ok(_) if discovery => plan matches QueryPlan::Answer(Ok(answer)) && answer@
            == JsonView::Null,
        Ok(i) => if 0 <= i < ids.len() {
            plan == QueryPlan::Context(ids[i])
        } else {
            plan matches QueryPlan::Answer(Err(reason)) && reason@ == "workspace-closed"@
        },
        Err(error) => plan matches QueryPlan::Answer(Err(reason)) && reason@ == error,
    }
}

/// Plans the answer to a question, once the matching of its directory has come to
/// something.
pub fn plan_query(selected: Result<usize, &'static str>, discovery: bool, ids: &Vec<u64>) -> (plan:
    QueryPlan)
    ensures
        is_plan(
            match selected {
                Ok(i) => Ok(i as int),
                Err(reason) => Err(reason@),
            },
            discovery,
            ids@,
            plan,
        ),
{
    match selected {
        Ok(i) => if discovery {
            QueryPlan::Answer(Ok(Json::Null))
        } else if i < ids.len() {
            QueryPlan::Context(ids[i])
        } else {
            QueryPlan::Answer(Err("workspace-closed"))
        },
        Err(reason) => QueryPlan::Answer(Err(reason)),
    }
}

/// Matches the directory of a question against the roots of all windows, and plans the
/// answer. `ids` are the windows that `workspaces` are the roots of.
pub fn match_query(
    style: PathStyle,
    directory: &Location,
    discovery: bool,
    ids: &Vec<u64>,
    workspaces: &Vec<Vec<Location>>,
) -> (plan: QueryPlan)
    ensures
        exists|found: Result<int, Seq<char>>| #[trigger]
            is_matched(style, directory@, workspaces@, found) && is_plan(
                found,
                discovery,
                ids@,
                plan,
            ),
{
    let selected: Result<usize, &'static str> = match select(
        style,
        directory,
        workspaces.as_slice(),
    ) {
        Ok((w, root)) => {
            let ghost r = choose|r: int| #[trigger]
                is_first_best(style, directory@, workspaces@, w as int, r) && *root
                    == workspaces@[w as int]@[r];
            assert(is_best(style, directory@, workspaces@, w as int, r));
            assert(has_best(style, directory@, workspaces@, w as int));
            Ok(w)
        },
        Err(reason) => Err(reason),
    };
    let ghost found: Result<int, Seq<char>> = match selected {
        Ok(w) => Ok(w as int),
        Err(reason) => Err(reason@),
    };
    assert(is_matched(style, directory@, workspaces@, found));
    plan_query(selected, discovery, ids)
}

/// An editor that is open in a window, with the path of its file where it has one.
pub struct OpenEditor {
    pub id: u64,
    pub path: Option<String>,
}

/// The path of the first of several editors that has an id, if it has a file.
pub open spec fn path_at(editors: Seq<OpenEditor>, id: u64) -> Option<Seq<char>>
    decreases editors.len(),
{
    if editors.len() == 0 {
        None
    } else if editors[0].id == id {
        maybe_text(editors[0].path)
    } else {
        path_at(editors.drop_first(), id)
    }
}

/// Which editor gives the context, with the path of its file: the active one where it
/// has a file, and otherwise the remembered one where it is still open and has one.
pub open spec fn choice(
    active: Option<OpenEditor>,
    remembered: Option<u64>,
    editors: Seq<OpenEditor>,
) -> Option<(u64, Seq<char>)> {
    match active {
        Some(editor) if editor.path is Some => Some((editor.id, editor.path->Some_0@)),
        _ => match remembered {
            Some(id) => match path_at(editors, id) {
                Some(path) => Some((id, path)),
                None => None,
            },
            None => None,
        },
    }
}

/// Chooses the editor that gives the context, with the path of its file.
pub fn choose_editor(
    active: &Option<OpenEditor>,
    remembered: Option<u64>,
    editors: &Vec<OpenEditor>,
) -> (chosen: Option<(u64, String)>)
    ensures
        choice(*active, remembered, editors@) == match chosen {
            Some((id, path)) => Some((id, path@)),
            None => None,
        },
{
    if let Some(editor) = active {
        if let Some(path) = &editor.path {
            return Some((editor.id, path.clone()));
        }
    }
    let id: u64 = match remembered {
        Some(id) => id,
        None => return None,
    };
    let n: usize = editors.len();
    let ghost all = editors@;
    assert(all.skip(0) =~= all);
    for i in 0..n
        invariant
            n == editors@.len(),
            all == editors@,
            remembered == Some(id),
            !(*active matches Some(editor) && editor.path is Some),
            path_at(all, id) == path_at(all.skip(i as int), id),
    {
        let ghost rest = all.skip(i as int);
        assert(rest[0] == all[i as int]);
        assert(rest.drop_first() =~= all.skip(i + 1));
        if editors[i].id == id {
            return match &editors[i].path {
                Some(path) => Some((id, path.clone())),
                None => None,
            };
        }
    }
    None
}

/// What a file is called: the last name of its path, if that ends with one.
pub open spec fn label(style: PathStyle, path: Seq<char>) -> Seq<char> {
    let parts = components(style, encode_utf8(path));
    if parts.len() > 0 && parts.last() is Name {
        readable(style, parts.last()->Name_0)
    } else {
        Seq::empty()
    }
}

/// How a file is described. Absolute native paths remain correct when the CLI runs in a
/// nested directory.
pub open spec fn descriptor_view(style: PathStyle, path: Seq<char>) -> JsonView {
    empty_object().with("label"@, JsonView::Str(label(style, path))).with(
        "path"@,
        JsonView::Str(path),
    ).with("fsPath"@, JsonView::Str(path))
}

/// How a file is described.
pub fn descriptor(style: PathStyle, path: &str) -> (json: Json)
    ensures
        json@ == descriptor_view(style, path@),
{
    let parts = parse_path(style, path.as_bytes());
    let n: usize = parts.len();
    let mut name = String::new();
    if n > 0 {
        assert(views(parts@).last() == parts@.last()@);
        if let Component::Name(bytes) = &parts[n - 1] {
            name = read_text(style, bytes.as_slice());
        }
    }
    assert(name@ =~= label(style, path@));
    let mut json = Json::object();
    json.set("label", Json::Str(name));
    json.set("path", Json::text(path));
    json.set("fsPath", Json::text(path));
    json
}

/// A place in a file as the protocol has it.
pub open spec fn place_view(point: PointUtf16) -> JsonView {
    empty_object().with("line"@, JsonView::Int(point.row as int)).with(
        "character"@,
        JsonView::Int(point.column as int),
    )
}

/// A range in a file as the protocol has it.
pub open spec fn range_view(start: PointUtf16, end: PointUtf16) -> JsonView {
    empty_object().with("start"@, place_view(start)).with("end"@, place_view(end))
}

fn place(point: PointUtf16) -> (json: Json)
    ensures
        json@ == place_view(point),
{
    let mut json = Json::object();
    json.set("line", Json::integer(point.row as u64));
    json.set("character", Json::integer(point.column as u64));
    json
}

fn range_json(start: &Point, end: &Point) -> (json: Json)
    requires
        start.wf(),
        end.wf(),
    ensures
        json@ == range_view(start.in_utf16(), end.in_utf16()),
{
    let (from, to) = utf16_range(start, end);
    let mut json = Json::object();
    json.set("start", place(from));
    json.set("end", place(to));
    json
}

/// The first of several selections, as many as a context lists.
pub open spec fn listed_selections(selections: Seq<(Point, Point)>) -> Seq<JsonView> {
    Seq::new(
        if selections.len() <= MAX_SELECTIONS {
            selections.len()
        } else {
            MAX_SELECTIONS as nat
        },
        |i: int| range_view(selections[i].0.in_utf16(), selections[i].1.in_utf16()),
    )
}

/// The file that an editor gives: what it is called, the newest selection, the others,
/// and as much of the selected text as a context holds.
pub open spec fn file_view(
    style: PathStyle,
    path: Seq<char>,
    newest: JsonView,
    selections: Seq<JsonView>,
    text: Seq<char>,
) -> JsonView {
    descriptor_view(style, path).with("selection"@, newest).with(
        "selections"@,
        JsonView::List(selections),
    ).with("activeSelectionContent"@, JsonView::Str(text))
}

/// Whether a document is the file that an editor gives, of which `selected` is the selected
/// text.
pub open spec fn is_active_file(
    style: PathStyle,
    path: Seq<char>,
    newest: (Point, Point),
    selections: Seq<(Point, Point)>,
    selected: Seq<char>,
    file: JsonView,
) -> bool {
    exists|text: Seq<char>, cut: bool| #[trigger]
        is_bounded(selected, MAX_SELECTION_BYTES, text, cut) && file == file_view(
            style,
            path,
            range_view(newest.0.in_utf16(), newest.1.in_utf16()),
            listed_selections(selections),
            text,
        )
}

/// The file that an editor gives. `chunks` are the pieces of the selected text.
pub fn active_file<'a, 'b, I: Iterator<Item = &'a str>>(
    style: PathStyle,
    path: &str,
    newest: &(Point<'b>, Point<'b>),
    selections: &Vec<(Point<'b>, Point<'b>)>,
    chunks: I,
) -> (file: Json)
    requires
        newest.0.wf(),
        newest.1.wf(),
        forall|i: int|
            0 <= i < selections@.len() ==> (#[trigger] selections@[i]).0.wf()
                && selections@[i].1.wf(),
        chunks.obeys_prophetic_iter_laws(),
        chunks.decrease() is Some,
    ensures
        is_active_file(
            style,
            path@,
            *newest,
            selections@,
            joined_text(chunks.remaining()),
            file@,
        ),
{
    let mut ranges: Vec<Json> = Vec::new();
    let count: usize = if selections.len() <= MAX_SELECTIONS {
        selections.len()
    } else {
        MAX_SELECTIONS
    };
    for i in 0..count
        invariant
            count <= selections@.len(),
            ranges@.len() == i,
            forall|j: int|
                0 <= j < selections@.len() ==> (#[trigger] selections@[j]).0.wf()
                    && selections@[j].1.wf(),
            forall|j: int|
                0 <= j < i ==> (#[trigger] ranges@[j])@ == range_view(
                    selections@[j].0.in_utf16(),
                    selections@[j].1.in_utf16(),
                ),
    {
        let selection = &selections[i];
        ranges.push(range_json(&selection.0, &selection.1));
    }
    assert(list_view(ranges@) =~= listed_selections(selections@));
    let mut file = descriptor(style, path);
    file.set("selection", range_json(&newest.0, &newest.1));
    file.set("selections", Json::list(ranges));
    let (text, cut) = bounded_text(chunks, MAX_SELECTION_BYTES);
    let ghost view = text@;
    file.set("activeSelectionContent", Json::Str(text));
    assert(is_bounded(joined_text(chunks.remaining()), MAX_SELECTION_BYTES, view, cut));
    file
}

/// The paths of the editors that have files.
pub open spec fn paths_of(editors: Seq<OpenEditor>) -> Seq<Seq<char>>
    decreases editors.len(),
{
    if editors.len() == 0 {
        Seq::empty()
    } else {
        let before = paths_of(editors.drop_last());
        match editors.last().path {
            Some(path) => before.push(path@),
            None => before,
        }
    }
}

/// The first of several tabs, as many as a context lists.
pub open spec fn listed_tabs(style: PathStyle, paths: Seq<Seq<char>>) -> Seq<JsonView> {
    Seq::new(
        if paths.len() <= MAX_TABS {
            paths.len()
        } else {
            MAX_TABS as nat
        },
        |i: int| descriptor_view(style, paths[i]),
    )
}

/// The context of a window.
pub open spec fn context_view(
    style: PathStyle,
    active: JsonView,
    editors: Seq<OpenEditor>,
) -> JsonView {
    empty_object().with("activeFile"@, active).with(
        "openTabs"@,
        JsonView::List(listed_tabs(style, paths_of(editors))),
    )
}

/// An answer as a mathematical value.
pub open spec fn answer_view(answer: Result<Json, &'static str>) -> Result<JsonView, Seq<char>> {
    match answer {
        Ok(json) => Ok(json@),
        Err(reason) => Err(reason@),
    }
}

/// What a window answers: its context while it is registered and has editors to show.
pub open spec fn context_answer(
    style: PathStyle,
    windows: Seq<WindowContext>,
    id: u64,
    editors: Option<Seq<OpenEditor>>,
    active: JsonView,
) -> Result<JsonView, Seq<char>> {
    match (window_at(windows, id), editors) {
        (Some(_), Some(editors)) => Ok(context_view(style, active, editors)),
        _ => Err("workspace-closed"@),
    }
}

/// The context of a window: the file that its chosen editor gives, if there is one, and
/// its tabs. The window may have closed since it was chosen: then it is not registered any
/// more, or has no editors to show.
pub fn context(
    style: PathStyle,
    registry: &Registry,
    id: u64,
    editors: &Option<Vec<OpenEditor>>,
    active: Option<Json>,
) -> (result: Result<Json, &'static str>)
    ensures
        answer_view(result) == context_answer(
            style,
            registry@,
            id,
            match editors {
                Some(editors) => Some(editors@),
                None => None,
            },
            match active {
                Some(file) => file@,
                None => JsonView::Null,
            },
        ),
{
    if registry.find(id).is_none() {
        return Err("workspace-closed");
    }
    match editors {
        Some(editors) => Ok(context_of(style, active, editors)),
        None => Err("workspace-closed"),
    }
}

/// The context that a file and the editors of a window make up.
fn context_of(style: PathStyle, active: Option<Json>, editors: &Vec<OpenEditor>) -> (json: Json)
    ensures
        json@ == context_view(
            style,
            match active {
                Some(file) => file@,
                None => JsonView::Null,
            },
            editors@,
        ),
{
    let mut tabs: Vec<Json> = Vec::new();
    let n: usize = editors.len();
    let mut i: usize = 0;
    assert(editors@.take(0) =~= Seq::empty());
    while i < n && tabs.len() < MAX_TABS
        invariant
            i <= n == editors@.len(),
            tabs@.len() <= MAX_TABS,
            list_view(tabs@) == listed_tabs(style, paths_of(editors@.take(i as int))),
            tabs@.len() == paths_of(editors@.take(i as int)).len(),
        decreases n - i,
    {
        let ghost some = editors@.take(i as int);
        let ghost next = editors@.take(i + 1);
        assert(next.drop_last() =~= some);
        if let Some(path) = &editors[i].path {
            let ghost before = tabs@;
            tabs.push(descriptor(style, path.as_str()));
            assert(list_view(tabs@) =~= listed_tabs(style, paths_of(next))) by {
                assert(forall|j: int|
                    0 <= j < before.len() ==> list_view(before)[j] == (#[trigger] tabs@[j])@);
                assert(paths_of(next) == paths_of(some).push(path@));
            }
        }
        i = i + 1;
    }
    proof {
        lemma_paths_grow(editors@, i as int);
        assert(editors@.take(n as int) =~= editors@);
        assert(listed_tabs(style, paths_of(editors@)) =~= list_view(tabs@));
    }
    let mut json = Json::object();
    match active {
        Some(file) => json.set("activeFile", file),
        None => json.set("activeFile", Json::Null),
    }
    json.set("openTabs", Json::list(tabs));
    json
}

/// More editors add paths at the end.
proof fn lemma_paths_grow(editors: Seq<OpenEditor>, n: int)
    requires
        0 <= n <= editors.len(),
    ensures
        paths_of(editors.take(n)).len() <= paths_of(editors).len(),
        paths_of(editors).take(paths_of(editors.take(n)).len() as int) == paths_of(
            editors.take(n),
        ),
    decreases editors.len(),
{
    let own = paths_of(editors.take(n));
    if n == editors.len() {
        assert(editors.take(n) =~= editors);
        assert(own.take(own.len() as int) =~= own);
    } else {
        let before = editors.drop_last();
        lemma_paths_grow(before, n);
        assert(before.take(n) =~= editors.take(n));
        let shorter = paths_of(before);
        assert(paths_of(editors).take(own.len() as int) =~= shorter.take(own.len() as int));
    }
}

/// Where the CLI keeps its things: where the environment says so, and otherwise below the
/// user's home directory.
pub open spec fn home_of(style: PathStyle, variable: Option<Seq<u8>>, user_home: Seq<u8>) -> Seq<
    u8,
> {
    match variable {
        Some(text) if text.len() > 0 => text,
        _ => joined_path(style, user_home, encode_utf8(".codex"@)),
    }
}

/// Where the CLI keeps its things: where the environment says so, and otherwise below the
/// user's home directory.
pub fn codex_home(style: PathStyle, variable: Option<&[u8]>, user_home: &[u8]) -> (home: Vec<u8>)
    ensures
        home@ == home_of(
            style,
            match variable {
                Some(text) => Some(text@),
                None => None,
            },
            user_home@,
        ),
{
    if let Some(text) = variable {
        if text.len() > 0 {
            return slice_to_vec(text);
        }
    }
    join(style, user_home, ".codex")
}

/// However many editors and selections there are, a context lists no more than a set
/// number of tabs and of ranges: the first ones, in order.
pub proof fn law_context_is_bounded(
    style: PathStyle,
    active: JsonView,
    editors: Seq<OpenEditor>,
    selections: Seq<(Point, Point)>,
)
    ensures
        context_view(style, active, editors).at("openTabs"@) matches JsonView::List(tabs) && {
            &&& tabs.len() <= MAX_TABS
            &&& paths_of(editors).len() <= MAX_TABS ==> tabs.len() == paths_of(editors).len()
            &&& forall|i: int|
                0 <= i < tabs.len() ==> #[trigger] tabs[i] == descriptor_view(
                    style,
                    paths_of(editors)[i],
                )
        },
        context_view(style, active, editors).at("activeFile"@) == active,
        listed_selections(selections).len() <= MAX_SELECTIONS,
{
    reveal_strlit("activeFile");
    reveal_strlit("openTabs");
    assert("activeFile"@.len() == 10);
    assert("openTabs"@.len() == 8);
}

/// A window that was closed is not known any more, and its editor is not remembered.
pub proof fn law_closed_windows_are_forgotten(windows: Seq<WindowContext>, id: u64)
    ensures
        window_at(without_window(windows, id), id) is None,
        remembered_in(without_window(windows, id), id) is None,
{
    let keep = |window: WindowContext| window.id != id;
    let left = windows.filter(keep);
    lemma_filter_members(windows, keep);
    assert forall|i: int| 0 <= i < left.len() implies (#[trigger] left[i]).id != id by {
        assert(left.contains(left[i]));
    }
    lemma_window_missing(left, id);
}

proof fn lemma_window_missing(windows: Seq<WindowContext>, id: u64)
    requires
        forall|i: int| 0 <= i < windows.len() ==> (#[trigger] windows[i]).id != id,
    ensures
        window_at(windows, id) is None,
    decreases windows.len(),
{
    if windows.len() > 0 {
        let rest = windows.drop_first();
        assert forall|i: int| 0 <= i < rest.len() implies (#[trigger] rest[i]).id != id by {
            assert(rest[i] == windows[i + 1]);
        }
        lemma_window_missing(rest, id);
    }
}

} // verus!
