use codex_ide::codex::{
    active_file, choose_editor, codex_home, context, descriptor, match_query, offered_roots,
    plan_query, CodexIdeStatus, OpenEditor, Project, QueryPlan, Registry, MAX_SELECTIONS,
    MAX_SELECTION_BYTES, MAX_TABS,
};
use codex_ide::editor_context::Point;
use codex_ide::encoding::print;
use codex_ide::json::Json;
use codex_ide::path::PathStyle;
use codex_ide::routing::Location;
use codex_ide::session::Status;

fn text(json: &Json) -> String {
    String::from_utf8(print(json).unwrap()).unwrap()
}

fn editor(id: u64, path: Option<&str>) -> OpenEditor {
    OpenEditor {
        id,
        path: path.map(str::to_owned),
    }
}

/// The context of a window that is open.
fn open_context(file: Option<Json>, editors: Vec<OpenEditor>) -> Json {
    let mut registry = Registry::new();
    registry.opened(7, true);
    context(PathStyle::Unix, &registry, 7, &Some(editors), file)
        .ok()
        .unwrap()
}

fn at(path: &str) -> Location {
    Location {
        path: path.as_bytes().to_vec(),
        resolved: None,
    }
}

#[test]
fn the_status_tells_what_happened() {
    let mut status = CodexIdeStatus::default();
    assert_eq!(
        status.message(0),
        "Codex IDE provider unavailable. No successful context request yet. Use /ide status in Codex to check whether context is enabled."
    );
    let second = 1_000_000_000;
    let news = |error: Option<&str>, succeeded| Status {
        available: true,
        error: error.map(str::to_owned),
        succeeded,
    };
    status.update(news(None, true), 100 * second);
    assert_eq!(status.last_successful_request, Some(100 * second));
    status.update(news(Some("ambiguous-workspace"), false), 110 * second);
    assert_eq!(status.last_successful_request, Some(100 * second));
    assert_eq!(
        status.message(112 * second + second / 2),
        "Codex IDE provider available. Last successful request 12s ago. ambiguous-workspace Use /ide status in Codex to check whether context is enabled."
    );
    // A clock that was set back.
    assert!(status.message(99 * second).contains("No successful context request yet."));
    let before = status.clone();
    status.stop();
    assert!(before.available);
    assert!(!status.available);
    assert_eq!(
        status.last_error.as_deref(),
        Some("Codex IPC transport stopped unexpectedly")
    );
    assert_eq!(status.last_successful_request, Some(100 * second));
}

#[test]
fn windows_come_and_go() {
    let mut registry = Registry::new();
    registry.opened(1, true);
    registry.opened(2, false);
    registry.opened(3, true);
    assert_eq!(registry.len(), 2);
    assert_eq!((registry.id(0), registry.id(1)), (1, 3));
    assert_eq!(registry.remembered(3), Some(None));
    registry.activated(3, 30, true);
    registry.activated(3, 31, false);
    registry.activated(2, 20, true);
    assert_eq!(registry.remembered(3), Some(Some(30)));
    assert_eq!(registry.remembered(1), Some(None));
    assert_eq!(registry.remembered(2), None);
    registry.released(3);
    assert_eq!(registry.len(), 1);
    assert_eq!(registry.remembered(3), None);
}

#[test]
fn only_open_local_projects_offer_roots() {
    let project = |local| {
        Some(Project {
            local,
            roots: vec![at("/a"), at("/b")],
        })
    };
    assert_eq!(offered_roots(project(true)).len(), 2);
    assert!(offered_roots(project(false)).is_empty());
    assert!(offered_roots(None).is_empty());
}

#[test]
fn questions_are_planned() {
    let ids = vec![7, 8];
    assert!(matches!(
        plan_query(Ok(1), false, &ids),
        QueryPlan::Context(8)
    ));
    assert!(matches!(
        plan_query(Ok(1), true, &ids),
        QueryPlan::Answer(Ok(Json::Null))
    ));
    assert!(matches!(
        plan_query(Ok(2), false, &ids),
        QueryPlan::Answer(Err("workspace-closed"))
    ));
    assert!(matches!(
        plan_query(Err("no-client-found"), true, &ids),
        QueryPlan::Answer(Err("no-client-found"))
    ));
    let roots = vec![vec![at("/a")], vec![at("/a/b")]];
    let style = PathStyle::Unix;
    assert!(matches!(
        match_query(style, &at("/a/b/c"), false, &ids, &roots),
        QueryPlan::Context(8)
    ));
    assert!(matches!(
        match_query(style, &at("/c"), false, &ids, &roots),
        QueryPlan::Answer(Err("no-client-found"))
    ));
    assert!(matches!(
        match_query(style, &at("c"), true, &ids, &roots),
        QueryPlan::Answer(Err("invalid-workspace-root"))
    ));
}

#[test]
fn the_active_editor_goes_before_the_remembered_one() {
    let open = vec![editor(1, Some("/a")), editor(2, None), editor(4, Some("/d"))];
    let active = Some(editor(1, Some("/a")));
    let chosen = |active: &Option<OpenEditor>, remembered| choose_editor(active, remembered, &open);
    assert_eq!(chosen(&active, Some(4)), Some((1, "/a".to_owned())));
    let untitled = Some(editor(2, None));
    assert_eq!(chosen(&untitled, Some(4)), Some((4, "/d".to_owned())));
    assert_eq!(chosen(&untitled, Some(3)), None);
    assert_eq!(chosen(&None, Some(2)), None);
    assert_eq!(chosen(&None, None), None);
}

#[test]
fn files_are_described() {
    assert_eq!(
        text(&descriptor(PathStyle::Unix, "/a/b.rs")),
        r#"{"fsPath":"/a/b.rs","label":"b.rs","path":"/a/b.rs"}"#
    );
    assert_eq!(
        text(&descriptor(PathStyle::Unix, "/")),
        r#"{"fsPath":"/","label":"","path":"/"}"#
    );
    assert_eq!(
        descriptor(PathStyle::Unix, "/a/..").str_at("label"),
        Some("")
    );
    assert_eq!(
        descriptor(PathStyle::Windows, r"C:\a\b.rs").str_at("label"),
        Some("b.rs")
    );
    assert_eq!(
        descriptor(PathStyle::Unix, r"C:\a\b.rs").str_at("label"),
        Some(r"C:\a\b.rs")
    );
}

#[test]
fn an_empty_workspace_still_has_a_context() {
    assert_eq!(
        text(&open_context(None, vec![])),
        r#"{"activeFile":null,"openTabs":[]}"#
    );
}

#[test]
fn a_context_holds_selections_and_tabs() {
    let line = "é😀世界";
    let place = |column| Point { row: 4, line, column };
    let newest = (place(6), place(12));
    let selections = vec![(place(0), place(2)), (place(6), place(12))];
    let file = active_file(
        PathStyle::Unix,
        "/a/b.rs",
        &newest,
        &selections,
        ["世", "界"].into_iter(),
    );
    let editors = vec![editor(1, Some("/a/b.rs")), editor(2, None), editor(3, Some("/c"))];
    assert_eq!(
        text(&open_context(Some(file), editors)),
        concat_all(&[
            r#"{"activeFile":{"activeSelectionContent":"世界","fsPath":"/a/b.rs","label":"b.rs","path":"/a/b.rs","#,
            r#""selection":{"end":{"character":5,"line":4},"start":{"character":3,"line":4}},"#,
            r#""selections":[{"end":{"character":1,"line":4},"start":{"character":0,"line":4}},"#,
            r#"{"end":{"character":5,"line":4},"start":{"character":3,"line":4}}]},"#,
            r#""openTabs":[{"fsPath":"/a/b.rs","label":"b.rs","path":"/a/b.rs"},"#,
            r#"{"fsPath":"/c","label":"c","path":"/c"}]}"#,
        ])
    );
}

fn concat_all(parts: &[&str]) -> String {
    parts.join("")
}

#[test]
fn a_context_is_bounded() {
    let place = |row| Point { row, line: "x", column: 0 };
    let selections: Vec<_> = (0..2_000).map(|row| (place(row), place(row))).collect();
    let long = "x".repeat(MAX_SELECTION_BYTES - 1);
    let file = active_file(
        PathStyle::Unix,
        "/a",
        &(place(0), place(0)),
        &selections,
        [long.as_str(), "é"].into_iter(),
    );
    assert_eq!(
        file.str_at("activeSelectionContent").unwrap().len(),
        MAX_SELECTION_BYTES - 1
    );
    match file.get("selections") {
        Some(Json::List(ranges)) => assert_eq!(ranges.len(), MAX_SELECTIONS),
        _ => panic!("no list"),
    }
    let editors: Vec<_> = (0..300)
        .map(|id| editor(id, if id % 2 == 0 { Some("/a") } else { None }))
        .collect();
    match open_context(None, editors).get("openTabs") {
        Some(Json::List(tabs)) => assert_eq!(tabs.len(), MAX_TABS),
        _ => panic!("no list"),
    }
}

#[test]
fn a_closed_window_has_no_context() {
    let mut registry = Registry::new();
    registry.opened(7, true);
    let answer = |registry: &Registry, id, editors| {
        context(PathStyle::Unix, registry, id, &editors, None)
            .map(|json| text(&json))
            .map_err(str::to_owned)
    };
    let empty = r#"{"activeFile":null,"openTabs":[]}"#.to_owned();
    let closed = "workspace-closed".to_owned();
    assert_eq!(answer(&registry, 7, Some(vec![])), Ok(empty));
    assert_eq!(answer(&registry, 8, Some(vec![])), Err(closed.clone()));
    assert_eq!(answer(&registry, 7, None), Err(closed.clone()));
    registry.released(7);
    assert_eq!(answer(&registry, 7, Some(vec![])), Err(closed));
}

#[test]
fn the_environment_may_name_the_home() {
    let unix = |variable: Option<&[u8]>, home: &[u8]| codex_home(PathStyle::Unix, variable, home);
    assert_eq!(unix(Some(b"/x"), b"/home/me"), b"/x");
    assert_eq!(unix(Some(b""), b"/home/me"), b"/home/me/.codex");
    assert_eq!(unix(None, b"/home/me"), b"/home/me/.codex");
    assert_eq!(unix(None, b"/"), b"/.codex");
    assert_eq!(unix(None, br"C:\u"), br"C:\u/.codex");
}

#[test]
fn the_home_on_windows() {
    let windows = |home: &[u8]| codex_home(PathStyle::Windows, None, home);
    assert_eq!(
        codex_home(PathStyle::Windows, Some(br"D:\x"), br"C:\u"),
        br"D:\x"
    );
    assert_eq!(windows(br"C:\u"), br"C:\u\.codex");
    assert_eq!(windows(br"C:\u/"), br"C:\u/.codex");
    assert_eq!(windows(br"C:\"), br"C:\.codex");
    assert_eq!(windows(b"C:"), b"C:.codex");
    assert_eq!(windows(b""), b".codex");
    assert_eq!(windows(br"\\server\share"), br"\\server\share\.codex");
    assert_eq!(windows(br"\\?\C:\u"), br"\\?\C:\u\.codex");
    assert_eq!(windows(br"\\?\c:"), br"\\?\c:\.codex");
    assert_eq!(windows(br"\\?\C:\u\\v\"), br"\\?\C:\u\v\.codex");
}
