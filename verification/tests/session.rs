use codex_ide::encoding::{parse, print};
use codex_ide::json::Json;
use codex_ide::path::PathStyle;
use codex_ide::router::Router;
use codex_ide::session::{
    query_directory, query_outcome, session_over, validate_home, QueryReply, Session,
    SessionAction,
};

fn json(text: &str) -> Json {
    parse(text.as_bytes()).unwrap()
}

fn text(json: &Json) -> String {
    String::from_utf8(print(json).unwrap()).unwrap()
}

fn show(actions: &[SessionAction]) -> Vec<String> {
    actions
        .iter()
        .map(|action| match action {
            SessionAction::Send(message) => format!("send {}", text(message)),
            SessionAction::Tell(status) => format!(
                "tell {} {} {}",
                status.available,
                status.error.as_deref().unwrap_or("-"),
                status.succeeded
            ),
            SessionAction::Ask(directory, discovery) => format!("ask {directory} {discovery}"),
            SessionAction::Fail(reason) => format!("fail {reason}"),
        })
        .collect()
}

fn ready() -> Session {
    let (mut session, _) = Session::open("i".to_owned());
    let actions = session.receive(json(
        r#"{"type":"response","requestId":"i","resultType":"success","method":"initialize","result":{"clientId":"me"}}"#,
    ));
    assert_eq!(show(&actions), ["tell true - false"]);
    session
}

const OFFER: &str = r#"{"type":"client-discovery-request","requestId":"d","request":{"method":"ide-context","params":{"workspaceRoot":"/repo"}}}"#;
const REQUEST: &str = r#"{"type":"request","requestId":"k","method":"ide-context","version":0,"params":{"workspaceRoot":"/repo"}}"#;

#[test]
fn the_first_message_registers() {
    let (_, message) = Session::open("i".to_owned());
    assert_eq!(
        text(&message),
        r#"{"method":"initialize","params":{"clientType":"zed"},"requestId":"i","sourceClientId":"initializing-client","type":"request","version":0}"#
    );
    let (_, first) = Session::start();
    let (_, second) = Session::start();
    assert_eq!(first.str_at("requestId").unwrap().len(), 36);
    assert_ne!(first.str_at("requestId"), second.str_at("requestId"));
}

#[test]
fn registration_takes_the_right_answer() {
    for message in [
        r#"{"type":"broadcast","requestId":"i"}"#,
        r#"{"type":"response","requestId":"j","resultType":"error"}"#,
        OFFER,
        REQUEST,
    ] {
        let (mut session, _) = Session::open("i".to_owned());
        assert!(session.receive(json(message)).is_empty());
        assert!(matches!(session, Session::Registering(_)));
    }
    for (message, reason) in [
        (
            r#"{"type":"response","requestId":"i","resultType":"error","method":"initialize"}"#,
            "incompatible Codex IPC router",
        ),
        (
            r#"{"type":"response","requestId":"i","resultType":"success","method":"other"}"#,
            "incompatible Codex IPC router",
        ),
        (
            r#"{"type":"response","requestId":"i","resultType":"success","method":"initialize","result":{}}"#,
            "missing IPC client ID",
        ),
    ] {
        let (mut session, _) = Session::open("i".to_owned());
        assert_eq!(
            show(&session.receive(json(message))),
            [format!("fail {reason}")]
        );
        assert!(matches!(session, Session::Ended));
    }
    assert!(matches!(ready(), Session::Ready(client) if client == "me"));
}

#[test]
fn offers_are_answered() {
    let mut session = ready();
    assert_eq!(show(&session.receive(json(OFFER))), ["ask /repo true"]);
    assert_eq!(
        show(&session.answer(Ok(Json::Null))),
        [r#"send {"requestId":"d","response":{"canHandle":true},"type":"client-discovery-response"}"#]
    );
    session.receive(json(OFFER));
    assert_eq!(
        show(&session.answer(Err("no-client-found".to_owned()))),
        [r#"send {"requestId":"d","response":{"canHandle":false},"type":"client-discovery-response"}"#]
    );
    session.receive(json(OFFER));
    assert_eq!(
        show(&session.answer(Err("request-timeout".to_owned()))),
        [
            "tell true request-timeout false",
            r#"send {"requestId":"d","response":{"canHandle":false},"type":"client-discovery-response"}"#
        ]
    );
    assert_eq!(
        show(&session.receive(json(
            r#"{"type":"client-discovery-request","requestId":"e","request":{"method":"other"}}"#
        ))),
        [r#"send {"requestId":"e","response":{"canHandle":false},"type":"client-discovery-response"}"#]
    );
    assert!(matches!(session, Session::Ready(_)));
}

#[test]
fn requests_are_answered() {
    let mut session = ready();
    assert_eq!(show(&session.receive(json(REQUEST))), ["ask /repo false"]);
    assert_eq!(
        show(&session.answer(Ok(json(r#"{"openTabs":[]}"#)))),
        [
            r#"send {"handledByClientId":"me","method":"ide-context","requestId":"k","result":{"ideContext":{"openTabs":[]}},"resultType":"success","type":"response"}"#,
            "tell true - true"
        ]
    );
    session.receive(json(REQUEST));
    assert_eq!(
        show(&session.answer(Err("workspace-closed".to_owned()))),
        [
            r#"send {"error":"workspace-closed","requestId":"k","resultType":"error","type":"response"}"#,
            "tell true workspace-closed false"
        ]
    );
    assert_eq!(
        show(&session.receive(json(r#"{"type":"request","requestId":"k","method":"other"}"#))),
        [
            r#"send {"error":"no-handler-for-request","requestId":"k","resultType":"error","type":"response"}"#,
            "tell true no-handler-for-request false"
        ]
    );
    assert_eq!(
        show(&session.receive(json(
            r#"{"type":"request","requestId":"k","method":"ide-context","version":1,"params":{"workspaceRoot":"/repo"}}"#
        ))),
        [
            r#"send {"error":"request-version-mismatch","requestId":"k","resultType":"error","type":"response"}"#,
            "tell true request-version-mismatch false"
        ]
    );
    assert!(session.receive(json(r#"{"type":"broadcast"}"#)).is_empty());
    assert!(session.receive(json(r#"{"type":"response"}"#)).is_empty());
    assert_eq!(
        show(&session.receive(json(r#"{"type":"surprise"}"#))),
        ["fail unexpected Codex IPC message"]
    );
}

/// Takes the only message that is sent.
fn sent(actions: Vec<SessionAction>) -> Json {
    actions
        .into_iter()
        .find_map(|action| match action {
            SessionAction::Send(message) => Some(message),
            _ => None,
        })
        .unwrap()
}

#[test]
fn context_comes_back_through_the_router() {
    let mut router = Router::default();
    let (mut session, first) = Session::start();
    let mut out = router.message(1, first, 0);
    session.receive(out.pop().unwrap().1);
    for revision in 1..3 {
        let mut request = json(REQUEST);
        request.set("requestId", Json::text("mine"));
        let mut out = router.message(10, request, 0);
        assert_eq!(show(&session.receive(out.remove(0).1)), ["ask /repo true"]);
        let mut out = router.message(1, sent(session.answer(Ok(Json::Null))), 0);
        assert_eq!(show(&session.receive(out.remove(0).1)), ["ask /repo false"]);
        let mut context = Json::object();
        context.set("revision", Json::integer(revision));
        let out = router.message(1, sent(session.answer(Ok(context))), 0);
        assert_eq!(out.len(), 1);
        assert_eq!(out[0].0, 10);
        assert_eq!(out[0].1.str_at("requestId"), Some("mine"));
        assert_eq!(out[0].1.str_at("resultType"), Some("success"));
        let context = out[0].1.get("result").unwrap().get("ideContext").unwrap();
        assert_eq!(context.get("revision").unwrap().as_u64(), Some(revision));
        assert!(!router.has_pending());
    }
}

#[test]
fn questions_to_the_editor_come_to_something() {
    let outcome = |reply| match query_outcome(reply) {
        Ok(context) => text(&context),
        Err(reason) => reason,
    };
    assert_eq!(outcome(QueryReply::Unsent), "editor-unavailable");
    assert_eq!(outcome(QueryReply::Dropped), "editor-unavailable");
    assert_eq!(outcome(QueryReply::TimedOut), "request-timeout");
    assert_eq!(outcome(QueryReply::Answered(Ok(Json::Null))), "null");
    assert_eq!(
        outcome(QueryReply::Answered(Err("no-client-found".to_owned()))),
        "no-client-found"
    );
    assert_eq!(query_directory(&json(REQUEST)).as_deref(), Ok("/repo"));
    assert_eq!(query_directory(&json("{}")), Err("invalid-workspace-root"));
    assert_eq!(
        query_directory(&json(r#"{"params":{"workspaceRoot":null}}"#)),
        Err("invalid-workspace-root")
    );
}

#[test]
fn sessions_end_with_news() {
    let status = session_over(Some("gone".to_owned()));
    assert!(!status.available);
    assert!(!status.succeeded);
    assert_eq!(status.error.as_deref(), Some("gone"));
    assert_eq!(session_over(None).error, None);
    assert_eq!(
        validate_home(PathStyle::Unix, b"codex"),
        Err("CODEX_HOME must be an absolute path")
    );
    assert_eq!(validate_home(PathStyle::Unix, b"/codex"), Ok(()));
    assert_eq!(validate_home(PathStyle::Windows, b"codex"), Ok(()));
}
