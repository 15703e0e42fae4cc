//! The provider's side of a connection to the router: it registers, says which
//! requests it can handle, and answers them with what the editor says.
use crate::json::{empty_object, Json, JsonView};
use crate::path::{absolute, is_absolute, PathStyle};
use crate::protocol;
use crate::protocol::{error_view, is_context_request, success_view};
use crate::router::{fresh_identifier, is_identifier};
use crate::text::same_text;
use vstd::prelude::*;

verus! {

/// How long the editor may take to answer, in milliseconds.
pub const QUERY_BUDGET_MILLIS: u64 = 2_000;

/// How long to wait before the next session, in milliseconds.
pub const RETRY_MILLIS: u64 = 1_000;

/// News for the editor of how the provider is doing.
pub struct StatusView {
    pub available: bool,
    pub error: Option<Seq<char>>,
    pub succeeded: bool,
}

/// News for the editor of how the provider is doing: whether it is registered, what
/// went wrong last, and whether a request has just been answered with success.
pub struct Status {
    pub available: bool,
    pub error: Option<String>,
    pub succeeded: bool,
}

/// A text that may be missing.
pub open spec fn maybe_text(text: Option<String>) -> Option<Seq<char>> {
    match text {
        Some(text) => Some(text@),
        None => None,
    }
}

impl View for Status {
    type V = StatusView;

    open spec fn view(&self) -> StatusView {
        StatusView {
            available: self.available,
            error: maybe_text(self.error),
            succeeded: self.succeeded,
        }
    }
}

/// What a session does next.
pub enum SessionAction {
    /// Send a message to the router.
    Send(Json),
    /// Tell the editor how the provider is doing.
    Tell(Status),
    /// Ask the editor for the context of a directory, or only, where this is for
    /// discovery, whether it has one.
    Ask(String, bool),
    /// End the session.
    Fail(String),
}

/// What a session does next.
pub enum SessionActionView {
    Send(JsonView),
    Tell(StatusView),
    Ask(Seq<char>, bool),
    Fail(Seq<char>),
}

impl View for SessionAction {
    type V = SessionActionView;

    open spec fn view(&self) -> SessionActionView {
        match self {
            SessionAction::Send(message) => SessionActionView::Send(message@),
            SessionAction::Tell(status) => SessionActionView::Tell(status@),
            SessionAction::Ask(directory, discovery) => SessionActionView::Ask(
                directory@,
                *discovery,
            ),
            SessionAction::Fail(reason) => SessionActionView::Fail(reason@),
        }
    }
}

/// Several actions.
pub open spec fn action_views(actions: Seq<SessionAction>) -> Seq<SessionActionView> {
    Seq::new(actions.len(), |i: int| actions[i]@)
}

/// How far a session has come.
pub enum SessionView {
    /// The router has been asked to register the provider, under a request id.
    Registering(Seq<char>),
    /// The provider is registered, under an id that the router gave.
    Ready(Seq<char>),
    /// The editor has been asked whether it has a context, for the offer with an id.
    Discovering(Seq<char>, JsonView),
    /// The editor has been asked for a context, for a request.
    Handling(Seq<char>, JsonView),
    /// The session is over.
    Ended,
}

/// The message that asks the router to register the provider.
pub open spec fn initialize_view(id: Seq<char>) -> JsonView {
    empty_object().with("type"@, JsonView::Str("request"@)).with(
        "requestId"@,
        JsonView::Str(id),
    ).with("sourceClientId"@, JsonView::Str("initializing-client"@)).with(
        "method"@,
        JsonView::Str("initialize"@),
    ).with("version"@, JsonView::Int(0)).with(
        "params"@,
        empty_object().with("clientType"@, JsonView::Str("zed"@)),
    )
}

/// The answer to an offer.
pub open spec fn discovery_answer(id: JsonView, can_handle: bool) -> JsonView {
    empty_object().with("type"@, JsonView::Str("client-discovery-response"@)).with(
        "requestId"@,
        id,
    ).with("response"@, empty_object().with("canHandle"@, JsonView::Bool(can_handle)))
}

/// News that something went wrong, or that nothing did.
pub open spec fn news(error: Option<Seq<char>>, succeeded: bool) -> SessionActionView {
    SessionActionView::Tell(StatusView { available: true, error, succeeded })
}

/// What refuses a request: an answer to the router, and news for the editor.
pub open spec fn refusal(request: JsonView, reason: Seq<char>) -> Seq<SessionActionView> {
    seq![
        SessionActionView::Send(error_view(request, reason)),
        news(Some(reason), false),
    ]
}

/// What a session makes of the end of its session.
pub open spec fn end_session(reason: Seq<char>) -> (SessionView, Seq<SessionActionView>) {
    (SessionView::Ended, seq![SessionActionView::Fail(reason)])
}

/// The directory that a request is about.
pub open spec fn directory_of(request: JsonView) -> Seq<char> {
    request.at("params"@).at("workspaceRoot"@)->Str_0
}

/// What a session makes of a message while it waits to be registered.
pub open spec fn registering_step(id: Seq<char>, message: JsonView) -> (
    SessionView,
    Seq<SessionActionView>,
) {
    if message.at("type"@) == JsonView::Str("response"@) && message.at("requestId"@)
        == JsonView::Str(id) {
        if message.at("resultType"@) == JsonView::Str("success"@) && message.at("method"@)
            == JsonView::Str("initialize"@) {
            match message.at("result"@).at("clientId"@) {
                JsonView::Str(client) => (SessionView::Ready(client), seq![news(None, false)]),
                _ => end_session("missing IPC client ID"@),
            }
        } else {
            end_session("incompatible Codex IPC router"@)
        }
    } else {
        (SessionView::Registering(id), Seq::empty())
    }
}

/// What a session makes of a message once it is registered.
pub open spec fn ready_step(client: Seq<char>, message: JsonView) -> (
    SessionView,
    Seq<SessionActionView>,
) {
    let kind = message.at("type"@);
    if kind == JsonView::Str("client-discovery-request"@) {
        let request = message.at("request"@);
        if is_context_request(request) {
            (
                SessionView::Discovering(client, message.at("requestId"@)),
                seq![SessionActionView::Ask(directory_of(request), true)],
            )
        } else {
            (
                SessionView::Ready(client),
                seq![SessionActionView::Send(discovery_answer(message.at("requestId"@), false))],
            )
        }
    } else if kind == JsonView::Str("request"@) {
        if message.at("method"@) != JsonView::Str("ide-context"@) {
            (SessionView::Ready(client), refusal(message, "no-handler-for-request"@))
        } else if !is_context_request(message) {
            (SessionView::Ready(client), refusal(message, "request-version-mismatch"@))
        } else {
            (
                SessionView::Handling(client, message),
                seq![SessionActionView::Ask(directory_of(message), false)],
            )
        }
    } else if kind == JsonView::Str("broadcast"@) || kind == JsonView::Str("response"@) {
        (SessionView::Ready(client), Seq::empty())
    } else {
        end_session("unexpected Codex IPC message"@)
    }
}

/// What a session makes of a message.
pub open spec fn receive_step(session: SessionView, message: JsonView) -> (
    SessionView,
    Seq<SessionActionView>,
) {
    match session {
        SessionView::Registering(id) => registering_step(id, message),
        SessionView::Ready(client) => ready_step(client, message),
        _ => (session, Seq::empty()),
    }
}

/// What the editor says.
pub open spec fn outcome_view(outcome: Result<Json, String>) -> Result<JsonView, Seq<char>> {
    match outcome {
        Ok(context) => Ok(context@),
        Err(reason) => Err(reason@),
    }
}

/// What a session makes of what the editor says.
pub open spec fn answer_session_step(
    session: SessionView,
    outcome: Result<JsonView, Seq<char>>,
) -> (SessionView, Seq<SessionActionView>) {
    match session {
        SessionView::Discovering(client, id) => (
            SessionView::Ready(client),
            match outcome {
                Ok(_) => seq![SessionActionView::Send(discovery_answer(id, true))],
                Err(reason) => if reason == "no-client-found"@ {
                    seq![SessionActionView::Send(discovery_answer(id, false))]
                } else {
                    seq![
                        news(Some(reason), false),
                        SessionActionView::Send(discovery_answer(id, false)),
                    ]
                },
            },
        ),
        SessionView::Handling(client, request) => (
            SessionView::Ready(client),
            match outcome {
                Ok(context) => seq![
                    SessionActionView::Send(
                        success_view(
                            request,
                            client,
                            empty_object().with("ideContext"@, context),
                        ),
                    ),
                    news(None, true),
                ],
                Err(reason) => refusal(request, reason),
            },
        ),
        _ => (session, Seq::empty()),
    }
}

/// The provider's side of a connection to the router.
pub enum Session {
    Registering(String),
    Ready(String),
    Discovering(String, Json),
    Handling(String, Json),
    Ended,
}

impl View for Session {
    type V = SessionView;

    open spec fn view(&self) -> SessionView {
        match self {
            Session::Registering(id) => SessionView::Registering(id@),
            Session::Ready(client) => SessionView::Ready(client@),
            Session::Discovering(client, id) => SessionView::Discovering(client@, id@),
            Session::Handling(client, request) => SessionView::Handling(client@, request@),
            Session::Ended => SessionView::Ended,
        }
    }
}

fn initialize(id: &str) -> (message: Json)
    ensures
        message@ == initialize_view(id@),
{
    let mut params = Json::object();
    params.set("clientType", Json::text("zed"));
    let mut message = Json::object();
    message.set("type", Json::text("request"));
    message.set("requestId", Json::text(id));
    message.set("sourceClientId", Json::text("initializing-client"));
    message.set("method", Json::text("initialize"));
    message.set("version", Json::integer(0));
    message.set("params", params);
    message
}

fn answer_offer(id: Json, can_handle: bool) -> (message: Json)
    ensures
        message@ == discovery_answer(id@, can_handle),
{
    let mut response = Json::object();
    response.set("canHandle", Json::Bool(can_handle));
    let mut message = Json::object();
    message.set("type", Json::text("client-discovery-response"));
    message.set("requestId", id);
    message.set("response", response);
    message
}

fn tell(error: Option<String>, succeeded: bool) -> (action: SessionAction)
    ensures
        action@ == news(maybe_text(error), succeeded),
{
    SessionAction::Tell(Status { available: true, error, succeeded })
}

/// A list with one action.
fn only(action: SessionAction) -> (actions: Vec<SessionAction>)
    ensures
        action_views(actions@) == seq![action@],
{
    let mut actions: Vec<SessionAction> = Vec::new();
    actions.push(action);
    assert(action_views(actions@) =~= seq![action@]);
    actions
}

/// A list with two actions.
fn both(first: SessionAction, second: SessionAction) -> (actions: Vec<SessionAction>)
    ensures
        action_views(actions@) == seq![first@, second@],
{
    let mut actions: Vec<SessionAction> = Vec::new();
    actions.push(first);
    actions.push(second);
    assert(action_views(actions@) =~= seq![first@, second@]);
    actions
}

fn refuse(request: &Json, reason: &str) -> (actions: Vec<SessionAction>)
    ensures
        action_views(actions@) == refusal(request@, reason@),
{
    both(
        SessionAction::Send(protocol::error(request, reason)),
        tell(Some(reason.to_owned()), false),
    )
}

/// The directory that a request is about.
pub fn query_directory(request: &Json) -> (directory: Result<String, &'static str>)
    ensures
        match directory {
            Ok(text) => request@.at("params"@).at("workspaceRoot"@) == JsonView::Str(text@),
            Err(reason) => !(request@.at("params"@).at("workspaceRoot"@) is Str) && reason@
                == "invalid-workspace-root"@,
        },
{
    match request.get("params") {
        Some(params) => match params.str_at("workspaceRoot") {
            Some(text) => Ok(text.to_owned()),
            None => Err("invalid-workspace-root"),
        },
        None => Err("invalid-workspace-root"),
    }
}

impl Session {
    /// Opens a session with a request id for the registration, and gives the message
    /// to send first.
    pub fn open(id: String) -> (opened: (Session, Json))
        ensures
            opened.0@ == SessionView::Registering(id@),
            opened.1@ == initialize_view(id@),
    {
        let message = initialize(id.as_str());
        (Session::Registering(id), message)
    }

    /// Opens a session, and gives the message to send first. The request id is random.
    pub fn start() -> (opened: (Session, Json))
        ensures
            exists|id: Seq<char>|
                is_identifier(id) && opened.0@ == SessionView::Registering(id) && opened.1@
                    == #[trigger] initialize_view(id),
    {
        Session::open(fresh_identifier())
    }

    /// Takes a message from the router, and says what to do.
    pub fn receive(&mut self, message: Json) -> (actions: Vec<SessionAction>)
        requires
            old(self)@ is Registering || old(self)@ is Ready,
        ensures
            (final(self)@, action_views(actions@)) == receive_step(old(self)@, message@),
    {
        let none: Vec<SessionAction> = Vec::new();
        assert(action_views(none@) =~= Seq::empty());
        let mut state = Session::Ended;
        std::mem::swap(self, &mut state);
        match state {
            Session::Registering(id) => {
                let own: bool = message.says("type", "response") && message.says(
                    "requestId",
                    id.as_str(),
                );
                if !own {
                    *self = Session::Registering(id);
                    return none;
                }
                if !(message.says("resultType", "success") && message.says(
                    "method",
                    "initialize",
                )) {
                    return only(
                        SessionAction::Fail("incompatible Codex IPC router".to_owned()),
                    );
                }
                if let Some(result) = message.get("result") {
                    if let Some(client) = result.str_at("clientId") {
                        *self = Session::Ready(client.to_owned());
                        return only(tell(None, false));
                    }
                }
                only(SessionAction::Fail("missing IPC client ID".to_owned()))
            },
            Session::Ready(client) => {
                if message.says("type", "client-discovery-request") {
                    if let Some(request) = message.get("request") {
                        if protocol::context_request(request) {
                            if let Ok(directory) = query_directory(request) {
                                *self = Session::Discovering(
                                    client,
                                    message.copy_at("requestId"),
                                );
                                return only(SessionAction::Ask(directory, true));
                            }
                        }
                    }
                    *self = Session::Ready(client);
                    return only(
                        SessionAction::Send(
                            answer_offer(message.copy_at("requestId"), false),
                        ),
                    );
                }
                if message.says("type", "request") {
                    if !message.says("method", "ide-context") {
                        *self = Session::Ready(client);
                        return refuse(&message, "no-handler-for-request");
                    }
                    if protocol::context_request(&message) {
                        if let Ok(directory) = query_directory(&message) {
                            *self = Session::Handling(client, message);
                            return only(SessionAction::Ask(directory, false));
                        }
                    }
                    *self = Session::Ready(client);
                    return refuse(&message, "request-version-mismatch");
                }
                if message.says("type", "broadcast") || message.says("type", "response") {
                    *self = Session::Ready(client);
                    return none;
                }
                only(SessionAction::Fail("unexpected Codex IPC message".to_owned()))
            },
            other => {
                *self = other;
                none
            },
        }
    }

    /// Takes what the editor says, and says what to do.
    pub fn answer(&mut self, outcome: Result<Json, String>) -> (actions: Vec<SessionAction>)
        requires
            old(self)@ is Discovering || old(self)@ is Handling,
        ensures
            (final(self)@, action_views(actions@)) == answer_session_step(
                old(self)@,
                outcome_view(outcome),
            ),
    {
        let mut state = Session::Ended;
        std::mem::swap(self, &mut state);
        match state {
            Session::Discovering(client, id) => {
                *self = Session::Ready(client);
                match outcome {
                    Ok(_) => only(SessionAction::Send(answer_offer(id, true))),
                    Err(reason) => if same_text(reason.as_str(), "no-client-found") {
                        only(SessionAction::Send(answer_offer(id, false)))
                    } else {
                        both(
                            tell(Some(reason), false),
                            SessionAction::Send(answer_offer(id, false)),
                        )
                    },
                }
            },
            Session::Handling(client, request) => match outcome {
                Ok(context) => {
                    let mut result = Json::object();
                    result.set("ideContext", context);
                    let response = protocol::success(&request, client.as_str(), result);
                    *self = Session::Ready(client);
                    both(SessionAction::Send(response), tell(None, true))
                },
                Err(reason) => {
                    *self = Session::Ready(client);
                    refuse(&request, reason.as_str())
                },
            },
            other => {
                *self = other;
                let none: Vec<SessionAction> = Vec::new();
                assert(action_views(none@) =~= Seq::empty());
                none
            },
        }
    }
}

/// What came of a question to the editor.
pub enum QueryReply {
    /// The editor is gone.
    Unsent,
    /// The editor took too long.
    TimedOut,
    /// The editor dropped the question.
    Dropped,
    /// The editor answered.
    Answered(Result<Json, String>),
}

/// What a question to the editor comes to.
pub open spec fn query_view(reply: QueryReply) -> Result<JsonView, Seq<char>> {
    match reply {
        QueryReply::Unsent => Err("editor-unavailable"@),
        QueryReply::TimedOut => Err("request-timeout"@),
        QueryReply::Dropped => Err("editor-unavailable"@),
        QueryReply::Answered(outcome) => outcome_view(outcome),
    }
}

/// What a question to the editor comes to.
pub fn query_outcome(reply: QueryReply) -> (outcome: Result<Json, String>)
    ensures
        outcome_view(outcome) == query_view(reply),
{
    match reply {
        QueryReply::Unsent => Err("editor-unavailable".to_owned()),
        QueryReply::TimedOut => Err("request-timeout".to_owned()),
        QueryReply::Dropped => Err("editor-unavailable".to_owned()),
        QueryReply::Answered(outcome) => outcome,
    }
}

/// News that a session is over.
pub fn session_over(error: Option<String>) -> (status: Status)
    ensures
        status@ == (StatusView { available: false, error: maybe_text(error), succeeded: false }),
{
    Status { available: false, error, succeeded: false }
}

/// Refuses a home directory that does not say by itself where it is. Windows does not
/// use it.
pub fn validate_home(style: PathStyle, home: &[u8]) -> (valid: Result<(), &'static str>)
    ensures
        match valid {
            Ok(()) => style is Windows || is_absolute(style, home@),
            Err(reason) => style is Unix && !is_absolute(style, home@) && reason@
                == "CODEX_HOME must be an absolute path"@,
        },
{
    if style == PathStyle::Unix && !absolute(style, home) {
        Err("CODEX_HOME must be an absolute path")
    } else {
        Ok(())
    }
}

} // verus!
