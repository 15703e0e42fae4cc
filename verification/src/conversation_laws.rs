//! What a session says and does, said of the members of messages.
use crate::json::JsonView;
use crate::names::{lemma_kinds, lemma_member_names};
use crate::protocol::is_context_request;
use crate::session::{
    answer_session_step, discovery_answer, initialize_view, query_view, receive_step, QueryReply,
    SessionActionView, SessionView, StatusView,
};
use vstd::prelude::*;

verus! {

/// The registration has six members, of which one names what kind of client this is.
pub proof fn law_the_registration(id: Seq<char>)
    ensures
        initialize_view(id) matches JsonView::Object(members) && {
            &&& members.dom() =~= set![
                "type"@,
                "requestId"@,
                "sourceClientId"@,
                "method"@,
                "version"@,
                "params"@,
            ]
            &&& members["type"@] == JsonView::Str("request"@)
            &&& members["requestId"@] == JsonView::Str(id)
            &&& members["sourceClientId"@] == JsonView::Str("initializing-client"@)
            &&& members["method"@] == JsonView::Str("initialize"@)
            &&& members["version"@] == JsonView::Int(0)
            &&& members["params"@].at("clientType"@) == JsonView::Str("zed"@)
        },
{
    lemma_member_names();
}

/// The answer to an offer has three members: its type, the id of the offer, and whether the
/// provider can handle the request.
pub proof fn law_the_answer_to_an_offer(id: JsonView, yes: bool)
    ensures
        discovery_answer(id, yes) matches JsonView::Object(members) && {
            &&& members.dom() =~= set!["type"@, "requestId"@, "response"@]
            &&& members["type"@] == JsonView::Str("client-discovery-response"@)
            &&& members["requestId"@] == id
            &&& members["response"@].at("canHandle"@) == JsonView::Bool(yes)
        },
{
    lemma_member_names();
}

/// Whether a message is the router's answer to a registration.
pub open spec fn answers_registration(message: JsonView, id: Seq<char>) -> bool {
    message.at("type"@) == JsonView::Str("response"@) && message.at("requestId"@)
        == JsonView::Str(id)
}

/// Whether a message grants a registration.
pub open spec fn grants(message: JsonView) -> bool {
    message.at("resultType"@) == JsonView::Str("success"@) && message.at("method"@)
        == JsonView::Str("initialize"@)
}

/// While it waits to be registered, a session passes over everything but the answer to its
/// registration. Where that grants it and gives an id, the session is ready under that id
/// and the editor is told; otherwise the session ends, with the reason.
pub proof fn law_waiting_for_registration(id: Seq<char>, message: JsonView)
    ensures
        ({
            let (next, actions) = receive_step(SessionView::Registering(id), message);
            let client = message.at("result"@).at("clientId"@);
            &&& !answers_registration(message, id) ==> next == SessionView::Registering(id)
                && actions.len() == 0
            &&& answers_registration(message, id) && grants(message) && client is Str ==> {
                &&& next == SessionView::Ready(client->Str_0)
                &&& actions == seq![
                    SessionActionView::Tell(
                        StatusView { available: true, error: None, succeeded: false },
                    ),
                ]
            }
            &&& answers_registration(message, id) && grants(message) && !(client is Str) ==> {
                &&& next is Ended
                &&& actions == seq![SessionActionView::Fail("missing IPC client ID"@)]
            }
            &&& answers_registration(message, id) && !grants(message) ==> {
                &&& next is Ended
                &&& actions == seq![SessionActionView::Fail("incompatible Codex IPC router"@)]
            }
        }),
{
}

/// Whether actions are the refusal of a request: an answer with its id and the reason, and
/// news of the reason.
pub open spec fn refuses(
    actions: Seq<SessionActionView>,
    request: JsonView,
    reason: Seq<char>,
) -> bool {
    &&& actions.len() == 2
    &&& actions[0] matches SessionActionView::Send(answer) && {
        &&& answer.at("type"@) == JsonView::Str("response"@)
        &&& answer.at("requestId"@) == request.at("requestId"@)
        &&& answer.at("resultType"@) == JsonView::Str("error"@)
        &&& answer.at("error"@) == JsonView::Str(reason)
    }
    &&& actions[1] == SessionActionView::Tell(
        StatusView { available: true, error: Some(reason), succeeded: false },
    )
}

/// A request to a provider that is ready: one for another method is refused, so is one for
/// context that is not as this provider takes it, and for any other the editor is asked
/// for the context of the directory that the request names.
pub proof fn law_requests_to_a_provider(client: Seq<char>, message: JsonView)
    requires
        message.at("type"@) == JsonView::Str("request"@),
    ensures
        ({
            let (next, actions) = receive_step(SessionView::Ready(client), message);
            &&& message.at("method"@) != JsonView::Str("ide-context"@) ==> next
                == SessionView::Ready(client) && refuses(
                actions,
                message,
                "no-handler-for-request"@,
            )
            &&& message.at("method"@) == JsonView::Str("ide-context"@) && !is_context_request(
                message,
            ) ==> next == SessionView::Ready(client) && refuses(
                actions,
                message,
                "request-version-mismatch"@,
            )
            &&& is_context_request(message) ==> next == SessionView::Handling(client, message)
                && actions == seq![
                SessionActionView::Ask(
                    message.at("params"@).at("workspaceRoot"@)->Str_0,
                    false,
                ),
            ]
        }),
{
    lemma_kinds();
    lemma_member_names();
}

/// An offer to a provider that is ready: one of a request that it would not take is turned
/// down at once, and for any other the editor is asked whether it has that directory.
pub proof fn law_offers_to_a_provider(client: Seq<char>, message: JsonView)
    requires
        message.at("type"@) == JsonView::Str("client-discovery-request"@),
    ensures
        ({
            let (next, actions) = receive_step(SessionView::Ready(client), message);
            let request = message.at("request"@);
            &&& is_context_request(request) ==> {
                &&& next == SessionView::Discovering(client, message.at("requestId"@))
                &&& actions == seq![
                    SessionActionView::Ask(
                        request.at("params"@).at("workspaceRoot"@)->Str_0,
                        true,
                    ),
                ]
            }
            &&& !is_context_request(request) ==> {
                &&& next == SessionView::Ready(client)
                &&& actions.len() == 1
                &&& actions[0] matches SessionActionView::Send(answer) && {
                    &&& answer.at("type"@) == JsonView::Str("client-discovery-response"@)
                    &&& answer.at("requestId"@) == message.at("requestId"@)
                    &&& answer.at("response"@).at("canHandle"@) == JsonView::Bool(false)
                }
            }
        }),
{
    lemma_kinds();
    lemma_member_names();
}

/// A provider that is ready passes over broadcasts and responses. Any other message than
/// these, requests and offers ends the session.
pub proof fn law_other_messages_to_a_provider(client: Seq<char>, message: JsonView)
    requires
        message.at("type"@) != JsonView::Str("request"@),
        message.at("type"@) != JsonView::Str("client-discovery-request"@),
    ensures
        ({
            let (next, actions) = receive_step(SessionView::Ready(client), message);
            let idle = message.at("type"@) == JsonView::Str("broadcast"@) || message.at("type"@)
                == JsonView::Str("response"@);
            &&& idle ==> next == SessionView::Ready(client) && actions.len() == 0
            &&& !idle ==> next is Ended && actions == seq![
                SessionActionView::Fail("unexpected Codex IPC message"@),
            ]
        }),
{
}

/// What the editor says to an offer: where it has the directory the offer is accepted, and
/// otherwise turned down. Only that it does not have the directory is no news.
pub proof fn law_what_the_editor_says_to_offers(
    client: Seq<char>,
    id: JsonView,
    outcome: Result<JsonView, Seq<char>>,
)
    ensures
        ({
            let (next, actions) = answer_session_step(
                SessionView::Discovering(client, id),
                outcome,
            );
            &&& next == SessionView::Ready(client)
            &&& actions.len() > 0
            &&& actions.last() matches SessionActionView::Send(answer) && {
                &&& answer.at("type"@) == JsonView::Str("client-discovery-response"@)
                &&& answer.at("requestId"@) == id
                &&& answer.at("response"@).at("canHandle"@) == JsonView::Bool(outcome is Ok)
            }
            &&& outcome is Ok || outcome == Err::<JsonView, Seq<char>>("no-client-found"@)
                ==> actions.len() == 1
            &&& outcome matches Err(reason) ==> (reason != "no-client-found"@ ==> actions.len() == 2
                && actions[0] == SessionActionView::Tell(
                StatusView { available: true, error: Some(reason), succeeded: false },
            ))
        }),
{
    lemma_member_names();
}

/// What the editor says to a request: its context is the result of a success, under the id
/// and the method of the request and the provider's own id, and that is news; and a reason
/// refuses the request.
pub proof fn law_what_the_editor_says_to_requests(
    client: Seq<char>,
    request: JsonView,
    outcome: Result<JsonView, Seq<char>>,
)
    ensures
        ({
            let (next, actions) = answer_session_step(
                SessionView::Handling(client, request),
                outcome,
            );
            &&& next == SessionView::Ready(client)
            &&& actions.len() == 2
            &&& outcome matches Ok(context) ==> {
                &&& actions[0] matches SessionActionView::Send(answer) && {
                    &&& answer.at("type"@) == JsonView::Str("response"@)
                    &&& answer.at("requestId"@) == request.at("requestId"@)
                    &&& answer.at("resultType"@) == JsonView::Str("success"@)
                    &&& answer.at("method"@) == request.at("method"@)
                    &&& answer.at("handledByClientId"@) == JsonView::Str(client)
                    &&& answer.at("result"@).at("ideContext"@) == context
                }
                &&& actions[1] == SessionActionView::Tell(
                    StatusView { available: true, error: None, succeeded: true },
                )
            }
            &&& outcome matches Err(reason) ==> refuses(actions, request, reason)
        }),
{
    lemma_member_names();
}

/// What a question to the editor comes to: its answer where it gives one, and otherwise why
/// there is none.
pub proof fn law_questions_to_the_editor(reply: QueryReply)
    ensures
        reply is Unsent || reply is Dropped ==> query_view(reply) == Err::<JsonView, Seq<char>>(
            "editor-unavailable"@,
        ),
        reply is TimedOut ==> query_view(reply) == Err::<JsonView, Seq<char>>("request-timeout"@),
        reply matches QueryReply::Answered(Ok(context)) ==> query_view(reply) == Ok::<
            JsonView,
            Seq<char>,
        >(context@),
        reply matches QueryReply::Answered(Err(reason)) ==> query_view(reply) == Err::<
            JsonView,
            Seq<char>,
        >(reason@),
{
}

} // verus!
