//! What holds of a session with any router, and with this one.
use crate::json::{empty_object, JsonView};
use crate::names::{lemma_kinds, lemma_member_names};
use crate::protocol::{is_context_request, success_view};
use crate::router::{
    answered, awaited_answers, candidates, client_of, discovery_view, stamped, step, without_id,
    without_key, ClientView, Peer, PendingView, RouterView, MAX_PENDING,
};
use crate::router_laws::{
    accepts, answers_to, law_messages_keep_invariant, law_registration_is_idempotent,
    law_responses_return, lemma_answer_at, lemma_registered,
};
use crate::session::{
    answer_session_step, directory_of, discovery_answer, initialize_view, news, receive_step,
    SessionActionView, SessionView,
};
use vstd::prelude::*;

verus! {

/// The messages that are sent to the router, in order.
pub open spec fn sent(actions: Seq<SessionActionView>) -> Seq<JsonView>
    decreases actions.len(),
{
    if actions.len() == 0 {
        Seq::empty()
    } else {
        let before = sent(actions.drop_last());
        match actions.last() {
            SessionActionView::Send(message) => before.push(message),
            _ => before,
        }
    }
}

proof fn lemma_sent(first: SessionActionView, second: SessionActionView)
    ensures
        sent(Seq::empty()) == Seq::<JsonView>::empty(),
        first matches SessionActionView::Send(message) ==> sent(seq![first]) == seq![message],
        !(first is Send) ==> sent(seq![first]) == Seq::<JsonView>::empty(),
        first is Send && !(second is Send) ==> sent(seq![first, second]) == seq![first->Send_0],
        second is Send && !(first is Send) ==> sent(seq![first, second]) == seq![second->Send_0],
{
    reveal_with_fuel(sent, 3);
    assert(seq![first].drop_last() =~= Seq::empty());
    assert(seq![first, second].drop_last() =~= seq![first]);
    assert(Seq::<JsonView>::empty().push(first->Send_0) =~= seq![first->Send_0]);
    assert(Seq::<JsonView>::empty().push(second->Send_0) =~= seq![second->Send_0]);
}

/// Until the provider is registered it sends nothing and asks the editor nothing.
pub proof fn law_nothing_before_registration(id: Seq<char>, message: JsonView)
    ensures
        ({
            let (next, actions) = receive_step(SessionView::Registering(id), message);
            &&& sent(actions) == Seq::<JsonView>::empty()
            &&& forall|i: int| 0 <= i < actions.len() ==> !(#[trigger] actions[i] is Ask)
        }),
{
    let (next, actions) = receive_step(SessionView::Registering(id), message);
    if actions.len() > 0 {
        lemma_sent(actions[0], actions[0]);
        assert(actions =~= seq![actions[0]]);
    } else {
        lemma_sent(news(None, false), news(None, false));
        assert(actions =~= Seq::empty());
    }
}

/// A request to a registered provider is answered once: at once, or with what the
/// editor says. The answer goes under the id of the request.
pub proof fn law_requests_are_answered_once(
    client: Seq<char>,
    message: JsonView,
    outcome: Result<JsonView, Seq<char>>,
)
    requires
        message.at("type"@) == JsonView::Str("request"@),
    ensures
        ({
            let (next, actions) = receive_step(SessionView::Ready(client), message);
            let (last, more) = answer_session_step(next, outcome);
            let answers = if next is Ready {
                sent(actions)
            } else {
                sent(actions) + sent(more)
            };
            &&& next is Ready || next is Handling
            &&& next is Handling ==> last == SessionView::Ready(client)
            &&& answers.len() == 1
            &&& answers[0].at("type"@) == JsonView::Str("response"@)
            &&& answers[0].at("requestId"@) == message.at("requestId"@)
        }),
{
    lemma_member_names();
    lemma_kinds();
    let (next, actions) = receive_step(SessionView::Ready(client), message);
    let (last, more) = answer_session_step(next, outcome);
    if next is Ready {
        lemma_sent(actions[0], actions[1]);
        assert(actions =~= seq![actions[0], actions[1]]);
    } else {
        lemma_sent(actions[0], actions[0]);
        lemma_sent(more[0], more[1]);
        assert(actions =~= seq![actions[0]]);
        assert(more =~= seq![more[0], more[1]]);
        assert(sent(actions) + sent(more) =~= sent(more));
    }
}

/// An offer to a registered provider is answered once, under its own id. It is
/// accepted only where the request asks for context that the editor says it has.
pub proof fn law_offers_are_answered_once(
    client: Seq<char>,
    message: JsonView,
    outcome: Result<JsonView, Seq<char>>,
)
    requires
        message.at("type"@) == JsonView::Str("client-discovery-request"@),
    ensures
        ({
            let (next, actions) = receive_step(SessionView::Ready(client), message);
            let (last, more) = answer_session_step(next, outcome);
            let answers = if next is Ready {
                sent(actions)
            } else {
                sent(actions) + sent(more)
            };
            &&& next is Ready || next is Discovering
            &&& next is Discovering ==> last == SessionView::Ready(client)
            &&& answers == seq![
                discovery_answer(
                    message.at("requestId"@),
                    is_context_request(message.at("request"@)) && outcome is Ok,
                ),
            ]
        }),
{
    lemma_kinds();
    let (next, actions) = receive_step(SessionView::Ready(client), message);
    let (last, more) = answer_session_step(next, outcome);
    lemma_sent(actions[0], actions[0]);
    assert(actions =~= seq![actions[0]]);
    if next is Discovering {
        lemma_sent(more[0], more[1]);
        if more.len() == 1 {
            assert(more =~= seq![more[0]]);
        } else {
            assert(more =~= seq![more[0], more[1]]);
        }
        assert(sent(actions) + sent(more) =~= sent(more));
    }
}

/// This router registers this provider: its answer to the first message makes the
/// session ready, under the id that the router knows the provider by.
pub proof fn law_the_router_registers_the_provider(
    state: RouterView,
    peer: Peer,
    id: Seq<char>,
    now: int,
    ids: Seq<Seq<char>>,
)
    ensures
        ({
            let (next, outgoing) = step(state, peer, initialize_view(id), now, ids);
            &&& outgoing.len() > 0
            &&& outgoing.last().0 == peer
            &&& client_of(next.clients, peer) matches Some(client) && receive_step(
                SessionView::Registering(id),
                outgoing.last().1,
            ) == (SessionView::Ready(client.id), seq![news(None, false)])
        }),
{
    lemma_member_names();
    lemma_kinds();
    law_registration_is_idempotent(
        state,
        peer,
        initialize_view(id),
        initialize_view(id),
        now,
        now,
        ids,
        ids,
    );
}

/// A stamp leaves a request for context what it was.
proof fn lemma_stamped_request(clients: Seq<ClientView>, peer: Peer, message: JsonView)
    requires
        message.at("type"@) == JsonView::Str("request"@),
        is_context_request(message),
    ensures
        ({
            let request = stamped(clients, peer, message);
            &&& request is Object
            &&& is_context_request(request)
            &&& request.at("type"@) == JsonView::Str("request"@)
            &&& request.at("requestId"@) == message.at("requestId"@)
            &&& directory_of(request) == directory_of(message)
        }),
{
    lemma_member_names();
}

/// So does the router's own key.
proof fn lemma_forwarded_request(request: JsonView, key: Seq<char>)
    requires
        request is Object,
        request.at("type"@) == JsonView::Str("request"@),
        is_context_request(request),
    ensures
        ({
            let forwarded = request.with("requestId"@, JsonView::Str(key));
            &&& is_context_request(forwarded)
            &&& forwarded.at("type"@) == JsonView::Str("request"@)
            &&& forwarded.at("requestId"@) == JsonView::Str(key)
            &&& directory_of(forwarded) == directory_of(request)
        }),
{
    lemma_member_names();
}

/// Removing a key that no request has changes nothing.
proof fn lemma_without_new_key(pending: Seq<PendingView>, key: Seq<char>)
    requires
        forall|i: int| 0 <= i < pending.len() ==> (#[trigger] pending[i]).key != key,
    ensures
        without_key(pending, key) == pending,
    decreases pending.len(),
{
    reveal(Seq::filter);
    if pending.len() > 0 {
        let rest = pending.drop_last();
        assert forall|i: int| 0 <= i < rest.len() implies (#[trigger] rest[i]).key != key by {
            assert(rest[i] == pending[i]);
        }
        lemma_without_new_key(rest, key);
        assert(pending[pending.len() - 1].key != key);
        assert(rest.push(pending.last()) =~= pending);
    }
}

/// A request for context with one candidate is offered to it under the first id, and
/// waits under the second.
proof fn lemma_offered(
    state: RouterView,
    source: Peer,
    provider: Peer,
    client: ClientView,
    message: JsonView,
    now: int,
    ids: Seq<Seq<char>>,
)
    requires
        state.pending.len() < MAX_PENDING,
        message.at("type"@) == JsonView::Str("request"@),
        message.at("requestId"@) is Str,
        is_context_request(message),
        client.peer == provider,
        candidates(state.clients, source, stamped(state.clients, source, message)) == seq![client],
        ids.len() >= 2,
        forall|j: int| 0 <= j < state.pending.len() ==> (#[trigger] state.pending[j]).key != ids[1],
    ensures
        ({
            let request = stamped(state.clients, source, message);
            let (next, outgoing) = step(state, source, message, now, ids);
            &&& outgoing == seq![(provider, discovery_view(ids[0], request))]
            &&& next.clients == state.clients
            &&& next.pending.len() == state.pending.len() + 1
            &&& next.pending.drop_last() == state.pending
            &&& next.pending.last().key == ids[1]
            &&& next.pending.last().source == source
            &&& next.pending.last().request == request
            &&& next.pending.last().awaited == seq![(ids[0], provider)]
            &&& next.pending.last().willing == Seq::<Peer>::empty()
            &&& next.pending.last().target is None
        }),
{
    lemma_member_names();
    lemma_kinds();
    reveal_strlit("ide-context");
    reveal_strlit("initialize");
    assert("ide-context"@.len() == 11);
    assert("initialize"@.len() == 10);
    let request = stamped(state.clients, source, message);
    let found = seq![client];
    lemma_without_new_key(state.pending, ids[1]);
    reveal_with_fuel(awaited_answers, 2);
    reveal(Seq::filter);
    assert(found.drop_last() =~= Seq::empty());
    assert(awaited_answers(found, ids) =~= seq![(ids[0], provider)]);
    let (next, outgoing) = step(state, source, message, now, ids);
    assert(outgoing =~= seq![(provider, discovery_view(ids[0], request))]);
    assert(next.pending.drop_last() =~= state.pending);
}

/// Where a directory's workspace is open in just one editor, context comes back to the
/// one who asked: the request is offered to the provider, handed to it once it accepts,
/// and answered with what the editor says, under the id that the request came with and
/// with the provider's id. Then the router is as it was, and the provider ready for
/// the next.
pub proof fn law_context_comes_back(
    state: RouterView,
    source: Peer,
    provider: Peer,
    client: ClientView,
    message: JsonView,
    found: JsonView,
    context: JsonView,
    now: int,
    ids: Seq<Seq<char>>,
)
    requires
        state.wf(),
        state.pending.len() < MAX_PENDING,
        client_of(state.clients, provider) == Some(client),
        message.at("type"@) == JsonView::Str("request"@),
        message.at("requestId"@) is Str,
        is_context_request(message),
        candidates(state.clients, source, stamped(state.clients, source, message)) == seq![client],
        ids.len() > state.clients.len(),
        ids.len() >= 2,
        forall|j: int| 0 <= j < state.pending.len() ==> (#[trigger] state.pending[j]).key != ids[1],
        forall|j: int|
            0 <= j < state.pending.len() ==> !(#[trigger] state.pending[j]).awaited.contains(
                (ids[0], provider),
            ),
    ensures
        ({
            let (s1, out1) = step(state, source, message, now, ids);
            let (p1, asked1) = receive_step(SessionView::Ready(client.id), out1[0].1);
            let (p2, offer) = answer_session_step(p1, Ok(found));
            let (s2, out2) = step(s1, provider, sent(offer)[0], now, ids);
            let (p3, asked2) = receive_step(p2, out2[0].1);
            let (p4, reply) = answer_session_step(p3, Ok(context));
            let (s3, out3) = step(s2, provider, sent(reply)[0], now, ids);
            &&& out1.len() == 1 && out1[0].0 == provider
            &&& asked1 == seq![SessionActionView::Ask(directory_of(message), true)]
            &&& out2.len() == 1 && out2[0].0 == provider
            &&& asked2 == seq![SessionActionView::Ask(directory_of(message), false)]
            &&& out3.len() == 1 && out3[0].0 == source
            &&& out3[0].1.at("requestId"@) == message.at("requestId"@)
            &&& out3[0].1.at("resultType"@) == JsonView::Str("success"@)
            &&& out3[0].1.at("method"@) == JsonView::Str("ide-context"@)
            &&& out3[0].1.at("result"@).at("ideContext"@) == context
            &&& out3[0].1.at("handledByClientId"@) == JsonView::Str(client.id)
            &&& s3 == state
            &&& p4 == SessionView::Ready(client.id)
        }),
{
    lemma_member_names();
    lemma_kinds();
    lemma_registered(state.clients, provider);
    lemma_offered(state, source, provider, client, message, now, ids);
    lemma_stamped_request(state.clients, source, message);
    let request = stamped(state.clients, source, message);
    let id = ids[0];
    let key = ids[1];
    let (s1, out1) = step(state, source, message, now, ids);
    law_messages_keep_invariant(state, source, message, now, ids);
    let n = state.pending.len() as int;
    let p = s1.pending[n];

    let (p1, asked1) = receive_step(SessionView::Ready(client.id), out1[0].1);
    assert(out1[0].1.at("request"@) == request);
    assert(p1 == SessionView::Discovering(client.id, JsonView::Str(id)));
    let (p2, offer) = answer_session_step(p1, Ok(found));
    let accepted = discovery_answer(JsonView::Str(id), true);
    lemma_sent(offer[0], offer[0]);
    assert(offer =~= seq![SessionActionView::Send(accepted)]);

    assert(accepts((provider, accepted))) by {
        assert(accepted.at("response"@).at("canHandle"@) == JsonView::Bool(true));
    }
    assert(answers_to((provider, accepted)) == (id, provider));
    assert(p.awaited[0] == (id, provider));
    assert forall|j: int| 0 <= j < s1.pending.len() && j != n implies !(
    #[trigger] s1.pending[j]).awaited.contains((id, provider)) by {
        assert(s1.pending.drop_last()[j] == s1.pending[j]);
    }
    lemma_answer_at(s1, n, (provider, accepted));
    reveal(Seq::filter);
    assert(without_id(p.awaited, id) =~= Seq::empty()) by {
        assert(p.awaited.drop_last() =~= Seq::empty());
        reveal_with_fuel(Seq::filter, 2);
    }
    assert(p.willing.push(provider) =~= seq![provider]);
    let forwarded = request.with("requestId"@, JsonView::Str(key));
    let (s2, out2) = step(s1, provider, accepted, now, ids);
    assert(out2 == seq![(provider, forwarded)]);
    law_messages_keep_invariant(s1, provider, accepted, now, ids);
    assert(s2.pending[n].target == Some(provider));
    assert(s2.pending[n].key == key);

    lemma_forwarded_request(request, key);
    let (p3, asked2) = receive_step(p2, forwarded);
    assert(p3 == SessionView::Handling(client.id, forwarded));
    let (p4, reply) = answer_session_step(p3, Ok(context));
    let answer = success_view(
        forwarded,
        client.id,
        empty_object().with("ideContext"@, context),
    );
    lemma_sent(reply[0], reply[1]);
    assert(reply =~= seq![SessionActionView::Send(answer), news(None, true)]);

    assert(answer.at("type"@) == JsonView::Str("response"@));
    assert(answer.at("requestId"@) == JsonView::Str(key));
    assert(answer.at("result"@).at("ideContext"@) == context);
    law_responses_return(s2, n, provider, answer, now, ids);
    let (s3, out3) = step(s2, provider, answer, now, ids);
    assert(s3.pending =~= state.pending) by {
        assert forall|j: int| 0 <= j < n implies s3.pending[j] == state.pending[j] by {
            assert(s1.pending.drop_last()[j] == s1.pending[j]);
        }
    }
    assert(out3[0].1.at("result"@) == answer.at("result"@));
    assert(out3[0].1.at("resultType"@) == answer.at("resultType"@));
    assert(out3[0].1.at("method"@) == answer.at("method"@));
}

} // verus!
