//! Who is sent what by the router, said of clients and of the members of messages.
use crate::json::JsonView;
use crate::names::{lemma_context_names, lemma_kinds, lemma_member_names};
use crate::protocol::error_view;
use crate::router::{
    addressed, awaited_answers, budget, candidates, client_of, disconnect_step, discovery_view,
    expire_step, involves, is_ide, listed, others, registered_view, returned, stamped, status_view,
    step, without_id, ClientView, Peer, PendingView, RouterView,
};
use crate::router_laws::lemma_registered;
use crate::sequence::lemma_filter_members;
use vstd::prelude::*;

verus! {

/// Whether no peer has registered twice.
pub open spec fn are_distinct(clients: Seq<ClientView>) -> bool {
    forall|i: int, j: int|
        0 <= i < j < clients.len() ==> (#[trigger] clients[i]).peer != (
        #[trigger] clients[j]).peer
}

/// Whether a document is a message as a peer sent it, but for the id of its sender, which is
/// the one that the router gave the peer, where it gave one.
pub open spec fn is_from(
    clients: Seq<ClientView>,
    peer: Peer,
    message: JsonView,
    told: JsonView,
) -> bool {
    &&& forall|name: Seq<char>|
        name != "sourceClientId"@ ==> #[trigger] told.at(name) == message.at(name) && told.has(name)
            == message.has(name)
    &&& forall|i: int|
        0 <= i < clients.len() && (#[trigger] clients[i]).peer == peer ==> told.at(
            "sourceClientId"@,
        ) == JsonView::Str(clients[i].id)
    &&& (forall|i: int| 0 <= i < clients.len() ==> (#[trigger] clients[i]).peer != peer) ==> told
        == message
}

proof fn lemma_client_at(clients: Seq<ClientView>, peer: Peer, i: int)
    requires
        are_distinct(clients),
        0 <= i < clients.len(),
        clients[i].peer == peer,
    ensures
        client_of(clients, peer) == Some(clients[i]),
{
    lemma_registered(clients, peer);
    let found = client_of(clients, peer)->Some_0;
    let j = clients.index_of(found);
    assert(clients[j] == found);
    if i < j {
        assert(clients[i].peer != clients[j].peer);
    } else if j < i {
        assert(clients[j].peer != clients[i].peer);
    }
}

/// What is passed on is the message as it came, under the true id of its sender.
pub proof fn law_messages_are_passed_on(clients: Seq<ClientView>, peer: Peer, message: JsonView)
    requires
        are_distinct(clients),
        message is Object,
    ensures
        is_from(clients, peer, message, stamped(clients, peer, message)),
{
    let told = stamped(clients, peer, message);
    lemma_registered(clients, peer);
    assert forall|i: int| 0 <= i < clients.len() && (#[trigger] clients[i]).peer == peer implies
        told.at("sourceClientId"@) == JsonView::Str(clients[i].id) by {
        lemma_client_at(clients, peer, i);
    }
    if client_of(clients, peer) is Some {
        let i = clients.index_of(client_of(clients, peer)->Some_0);
        assert(clients[i].peer == peer);
    }
}

/// Whether a client's id stands in a list, at whatever place.
pub open spec fn stands_in(list: Seq<JsonView>, id: Seq<char>) -> bool {
    exists|k: int| 0 <= k < list.len() && #[trigger] list[k] == JsonView::Str(id)
}

/// Whether a client is meant by a broadcast: by its id, wherever that stands in the list
/// of those that the broadcast names, or with all others where it has no list.
pub open spec fn is_meant(message: JsonView, client: ClientView) -> bool {
    message.at("targetClientIds"@) matches JsonView::List(list) ==> stands_in(list, client.id)
}

/// A broadcast reaches every other client that it means, whichever place that has in its
/// list, and no one else; each gets it once, as it came, under the true id of its sender.
pub proof fn law_broadcasts_reach_all_that_they_name(
    state: RouterView,
    peer: Peer,
    message: JsonView,
    now: int,
    ids: Seq<Seq<char>>,
)
    requires
        are_distinct(state.clients),
        message.at("type"@) == JsonView::Str("broadcast"@),
    ensures
        ({
            let (next, sent) = step(state, peer, message, now, ids);
            &&& next == state
            &&& forall|i: int|
                0 <= i < state.clients.len() && (#[trigger] state.clients[i]).peer != peer
                    && is_meant(message, state.clients[i]) ==> exists|k: int|
                    0 <= k < sent.len() && (#[trigger] sent[k]).0 == state.clients[i].peer
            &&& forall|k: int|
                0 <= k < sent.len() ==> {
                    &&& is_from(state.clients, peer, message, (#[trigger] sent[k]).1)
                    &&& sent[k].0 != peer
                    &&& exists|i: int|
                        0 <= i < state.clients.len() && (#[trigger] state.clients[i]).peer
                            == sent[k].0 && is_meant(message, state.clients[i])
                }
            &&& forall|k: int, l: int|
                0 <= k < l < sent.len() ==> (#[trigger] sent[k]).0 != (#[trigger] sent[l]).0
        }),
{
    lemma_kinds();
    lemma_broadcast_names();
    let clients = state.clients;
    let told = stamped(clients, peer, message);
    law_messages_are_passed_on(clients, peer, message);
    let keep = |c: ClientView| c.peer != peer && listed(told, c);
    let reached = clients.filter(keep);
    let sent = step(state, peer, message, now, ids).1;
    assert(sent.len() == reached.len());
    assert(forall|k: int|
        0 <= k < sent.len() ==> #[trigger] sent[k] == (reached[k].peer, told));
    lemma_filter_members(clients, keep);
    lemma_filtered_distinct(clients, keep);
    assert forall|c: ClientView| listed(told, c) == is_meant(message, c) by {
        if let JsonView::List(list) = message.at("targetClientIds"@) {
            if list.contains(JsonView::Str(c.id)) {
                let k = list.index_of(JsonView::Str(c.id));
                assert(list[k] == JsonView::Str(c.id));
            }
        }
    }
    assert forall|i: int|
        0 <= i < clients.len() && (#[trigger] clients[i]).peer != peer && is_meant(
            message,
            clients[i],
        ) implies exists|k: int|
        0 <= k < sent.len() && (#[trigger] sent[k]).0 == clients[i].peer by {
        assert(clients.contains(clients[i]));
        assert(reached.contains(clients[i]));
        let k = reached.index_of(clients[i]);
        assert(sent[k].0 == clients[i].peer);
    }
    assert forall|k: int| 0 <= k < sent.len() implies {
        &&& is_from(clients, peer, message, (#[trigger] sent[k]).1)
        &&& sent[k].0 != peer
        &&& exists|i: int|
            0 <= i < clients.len() && (#[trigger] clients[i]).peer == sent[k].0 && is_meant(
                message,
                clients[i],
            )
    } by {
        assert(reached.contains(reached[k]));
        let i = clients.index_of(reached[k]);
        assert(clients[i] == reached[k]);
    }
}

proof fn lemma_broadcast_names()
    ensures
        "sourceClientId"@ != "targetClientIds"@,
        "sourceClientId"@ != "targetClientId"@,
        "sourceClientId"@ != "timeoutMs"@,
        "sourceClientId"@ != "method"@,
{
    reveal_strlit("sourceClientId");
    reveal_strlit("targetClientIds");
    reveal_strlit("targetClientId");
    reveal_strlit("timeoutMs");
    reveal_strlit("method");
    assert("sourceClientId"@[0] == 's');
    assert("targetClientIds"@[0] == 't');
    assert("targetClientId"@[0] == 't');
    assert("timeoutMs"@[0] == 't');
    assert("method"@[0] == 'm');
}

proof fn lemma_filtered_distinct(clients: Seq<ClientView>, keep: spec_fn(ClientView) -> bool)
    requires
        are_distinct(clients),
    ensures
        are_distinct(clients.filter(keep)),
    decreases clients.len(),
{
    reveal(Seq::filter);
    if clients.len() > 0 {
        let rest = clients.drop_last();
        assert(are_distinct(rest)) by {
            assert forall|i: int, j: int| 0 <= i < j < rest.len() implies (
            #[trigger] rest[i]).peer != (#[trigger] rest[j]).peer by {
                assert(rest[i] == clients[i] && rest[j] == clients[j]);
            }
        }
        lemma_filtered_distinct(rest, keep);
        lemma_filter_members(rest, keep);
        let kept = rest.filter(keep);
        if keep(clients.last()) {
            let all = kept.push(clients.last());
            assert forall|i: int, j: int| 0 <= i < j < all.len() implies (#[trigger] all[i]).peer
                != (#[trigger] all[j]).peer by {
                if j == kept.len() {
                    assert(kept.contains(kept[i]));
                    let k = rest.index_of(kept[i]);
                    assert(clients[k] == kept[i]);
                    assert(clients[k].peer != clients[clients.len() - 1].peer);
                } else {
                    assert(kept[i] == all[i] && kept[j] == all[j]);
                }
            }
        }
    }
}

/// Whether a request may be handled by a client: it names that one by its id, or no one.
pub open spec fn may_handle(message: JsonView, client: ClientView) -> bool {
    message.at("targetClientId"@) is Str ==> message.at("targetClientId"@) == JsonView::Str(
        client.id,
    )
}

/// Whether a message is a request that a router takes on: neither a registration nor
/// without an id or a method, and there is room for it.
pub open spec fn is_taken_on(state: RouterView, message: JsonView, ids: Seq<Seq<char>>) -> bool {
    &&& message.at("type"@) == JsonView::Str("request"@)
    &&& message.at("requestId"@) is Str
    &&& message.at("method"@) is Str
    &&& message.at("method"@) != JsonView::Str("initialize"@)
    &&& state.pending.len() < 128
    &&& ids.len() > state.clients.len()
}

/// Whether a request of a peer is for the client at a position.
pub open spec fn is_able(state: RouterView, peer: Peer, message: JsonView, i: int) -> bool {
    0 <= i < state.clients.len() && state.clients[i].peer != peer && may_handle(
        message,
        state.clients[i],
    )
}

/// A request is offered to every other client that may handle it, and to no one else: each
/// is asked once, under an id of its own, with the request as it came, under the true id of
/// its sender. Where there is no such client the one who asked is told so.
pub proof fn law_requests_are_offered_to_all_that_may_handle_them(
    state: RouterView,
    peer: Peer,
    message: JsonView,
    now: int,
    ids: Seq<Seq<char>>,
)
    requires
        are_distinct(state.clients),
        is_taken_on(state, message, ids),
    ensures
        ({
            let (next, sent) = step(state, peer, message, now, ids);
            &&& next.clients == state.clients
            &&& (forall|i: int| !#[trigger] is_able(state, peer, message, i)) ==> {
                &&& next == state
                &&& sent.len() == 1
                &&& sent[0].0 == peer
                &&& sent[0].1.at("requestId"@) == message.at("requestId"@)
                &&& sent[0].1.at("error"@) == JsonView::Str("no-client-found"@)
            }
            &&& (exists|i: int| #[trigger] is_able(state, peer, message, i)) ==> {
                &&& forall|i: int| #[trigger]
                    is_able(state, peer, message, i) ==> exists|k: int|
                        0 <= k < sent.len() && (#[trigger] sent[k]).0 == state.clients[i].peer
                &&& forall|k: int|
                    0 <= k < sent.len() ==> {
                        &&& (#[trigger] sent[k]).1.at("type"@) == JsonView::Str(
                            "client-discovery-request"@,
                        )
                        &&& sent[k].1.at("requestId"@) == JsonView::Str(ids[k])
                        &&& is_from(state.clients, peer, message, sent[k].1.at("request"@))
                        &&& exists|i: int| #[trigger]
                            is_able(state, peer, message, i) && state.clients[i].peer == sent[k].0
                    }
                &&& forall|k: int, l: int|
                    0 <= k < l < sent.len() ==> (#[trigger] sent[k]).0 != (#[trigger] sent[l]).0
                &&& next.pending.len() > 0
                &&& next.pending.last().source == peer
                &&& next.pending.last().key == ids[sent.len() as int]
                &&& is_from(state.clients, peer, message, next.pending.last().request)
                &&& next.pending.last().target is None
                &&& next.pending.last().willing.len() == 0
            }
        }),
{
    lemma_kinds();
    lemma_member_names();
    lemma_broadcast_names();
    let clients = state.clients;
    let told = stamped(clients, peer, message);
    law_messages_are_passed_on(clients, peer, message);
    let keep = |c: ClientView| c.peer != peer && addressed(told, c);
    let found = clients.filter(keep);
    assert(found == candidates(clients, peer, told));
    lemma_filter_members(clients, keep);
    lemma_filtered_distinct(clients, keep);
    let (next, sent) = step(state, peer, message, now, ids);
    assert forall|i: int| 0 <= i < clients.len() && keep(#[trigger] clients[i]) implies is_able(
        state,
        peer,
        message,
        i,
    ) && found.contains(clients[i]) by {
        assert(clients.contains(clients[i]));
    }
    assert forall|i: int| #[trigger] is_able(state, peer, message, i) implies keep(clients[i]) by {
        if told.at("targetClientId"@) is Str {
            assert(told.at("targetClientId"@) == message.at("targetClientId"@));
        }
    }
    if found.len() == 0 {
        assert forall|i: int| !#[trigger] is_able(state, peer, message, i) by {
            if is_able(state, peer, message, i) {
                assert(keep(clients[i]));
                assert(found.contains(clients[i]));
            }
        }
    } else {
        assert(found.contains(found[0]));
        let at = clients.index_of(found[0]);
        assert(keep(clients[at]));
        assert(is_able(state, peer, message, at));
        assert forall|i: int| #[trigger] is_able(state, peer, message, i) implies exists|k: int|
            0 <= k < sent.len() && (#[trigger] sent[k]).0 == clients[i].peer by {
            assert(keep(clients[i]));
            assert(found.contains(clients[i]));
            let k = found.index_of(clients[i]);
            assert(sent[k].0 == clients[i].peer);
        }
        assert forall|k: int| 0 <= k < sent.len() implies {
            &&& (#[trigger] sent[k]).1.at("type"@) == JsonView::Str("client-discovery-request"@)
            &&& sent[k].1.at("requestId"@) == JsonView::Str(ids[k])
            &&& is_from(clients, peer, message, sent[k].1.at("request"@))
            &&& exists|i: int| #[trigger]
                is_able(state, peer, message, i) && clients[i].peer == sent[k].0
        } by {
            assert(sent[k] == (found[k].peer, discovery_view(ids[k], told)));
            assert(found.contains(found[k]));
            let i = clients.index_of(found[k]);
            assert(keep(clients[i]));
            assert(is_able(state, peer, message, i));
        }
        assert forall|k: int, l: int| 0 <= k < l < sent.len() implies (#[trigger] sent[k]).0 != (
        #[trigger] sent[l]).0 by {
            assert(found[k].peer != found[l].peer);
        }
    }
}

/// The answers that a router awaits to its offers are one for each, from the client that was
/// asked and under the id that it was given.
pub proof fn law_each_offer_is_awaited(
    clients: Seq<ClientView>,
    ids: Seq<Seq<char>>,
    k: int,
)
    requires
        ids.len() >= clients.len(),
        forall|i: int, j: int|
            0 <= i < j < clients.len() ==> #[trigger] ids[i] != #[trigger] ids[j],
        0 <= k < clients.len(),
    ensures
        awaited_answers(clients, ids).len() == clients.len(),
        awaited_answers(clients, ids)[k] == (ids[k], clients[k].peer),
    decreases clients.len(),
{
    lemma_awaited(clients, ids);
}

proof fn lemma_awaited(clients: Seq<ClientView>, ids: Seq<Seq<char>>)
    requires
        ids.len() >= clients.len(),
        forall|i: int, j: int|
            0 <= i < j < clients.len() ==> #[trigger] ids[i] != #[trigger] ids[j],
    ensures
        awaited_answers(clients, ids) == Seq::new(
            clients.len(),
            |k: int| (ids[k], clients[k].peer),
        ),
    decreases clients.len(),
{
    if clients.len() == 0 {
        assert(awaited_answers(clients, ids) =~= Seq::new(
            0nat,
            |k: int| (ids[k], clients[k].peer),
        ));
    } else {
        let rest = clients.drop_last();
        lemma_awaited(rest, ids);
        let id = ids[clients.len() - 1];
        let before = awaited_answers(rest, ids);
        assert forall|k: int| 0 <= k < before.len() implies (#[trigger] before[k]).0 != id by {
            assert(ids[k] != ids[clients.len() - 1]);
        }
        lemma_nothing_dropped(before, id);
        assert(awaited_answers(clients, ids) =~= Seq::new(
            clients.len(),
            |k: int| (ids[k], clients[k].peer),
        ));
    }
}

proof fn lemma_nothing_dropped(awaited: Seq<(Seq<char>, Peer)>, id: Seq<char>)
    requires
        forall|k: int| 0 <= k < awaited.len() ==> (#[trigger] awaited[k]).0 != id,
    ensures
        without_id(awaited, id) == awaited,
    decreases awaited.len(),
{
    reveal(Seq::filter);
    if awaited.len() > 0 {
        let rest = awaited.drop_last();
        assert forall|k: int| 0 <= k < rest.len() implies (#[trigger] rest[k]).0 != id by {
            assert(rest[k] == awaited[k]);
        }
        lemma_nothing_dropped(rest, id);
        assert(awaited[awaited.len() - 1].0 != id);
        assert(rest.push(awaited.last()) =~= awaited);
    }
}

/// A request that is offered waits for the answer to each offer, from the client that was
/// asked and under the id that it was given.
pub proof fn law_offers_are_awaited(
    state: RouterView,
    peer: Peer,
    message: JsonView,
    now: int,
    ids: Seq<Seq<char>>,
    k: int,
)
    requires
        is_taken_on(state, message, ids),
        forall|i: int, j: int|
            0 <= i < j < ids.len() ==> #[trigger] ids[i] != #[trigger] ids[j],
    ensures
        ({
            let (next, sent) = step(state, peer, message, now, ids);
            next != state ==> {
                &&& next.pending.last().awaited.len() == sent.len()
                &&& 0 <= k < sent.len() ==> next.pending.last().awaited[k] == (ids[k], sent[k].0)
            }
        }),
{
    let request = stamped(state.clients, peer, message);
    let found = candidates(state.clients, peer, request);
    lemma_filter_members(
        state.clients,
        |c: ClientView| c.peer != peer && addressed(request, c),
    );
    lemma_awaited(found, ids);
}

/// How long a request may take, in milliseconds, by its members alone: four seconds where
/// it asks for editor context; otherwise what it says, but at least one and at most a
/// minute; and ten seconds where it says no number that can be.
pub proof fn law_time_limits(request: JsonView)
    ensures
        request.at("method"@) == JsonView::Str("ide-context"@) ==> budget(request) == 4_000,
        request.at("method"@) != JsonView::Str("ide-context"@) ==> {
            &&& request.at("timeoutMs"@) matches JsonView::Int(n) ==> {
                &&& 1 <= n <= 60_000 ==> budget(request) == n
                &&& n == 0 ==> budget(request) == 1
                &&& 60_000 < n <= u64::MAX ==> budget(request) == 60_000
                &&& n < 0 || n > u64::MAX ==> budget(request) == 10_000
            }
            &&& !(request.at("timeoutMs"@) is Int) ==> budget(request) == 10_000
        },
        is_ide(request) <==> request.at("method"@) == JsonView::Str("ide-context"@),
{
}

/// A request that is taken on is due that long after it came, in nanoseconds.
pub proof fn law_deadlines(
    state: RouterView,
    peer: Peer,
    message: JsonView,
    now: int,
    ids: Seq<Seq<char>>,
)
    requires
        is_taken_on(state, message, ids),
    ensures
        ({
            let (next, sent) = step(state, peer, message, now, ids);
            next != state ==> next.pending.len() > 0 && next.pending.last().deadline == now
                + 1_000_000 * budget(message)
        }),
{
    lemma_kinds();
    lemma_broadcast_names();
    assert(budget(stamped(state.clients, peer, message)) == budget(message));
}

/// A message that is neither a request, an answer to an offer, a response nor a broadcast,
/// or a request without an id or a method, changes nothing and reaches no one.
pub proof fn law_other_messages_are_dropped(
    state: RouterView,
    peer: Peer,
    message: JsonView,
    now: int,
    ids: Seq<Seq<char>>,
)
    requires
        ({
            let kind = message.at("type"@);
            ||| kind != JsonView::Str("request"@) && kind != JsonView::Str(
                "client-discovery-response"@,
            ) && kind != JsonView::Str("response"@) && kind != JsonView::Str("broadcast"@)
            ||| kind == JsonView::Str("request"@) && !(message.at("requestId"@) is Str
                && message.at("method"@) is Str)
        }),
    ensures
        step(state, peer, message, now, ids) == (state, Seq::<(Peer, JsonView)>::empty()),
{
    lemma_kinds();
}

/// Whether a document tells that a client came or went.
pub open spec fn tells_of(news: JsonView, client: ClientView, status: Seq<char>) -> bool {
    &&& news.at("type"@) == JsonView::Str("broadcast"@)
    &&& news.at("method"@) == JsonView::Str("client-status-changed"@)
    &&& news.at("sourceClientId"@) == JsonView::Str(client.id)
    &&& news.at("version"@) == JsonView::Int(0)
    &&& news.at("params"@).at("clientId"@) == JsonView::Str(client.id)
    &&& news.at("params"@).at("clientType"@) == JsonView::Str(client.kind)
    &&& news.at("params"@).at("status"@) == JsonView::Str(status)
}

proof fn lemma_tells_of(client: ClientView, status: Seq<char>)
    ensures
        tells_of(status_view(client, status), client, status),
{
    lemma_member_names();
    lemma_context_names();
}

/// A peer that registers for the first time becomes a client under the first id, of the
/// kind that it says. It is told that id, and every other client is told of it, once.
pub proof fn law_newcomers_are_announced(
    state: RouterView,
    peer: Peer,
    message: JsonView,
    now: int,
    ids: Seq<Seq<char>>,
    kind: Seq<char>,
)
    requires
        are_distinct(state.clients),
        forall|i: int| 0 <= i < state.clients.len() ==> (#[trigger] state.clients[i]).peer != peer,
        message.at("type"@) == JsonView::Str("request"@),
        message.at("requestId"@) is Str,
        message.at("method"@) == JsonView::Str("initialize"@),
        message.at("params"@).at("clientType"@) == JsonView::Str(kind),
    ensures
        ({
            let (next, sent) = step(state, peer, message, now, ids);
            let client = ClientView { peer, id: ids[0], kind };
            &&& next.clients == state.clients.push(client)
            &&& next.pending == state.pending
            &&& sent.len() == state.clients.len() + 1
            &&& forall|i: int|
                0 <= i < state.clients.len() ==> (#[trigger] sent[i]).0 == state.clients[i].peer
                    && tells_of(sent[i].1, client, "connected"@)
            &&& sent.last().0 == peer
            &&& sent.last().1.at("type"@) == JsonView::Str("response"@)
            &&& sent.last().1.at("requestId"@) == message.at("requestId"@)
            &&& sent.last().1.at("resultType"@) == JsonView::Str("success"@)
            &&& sent.last().1.at("result"@).at("clientId"@) == JsonView::Str(ids[0])
        }),
{
    lemma_member_names();
    lemma_registered(state.clients, peer);
    let client = ClientView { peer, id: ids[0], kind };
    let clients = state.clients.push(client);
    assert(are_distinct(clients)) by {
        assert forall|i: int, j: int| 0 <= i < j < clients.len() implies (
        #[trigger] clients[i]).peer != (#[trigger] clients[j]).peer by {
            assert(clients[i] == state.clients[i]);
        }
    }
    lemma_client_at(clients, peer, state.clients.len() as int);
    lemma_others(clients, peer);
    lemma_tells_of(client, "connected"@);
    if client_of(state.clients, peer) is Some {
        let c = client_of(state.clients, peer)->Some_0;
        let i = state.clients.index_of(c);
        assert(state.clients[i].peer == peer);
    }
    assert(others(clients, peer) =~= state.clients) by {
        assert(clients.drop_last() =~= state.clients);
        reveal(Seq::filter);
        lemma_all_others(state.clients, peer);
    }
    let (next, sent) = step(state, peer, message, now, ids);
    assert(sent.last() == (peer, registered_view(message, ids[0])));
}

proof fn lemma_others(clients: Seq<ClientView>, peer: Peer)
    ensures
        forall|c: ClientView| #[trigger]
            others(clients, peer).contains(c) <==> clients.contains(c) && c.peer != peer,
{
    lemma_filter_members(clients, |c: ClientView| c.peer != peer);
}

proof fn lemma_all_others(clients: Seq<ClientView>, peer: Peer)
    requires
        forall|i: int| 0 <= i < clients.len() ==> (#[trigger] clients[i]).peer != peer,
    ensures
        clients.filter(|c: ClientView| c.peer != peer) == clients,
    decreases clients.len(),
{
    reveal(Seq::filter);
    if clients.len() > 0 {
        let rest = clients.drop_last();
        assert forall|i: int| 0 <= i < rest.len() implies (#[trigger] rest[i]).peer != peer by {
            assert(rest[i] == clients[i]);
        }
        lemma_all_others(rest, peer);
        assert(clients[clients.len() - 1].peer != peer);
        assert(rest.push(clients.last()) =~= clients);
    }
}

/// A registration that does not say what kind of client it is for is refused, and changes
/// nothing.
pub proof fn law_registrations_need_a_kind(
    state: RouterView,
    peer: Peer,
    message: JsonView,
    now: int,
    ids: Seq<Seq<char>>,
)
    requires
        message.at("type"@) == JsonView::Str("request"@),
        message.at("requestId"@) is Str,
        message.at("method"@) == JsonView::Str("initialize"@),
        !(message.at("params"@).at("clientType"@) is Str),
    ensures
        ({
            let (next, sent) = step(state, peer, message, now, ids);
            &&& next == state
            &&& sent.len() == 1
            &&& sent[0].0 == peer
            &&& sent[0].1.at("requestId"@) == message.at("requestId"@)
            &&& sent[0].1.at("error"@) == JsonView::Str("invalid-initialize"@)
        }),
{
    lemma_member_names();
}

/// Whether a request waits for a peer, or was accepted by it or handed to it.
pub open spec fn rests_on(p: PendingView, peer: Peer) -> bool {
    ||| p.target == Some(peer)
    ||| exists|k: int| 0 <= k < p.willing.len() && #[trigger] p.willing[k] == peer
    ||| exists|k: int| 0 <= k < p.awaited.len() && (#[trigger] p.awaited[k]).1 == peer
}

proof fn lemma_rests_on(p: PendingView, peer: Peer)
    ensures
        involves(p, peer) == rests_on(p, peer),
{
    if p.willing.contains(peer) {
        let k = p.willing.index_of(peer);
        assert(p.willing[k] == peer);
    }
    if exists|k: int| 0 <= k < p.willing.len() && #[trigger] p.willing[k] == peer {
        let k = choose|k: int| 0 <= k < p.willing.len() && #[trigger] p.willing[k] == peer;
        assert(p.willing.contains(peer));
    }
}

/// Whether a letter is one of those that the end of a connection leads to: news of it for
/// another client, or the refusal of a request that rests on it.
pub open spec fn is_farewell(state: RouterView, peer: Peer, letter: (Peer, JsonView)) -> bool {
    ||| exists|i: int, j: int|
        0 <= i < state.clients.len() && 0 <= j < state.clients.len() && (
        #[trigger] state.clients[i]).peer == peer && (#[trigger] state.clients[j]).peer != peer
            && letter.0 == state.clients[j].peer && tells_of(
            letter.1,
            state.clients[i],
            "disconnected"@,
        )
    ||| exists|i: int|
        0 <= i < state.pending.len() && (#[trigger] state.pending[i]).source != peer && rests_on(
            state.pending[i],
            peer,
        ) && letter == (
            state.pending[i].source,
            error_view(state.pending[i].request, "client-disconnected"@),
        )
}

/// When a connection ends, every other client is told of it where it was one's own; the
/// requests that rest on it are refused, to those who made them; its own are dropped; all
/// others stay, as do the other clients. Nothing else is said.
pub proof fn law_departures_are_announced(state: RouterView, peer: Peer)
    requires
        are_distinct(state.clients),
    ensures
        ({
            let (next, sent) = disconnect_step(state, peer);
            &&& forall|i: int|
                0 <= i < state.clients.len() && (#[trigger] state.clients[i]).peer != peer
                    ==> next.clients.contains(state.clients[i])
            &&& forall|i: int|
                0 <= i < next.clients.len() ==> (#[trigger] next.clients[i]).peer != peer
                    && state.clients.contains(next.clients[i])
            &&& forall|i: int|
                0 <= i < state.pending.len() ==> {
                    &&& next.pending.contains(#[trigger] state.pending[i])
                        <==> state.pending[i].source != peer && !rests_on(state.pending[i], peer)
                    &&& state.pending[i].source != peer && rests_on(state.pending[i], peer)
                        ==> sent.contains(
                        (
                            state.pending[i].source,
                            error_view(state.pending[i].request, "client-disconnected"@),
                        ),
                    )
                }
            &&& forall|k: int| 0 <= k < sent.len() ==> #[trigger] is_farewell(state, peer, sent[k])
            &&& forall|i: int, j: int|
                0 <= i < state.clients.len() && 0 <= j < state.clients.len()
                    && state.clients[i].peer == peer && state.clients[j].peer != peer
                    ==> exists|k: int|
                    0 <= k < sent.len() && (#[trigger] sent[k]).0 == (
                    #[trigger] state.clients[j]).peer && tells_of(
                        sent[k].1,
                        #[trigger] state.clients[i],
                        "disconnected"@,
                    )
        }),
{
    let clients = state.clients;
    let (next, sent) = disconnect_step(state, peer);
    let keep = |p: PendingView| p.source != peer && !involves(p, peer);
    let fail = |p: PendingView| p.source != peer && involves(p, peer);
    lemma_others(clients, peer);
    lemma_filter_members(state.pending, keep);
    lemma_filter_members(state.pending, fail);
    let failed = state.pending.filter(fail);
    let news = crate::router::status_mail(clients, peer, "disconnected"@);
    assert(next.clients == others(clients, peer));
    assert forall|i: int| 0 <= i < next.clients.len() implies (#[trigger] next.clients[i]).peer
        != peer && clients.contains(next.clients[i]) by {
        assert(others(clients, peer).contains(next.clients[i]));
    }
    assert forall|i: int|
        0 <= i < clients.len() && (#[trigger] clients[i]).peer != peer
            implies next.clients.contains(clients[i]) by {
        assert(clients.contains(clients[i]));
    }
    assert forall|i: int| 0 <= i < state.pending.len() implies {
        &&& next.pending.contains(#[trigger] state.pending[i]) <==> state.pending[i].source != peer
            && !rests_on(state.pending[i], peer)
        &&& state.pending[i].source != peer && rests_on(state.pending[i], peer) ==> sent.contains(
            (
                state.pending[i].source,
                error_view(state.pending[i].request, "client-disconnected"@),
            ),
        )
    } by {
        let p = state.pending[i];
        lemma_rests_on(p, peer);
        assert(state.pending.contains(p));
        if fail(p) {
            assert(failed.contains(p));
            let k = failed.index_of(p);
            assert(sent[news.len() + k] == (
                p.source,
                error_view(p.request, "client-disconnected"@),
            ));
        }
    }
    assert forall|k: int| 0 <= k < sent.len() implies #[trigger] is_farewell(
        state,
        peer,
        sent[k],
    ) by {
        lemma_registered(clients, peer);
        if k < news.len() {
            let own = client_of(clients, peer)->Some_0;
            let i = clients.index_of(own);
            assert(clients[i].peer == peer);
            lemma_tells_of(own, "disconnected"@);
            let other = others(clients, peer)[k];
            assert(others(clients, peer).contains(other));
            let j = clients.index_of(other);
            assert(clients[j].peer != peer);
            assert(sent[k] == (clients[j].peer, status_view(clients[i], "disconnected"@)));
        } else {
            let p = failed[k - news.len()];
            assert(failed.contains(p));
            let i = state.pending.index_of(p);
            assert(state.pending[i] == p);
            lemma_rests_on(p, peer);
        }
    }
    assert forall|i: int, j: int|
        0 <= i < clients.len() && 0 <= j < clients.len() && clients[i].peer == peer
            && clients[j].peer != peer implies exists|k: int|
        0 <= k < sent.len() && (#[trigger] sent[k]).0 == (#[trigger] clients[j]).peer && tells_of(
            sent[k].1,
            #[trigger] clients[i],
            "disconnected"@,
        ) by {
        lemma_client_at(clients, peer, i);
        lemma_tells_of(clients[i], "disconnected"@);
        assert(clients.contains(clients[j]));
        assert(others(clients, peer).contains(clients[j]));
        let k = others(clients, peer).index_of(clients[j]);
        assert(news[k] == (clients[j].peer, status_view(clients[i], "disconnected"@)));
        assert(sent[k] == news[k]);
    }
}

/// When the time is told, only those who made requests that are overdue are told anything:
/// that those have timed out.
pub proof fn law_only_overdue_requests_time_out(state: RouterView, now: int, k: int)
    requires
        0 <= k < expire_step(state, now).1.len(),
    ensures
        ({
            let sent = expire_step(state, now).1;
            exists|i: int|
                0 <= i < state.pending.len() && (#[trigger] state.pending[i]).deadline <= now
                    && sent[k] == (
                    state.pending[i].source,
                    error_view(state.pending[i].request, "request-timeout"@),
                )
        }),
        expire_step(state, now).0.clients == state.clients,
{
    let fail = |p: PendingView| p.deadline <= now;
    let failed = state.pending.filter(fail);
    lemma_filter_members(state.pending, fail);
    assert(failed.contains(failed[k]));
    let i = state.pending.index_of(failed[k]);
    assert(state.pending[i] == failed[k]);
}

/// A response of the client that a request was handed to says truly which client handled
/// the request where it is a success, and is otherwise passed on as it came, under the id
/// of the request.
pub proof fn law_handlers_are_named(
    clients: Seq<ClientView>,
    peer: Peer,
    i: int,
    request: JsonView,
    message: JsonView,
)
    requires
        are_distinct(clients),
        0 <= i < clients.len(),
        clients[i].peer == peer,
        message is Object,
    ensures
        ({
            let response = returned(clients, peer, request, message);
            &&& response.at("requestId"@) == request.at("requestId"@)
            &&& message.at("resultType"@) == JsonView::Str("success"@) ==> response.at(
                "handledByClientId"@,
            ) == JsonView::Str(clients[i].id)
            &&& message.at("resultType"@) != JsonView::Str("success"@) ==> response.at(
                "handledByClientId"@,
            ) == message.at("handledByClientId"@)
            &&& forall|name: Seq<char>|
                name != "requestId"@ && name != "handledByClientId"@ ==> #[trigger] response.at(
                    name,
                ) == message.at(name)
        }),
{
    lemma_member_names();
    lemma_client_at(clients, peer, i);
}

/// A router with 128 requests under way takes no more: it refuses them, and nothing changes.
/// With fewer it does not.
pub proof fn law_full_routers_refuse(
    state: RouterView,
    peer: Peer,
    message: JsonView,
    now: int,
    ids: Seq<Seq<char>>,
)
    requires
        message.at("type"@) == JsonView::Str("request"@),
        message.at("requestId"@) is Str,
        message.at("method"@) is Str,
        message.at("method"@) != JsonView::Str("initialize"@),
    ensures
        ({
            let (next, sent) = step(state, peer, message, now, ids);
            &&& state.pending.len() >= 128 ==> {
                &&& next == state
                &&& sent.len() == 1
                &&& sent[0].0 == peer
                &&& sent[0].1.at("requestId"@) == message.at("requestId"@)
                &&& sent[0].1.at("error"@) == JsonView::Str("router-busy"@)
            }
            &&& state.pending.len() < 128 ==> forall|k: int|
                0 <= k < sent.len() ==> (#[trigger] sent[k]).1.at("error"@) != JsonView::Str(
                    "router-busy"@,
                )
        }),
{
    lemma_kinds();
    lemma_member_names();
    reveal_strlit("router-busy");
    reveal_strlit("no-client-found");
    assert("router-busy"@.len() == 11);
    assert("no-client-found"@.len() == 15);
}

} // verus!
