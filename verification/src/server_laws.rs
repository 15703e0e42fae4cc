//! What holds of a server throughout its life.
use crate::json::{Json, JsonView};
use crate::protocol::REQUEST_BUDGET_MILLIS;
use crate::queue::{
    delivery_of, outcome_of, DeliveryView, OfferView, Outcome, INBOUND_CAPACITY, OUTBOUND_CAPACITY,
};
use crate::router::{
    addressed, awaiting, candidates, disconnect_step, expire_step, in_order, involves, listed,
    others, stamped, step, under_key, ClientView, Peer, MAX_PENDING,
};
use crate::router_laws::{
    law_expire_keeps_invariant, law_messages_keep_invariant, lemma_awaiting_found,
    lemma_under_key_found,
};
use crate::sequence::lemma_filter_members;
use crate::server::{
    can_happen, deliver_step, deliver_steps, deliverable, empty_server, is_delivered,
    is_delivered_with, is_handled, is_received_with, law_cut_off_keeps_invariant,
    law_deliveries_keep_invariant, lemma_expire_covered, lemma_message_covered, offer_to,
    ServerActionView, ServerEventView, ServerView, ACCEPT_RETRY_MILLIS, ENDPOINT_CHECK_MILLIS,
    MAX_PEERS, TICK_MILLIS,
};
use crate::session::QUERY_BUDGET_MILLIS;
use tokio::sync::mpsc::Sender;
use vstd::prelude::*;

verus! {

/// Whatever comes of deliveries, no one is connected who was not, and whoever is cut
/// off leaves nothing behind: no client and no request of theirs.
pub proof fn law_who_is_cut_off_is_gone(
    server: ServerView,
    outgoing: Seq<(Peer, JsonView)>,
    outcomes: Seq<Outcome>,
    peer: Peer,
)
    requires
        server.wf(),
    ensures
        ({
            let next = deliver_steps(server, outgoing, outcomes).0;
            &&& next.peers().contains(peer) ==> server.peers().contains(peer)
            &&& !next.peers().contains(peer) ==> {
                &&& forall|i: int|
                    0 <= i < next.router.clients.len() ==> (
                    #[trigger] next.router.clients[i]).peer != peer
                &&& forall|i: int|
                    0 <= i < next.router.pending.len() ==> (
                    #[trigger] next.router.pending[i]).source != peer
            }
        }),
    decreases outcomes.len(),
{
    law_deliveries_keep_invariant(server, outgoing, outcomes);
    if outcomes.len() > 0 {
        law_who_is_cut_off_is_gone(server, outgoing, outcomes.drop_last(), peer);
    }
}

/// What the queues get of messages while each is taken: those whose recipients are
/// connected, each put once to its recipient's own queue, in order.
pub open spec fn taken(
    queues: Map<Peer, Sender<Json>>,
    outgoing: Seq<(Peer, JsonView)>,
) -> Seq<OfferView>
    decreases outgoing.len(),
{
    if outgoing.len() == 0 {
        Seq::empty()
    } else {
        let rest = taken(queues, outgoing.drop_first());
        if queues.contains_key(outgoing[0].0) {
            seq![offer_to(queues, outgoing[0], Outcome::Sent)] + rest
        } else {
            rest
        }
    }
}

/// A connection that keeps up is never cut off, and loses nothing: while every message is
/// taken, connections and router stay, and the queues get exactly the messages whose
/// recipients are connected.
pub proof fn law_who_keeps_up_gets_all(
    server: ServerView,
    outgoing: Seq<(Peer, JsonView)>,
    outcomes: Seq<Outcome>,
    after: ServerView,
)
    requires
        is_delivered_with(server, outgoing, outcomes, after),
        forall|i: int| 0 <= i < outcomes.len() ==> #[trigger] outcomes[i] is Sent,
    ensures
        after == (ServerView {
            offered: server.offered + taken(server.queues, outgoing),
            ..server
        }),
{
    lemma_all_taken(server, outgoing, outcomes);
    let left = deliver_steps(server, outgoing, outcomes).1;
    lemma_taken_of_deliverable(server.queues, left);
    assert(after.offered + taken(server.queues, left) =~= after.offered);
}

/// While every message is taken, what was put to queues and what they get of the rest make
/// up all that they get.
proof fn lemma_all_taken(
    server: ServerView,
    outgoing: Seq<(Peer, JsonView)>,
    outcomes: Seq<Outcome>,
)
    requires
        forall|i: int| 0 <= i < outcomes.len() ==> #[trigger] outcomes[i] is Sent,
    ensures
        ({
            let (after, left) = deliver_steps(server, outgoing, outcomes);
            &&& after == (ServerView { offered: after.offered, ..server })
            &&& after.offered + taken(server.queues, left) == server.offered + taken(
                server.queues,
                outgoing,
            )
        }),
    decreases outcomes.len(),
{
    if outcomes.len() > 0 {
        let earlier = outcomes.drop_last();
        assert forall|i: int| 0 <= i < earlier.len() implies #[trigger] earlier[i] is Sent by {
            assert(earlier[i] == outcomes[i]);
        }
        assert(outcomes[outcomes.len() - 1] is Sent);
        lemma_all_taken(server, outgoing, earlier);
        let (next, waiting) = deliver_steps(server, outgoing, earlier);
        let left = deliverable(server.peers(), waiting);
        lemma_taken_of_deliverable(server.queues, waiting);
        if left.len() > 0 {
            let first = offer_to(server.queues, left[0], Outcome::Sent);
            let rest = taken(server.queues, left.drop_first());
            assert(left.drop_first() + Seq::<(Peer, JsonView)>::empty() =~= left.drop_first());
            assert(next.offered.push(first) + rest =~= next.offered + (seq![first] + rest));
        }
    }
}

/// The messages before the first that can be delivered reach no queue.
proof fn lemma_taken_of_deliverable(
    queues: Map<Peer, Sender<Json>>,
    waiting: Seq<(Peer, JsonView)>,
)
    ensures
        ({
            let left = deliverable(queues.dom(), waiting);
            &&& taken(queues, left) == taken(queues, waiting)
            &&& left.len() > 0 ==> queues.contains_key(left[0].0)
        }),
    decreases waiting.len(),
{
    if waiting.len() > 0 && !queues.contains_key(waiting[0].0) {
        lemma_taken_of_deliverable(queues, waiting.drop_first());
    }
}

/// Whatever comes of deliveries, what was put to queues before stays on record.
pub proof fn law_offers_only_grow(
    server: ServerView,
    outgoing: Seq<(Peer, JsonView)>,
    outcomes: Seq<Outcome>,
)
    ensures
        server.offered.is_prefix_of(deliver_steps(server, outgoing, outcomes).0.offered),
    decreases outcomes.len(),
{
    if outcomes.len() > 0 {
        law_offers_only_grow(server, outgoing, outcomes.drop_last());
        let (next, waiting) = deliver_steps(server, outgoing, outcomes.drop_last());
        let after = deliver_step(next, waiting, outcomes.last()).0;
        assert(next.offered.is_prefix_of(after.offered));
    }
}

/// What a router says to a message is said to connections: nothing is addressed to one
/// that is gone.
pub proof fn law_mail_is_for_connections(
    server: ServerView,
    peer: Peer,
    message: JsonView,
    now: int,
    ids: Seq<Seq<char>>,
)
    requires
        server.wf(),
        server.peers().contains(peer),
    ensures
        ({
            let outgoing = step(server.router, peer, message, now, ids).1;
            forall|i: int|
                0 <= i < outgoing.len() ==> server.peers().contains((#[trigger] outgoing[i]).0)
        }),
{
    let state = server.router;
    let outgoing = step(state, peer, message, now, ids).1;
    let kind = message.at("type"@);
    let request = stamped(state.clients, peer, message);
    assert forall|i: int| 0 <= i < outgoing.len() implies server.peers().contains(
        (#[trigger] outgoing[i]).0,
    ) by {
        if outgoing[i].0 != peer {
            if kind == JsonView::Str("request"@) {
                if message.at("method"@) == JsonView::Str("initialize"@) {
                    let clients = step(state, peer, message, now, ids).0.clients;
                    lemma_kept(clients, |c: ClientView| c.peer != peer, i);
                    let client = others(clients, peer)[i];
                    let j = clients.index_of(client);
                    assert(state.clients[j] == client);
                } else {
                    let keep = |c: ClientView| c.peer != peer && addressed(request, c);
                    lemma_kept(state.clients, keep, i);
                    let client = candidates(state.clients, peer, request)[i];
                    let j = state.clients.index_of(client);
                    assert(state.clients[j] == client);
                }
            } else if kind == JsonView::Str("client-discovery-response"@) {
                let id = message.at("requestId"@)->Str_0;
                lemma_awaiting_found(state.pending, id, peer);
                let at = awaiting(state.pending, id, peer)->Some_0;
                let p = state.pending[at];
                assert(in_order(p, state.clients));
                if outgoing[i].0 != p.source {
                    assert(p.willing.len() > 0 && outgoing[i].0 == p.willing[0]);
                    assert(p.willing.contains(p.willing[0]));
                    assert(involves(p, p.willing[0]));
                    let j = choose|j: int|
                        0 <= j < state.clients.len() && (#[trigger] state.clients[j]).peer
                            == p.willing[0];
                    assert(server.peers().contains(state.clients[j].peer));
                }
            } else if kind == JsonView::Str("response"@) {
                let key = message.at("requestId"@)->Str_0;
                lemma_under_key_found(state.pending, key);
                let at = under_key(state.pending, key)->Some_0;
                assert(server.peers().contains(state.pending[at].source));
            } else {
                let keep = |c: ClientView| c.peer != peer && listed(request, c);
                lemma_kept(state.clients, keep, i);
                let client = state.clients.filter(keep)[i];
                let j = state.clients.index_of(client);
                assert(state.clients[j] == client);
            }
        }
    }
}

/// What is left after filtering was there before.
proof fn lemma_kept(clients: Seq<ClientView>, keep: spec_fn(ClientView) -> bool, i: int)
    requires
        0 <= i < clients.filter(keep).len(),
    ensures
        clients.contains(clients.filter(keep)[i]),
        keep(clients.filter(keep)[i]),
{
    lemma_filter_members(clients, keep);
    assert(clients.filter(keep).contains(clients.filter(keep)[i]));
}

/// Whether a server, empty at first, can have gone through these states by these events,
/// with these actions: it goes on until it is told to end.
pub open spec fn is_life(
    states: Seq<ServerView>,
    events: Seq<ServerEventView>,
    actions: Seq<ServerActionView>,
) -> bool {
    &&& states.len() == events.len() + 1
    &&& actions.len() == events.len()
    &&& states[0] == empty_server()
    &&& forall|i: int|
        0 <= i < events.len() ==> is_handled(
            #[trigger] states[i],
            events[i],
            states[i + 1],
            actions[i],
        )
    &&& forall|i: int| 0 <= i < actions.len() - 1 ==> !(#[trigger] actions[i] is End)
}

/// How many connections were taken.
pub open spec fn accepted(events: Seq<ServerEventView>) -> nat
    decreases events.len(),
{
    if events.len() == 0 {
        0
    } else {
        accepted(events.drop_last()) + if events.last() is Accept {
            1nat
        } else {
            0
        }
    }
}

/// Whether the connections of a server are among those of another, under the same numbers
/// and with the same queues.
pub open spec fn is_part_of(later: ServerView, earlier: ServerView) -> bool {
    forall|peer: Peer| #[trigger]
        later.queues.contains_key(peer) ==> earlier.queues.contains_key(peer)
            && later.queues[peer] == earlier.queues[peer]
}

/// Deliveries take no connection, and leave the queues of those that stay.
proof fn lemma_deliveries(
    server: ServerView,
    outgoing: Seq<(Peer, JsonView)>,
    outcomes: Seq<Outcome>,
)
    ensures
        ({
            let after = deliver_steps(server, outgoing, outcomes).0;
            &&& is_part_of(after, server)
            &&& after.last == server.last
        }),
    decreases outcomes.len(),
{
    if outcomes.len() > 0 {
        lemma_deliveries(server, outgoing, outcomes.drop_last());
        let (next, waiting) = deliver_steps(server, outgoing, outcomes.drop_last());
        let after = deliver_step(next, waiting, outcomes.last()).0;
        let left = deliverable(next.peers(), waiting);
        assert(is_part_of(after, next));
    }
}

/// Whether what came of putting a message to a queue is no reason to cut off its
/// connection: the queue took it, or is full and misses a broadcast.
pub open spec fn is_harmless(offer: OfferView) -> bool {
    match offer.outcome {
        Outcome::Sent => true,
        Outcome::Full => offer.message.at("type"@) == JsonView::Str("broadcast"@),
        Outcome::Closed => false,
    }
}

/// Whatever comes of deliveries to others, a connection whose queue takes all that is put
/// to it, but for broadcasts while it is full, is not cut off, and keeps its queue.
pub proof fn law_who_keeps_up_stays(
    server: ServerView,
    outgoing: Seq<(Peer, JsonView)>,
    outcomes: Seq<Outcome>,
    peer: Peer,
)
    requires
        server.queues.contains_key(peer),
        ({
            let offered = deliver_steps(server, outgoing, outcomes).0.offered;
            forall|i: int|
                server.offered.len() <= i < offered.len() && (#[trigger] offered[i]).queue
                    == server.queues[peer] ==> is_harmless(offered[i])
        }),
    ensures
        ({
            let queues = deliver_steps(server, outgoing, outcomes).0.queues;
            queues.contains_key(peer) && queues[peer] == server.queues[peer]
        }),
    decreases outcomes.len(),
{
    if outcomes.len() > 0 {
        let (next, waiting) = deliver_steps(server, outgoing, outcomes.drop_last());
        let after = deliver_step(next, waiting, outcomes.last()).0;
        let left = deliverable(next.peers(), waiting);
        law_offers_only_grow(server, outgoing, outcomes.drop_last());
        assert(after == deliver_steps(server, outgoing, outcomes).0);
        assert forall|i: int|
            server.offered.len() <= i < next.offered.len() && (#[trigger] next.offered[i]).queue
                == server.queues[peer] implies is_harmless(next.offered[i]) by {
            assert(after.offered[i] == next.offered[i]);
        }
        law_who_keeps_up_stays(server, outgoing, outcomes.drop_last(), peer);
        if left.len() > 0 && left[0].0 == peer {
            let n = next.offered.len() as int;
            assert(after.offered[n] == offer_to(next.queues, left[0], outcomes.last()));
            assert(is_harmless(after.offered[n]));
        }
    }
}

/// What delivering messages, until none is left, does to a server.
proof fn lemma_delivered(
    before: ServerView,
    outgoing: Seq<(Peer, JsonView)>,
    after: ServerView,
)
    requires
        before.wf(),
        is_delivered(before, outgoing, after),
    ensures
        after.wf(),
        after.last == before.last,
        is_part_of(after, before),
        before.offered.is_prefix_of(after.offered),
{
    let outcomes = choose|outcomes: Seq<Outcome>| #[trigger]
        is_delivered_with(before, outgoing, outcomes, after);
    law_deliveries_keep_invariant(before, outgoing, outcomes);
    law_offers_only_grow(before, outgoing, outcomes);
    lemma_deliveries(before, outgoing, outcomes);
}

/// Every event keeps a server in its invariant. Only one that takes a connection adds to
/// the connections and their numbers: it gives the number after the last. What was put to
/// queues stays on record.
pub proof fn law_events_keep_invariant(
    before: ServerView,
    event: ServerEventView,
    after: ServerView,
    action: ServerActionView,
)
    requires
        before.wf(),
        is_handled(before, event, after, action),
    ensures
        after.wf(),
        before.offered.is_prefix_of(after.offered),
        event matches ServerEventView::Accept(queue) ==> after == before.accepted(queue)
            && !before.queues.contains_key(after.last),
        !(event is Accept) ==> after.last == before.last && is_part_of(after, before),
{
    match event {
        ServerEventView::Accept(queue) => {
            assert(after.peers() =~= before.peers().insert(after.last));
        },
        ServerEventView::Message(peer, message, now) => {
            if before.peers().contains(peer) {
                let ids = choose|ids: Seq<Seq<char>>| #[trigger]
                    is_received_with(before, peer, message, now, ids, after);
                let (router, outgoing) = step(before.router, peer, message, now, ids);
                law_messages_keep_invariant(before.router, peer, message, now, ids);
                lemma_message_covered(before, peer, message, now, ids);
                lemma_delivered(ServerView { router, ..before }, outgoing, after);
            }
        },
        ServerEventView::Closed(peer) => {
            let (next, outgoing) = before.cut_off(peer);
            law_cut_off_keeps_invariant(before, peer);
            lemma_delivered(next, outgoing, after);
        },
        ServerEventView::Tick(now) => {
            let (router, outgoing) = expire_step(before.router, now);
            law_expire_keeps_invariant(before.router, now);
            lemma_expire_covered(before, now);
            lemma_delivered(ServerView { router, ..before }, outgoing, after);
        },
        ServerEventView::AcceptFailed | ServerEventView::Checked(_) => {},
    }
}

/// Throughout its life a server is in its invariant, so there are never too many
/// connections, and connections are numbered one, two, three and on in the order in which
/// they are taken: no number is given twice.
pub proof fn law_life(
    states: Seq<ServerView>,
    events: Seq<ServerEventView>,
    actions: Seq<ServerActionView>,
    i: int,
)
    requires
        is_life(states, events, actions),
        0 <= i <= events.len(),
    ensures
        states[i].wf(),
        states[i].peers().len() <= MAX_PEERS,
        states[i].last == accepted(events.take(i)),
        i < events.len() ==> (events[i] matches ServerEventView::Accept(queue) ==> ({
            let number = (accepted(events.take(i)) + 1) as Peer;
            &&& states[i].peers().len() < MAX_PEERS
            &&& actions[i] == ServerActionView::Attend(number)
            &&& !states[i].queues.contains_key(number)
            &&& states[i + 1].queues == states[i].queues.insert(number, queue)
        })),
    decreases i,
{
    if i == 0 {
        assert(empty_server().peers() =~= Set::empty());
        assert(events.take(0) =~= Seq::empty());
    } else {
        law_life(states, events, actions, i - 1);
        law_events_keep_invariant(states[i - 1], events[i - 1], states[i], actions[i - 1]);
        assert(events.take(i).drop_last() =~= events.take(i - 1));
        assert(events.take(i).last() == events[i - 1]);
    }
    if i < events.len() {
        law_events_keep_invariant(states[i], events[i], states[i + 1], actions[i]);
    }
}

/// A connection has one queue for as long as there is that connection, and a number whose
/// connection is gone stays unused for good: nothing that comes under it later changes
/// anything.
pub proof fn law_gone_for_good(
    states: Seq<ServerView>,
    events: Seq<ServerEventView>,
    actions: Seq<ServerActionView>,
    i: int,
    j: int,
    peer: Peer,
)
    requires
        is_life(states, events, actions),
        0 <= i <= j <= events.len(),
        1 <= peer <= states[i].last,
    ensures
        states[j].queues.contains_key(peer) ==> states[i].queues.contains_key(peer)
            && states[j].queues[peer] == states[i].queues[peer],
        !states[i].queues.contains_key(peer) && j < events.len() ==> (
        events[j] matches ServerEventView::Message(from, _, _) ==> from == peer ==> states[j + 1]
            == states[j]),
        states[i].last <= states[j].last,
    decreases j - i,
{
    if i < j {
        law_gone_for_good(states, events, actions, i, j - 1, peer);
        law_life(states, events, actions, j - 1);
        law_events_keep_invariant(states[j - 1], events[j - 1], states[j], actions[j - 1]);
    }
    if j < events.len() {
        assert(is_handled(states[j], events[j], states[j + 1], actions[j]));
    }
}

/// Nothing that was put to a queue is ever taken from the record.
pub proof fn law_offers_stay(
    states: Seq<ServerView>,
    events: Seq<ServerEventView>,
    actions: Seq<ServerActionView>,
    i: int,
    j: int,
)
    requires
        is_life(states, events, actions),
        0 <= i <= j <= events.len(),
    ensures
        states[i].offered.is_prefix_of(states[j].offered),
    decreases j - i,
{
    if i < j {
        law_offers_stay(states, events, actions, i, j - 1);
        law_life(states, events, actions, j - 1);
        law_events_keep_invariant(states[j - 1], events[j - 1], states[j], actions[j - 1]);
    }
}

/// A server goes on whatever happens, a connection that could not be taken included, which
/// leaves it as it is. It ends just when its endpoint is found to be replaced, and says so.
pub proof fn law_what_ends_a_server(
    states: Seq<ServerView>,
    events: Seq<ServerEventView>,
    actions: Seq<ServerActionView>,
    i: int,
)
    requires
        is_life(states, events, actions),
        0 <= i < events.len(),
    ensures
        actions[i] is End <==> events[i] matches ServerEventView::Checked(Err(_)),
        events[i] matches ServerEventView::Checked(Err(reason)) ==> i == events.len() - 1
            && actions[i] == ServerActionView::End(reason),
        events[i] is AcceptFailed ==> states[i + 1] == states[i] && actions[i]
            == ServerActionView::Pause(ACCEPT_RETRY_MILLIS),
{
    assert(is_handled(states[i], events[i], states[i + 1], actions[i]));
}

/// What comes next is the first message whose recipient is connected; those before it are
/// for no one, and those after it wait on, in order.
pub proof fn law_the_next_message(peers: Set<Peer>, waiting: Seq<(Peer, JsonView)>)
    ensures
        ({
            let left = deliverable(peers, waiting);
            let n = waiting.len() - left.len();
            &&& 0 <= n
            &&& left == waiting.skip(n)
            &&& left.len() > 0 ==> peers.contains(left[0].0)
            &&& forall|i: int| 0 <= i < n ==> !peers.contains((#[trigger] waiting[i]).0)
        }),
    decreases waiting.len(),
{
    let left = deliverable(peers, waiting);
    if waiting.len() > 0 && !peers.contains(waiting[0].0) {
        let rest = waiting.drop_first();
        law_the_next_message(peers, rest);
        let n = waiting.len() - left.len();
        assert(rest.skip(n - 1) =~= waiting.skip(n));
        assert forall|i: int| 0 <= i < n implies !peers.contains((#[trigger] waiting[i]).0) by {
            if i > 0 {
                assert(rest[i - 1] == waiting[i]);
            }
        }
    } else {
        assert(waiting.skip(0) =~= waiting);
    }
}

/// One message is put to the queue of its recipient. A recipient that is gone is cut off,
/// and so is one whose queue is full, unless the message is a broadcast, which it then
/// misses. Who is cut off is no connection any more, and what the router has to say to that
/// waits behind the rest. In every other case all connections and the router stay.
pub proof fn law_stalled_connections_are_cut_off(
    server: ServerView,
    peer: Peer,
    message: JsonView,
    rest: Seq<(Peer, JsonView)>,
    outcome: Outcome,
)
    requires
        server.queues.contains_key(peer),
    ensures
        ({
            let (next, waiting) = deliver_step(server, seq![(peer, message)] + rest, outcome);
            let ends = outcome is Closed || outcome is Full && message.at("type"@)
                != JsonView::Str("broadcast"@);
            &&& next.offered == server.offered.push(
                OfferView { queue: server.queues[peer], message, outcome },
            )
            &&& next.last == server.last
            &&& ends ==> {
                &&& next.queues == server.queues.remove(peer)
                &&& next.router == disconnect_step(server.router, peer).0
                &&& waiting == rest + disconnect_step(server.router, peer).1
            }
            &&& !ends ==> {
                &&& next.queues == server.queues
                &&& next.router == server.router
                &&& waiting == rest
            }
        }),
{
    let all = seq![(peer, message)] + rest;
    assert(all[0] == (peer, message));
    assert(all.drop_first() =~= rest);
    assert(rest + Seq::<(Peer, JsonView)>::empty() =~= rest);
}

/// What a server makes of what comes: a message of a connection is what the router makes of
/// it, with what it says delivered; the end of one is its being cut off; and the time is
/// told to the router.
pub proof fn law_events_reach_the_router(
    before: ServerView,
    event: ServerEventView,
    after: ServerView,
    action: ServerActionView,
)
    requires
        is_handled(before, event, after, action),
    ensures
        event matches ServerEventView::Message(peer, message, now) ==> {
            &&& !before.queues.contains_key(peer) ==> after == before
            &&& before.queues.contains_key(peer) ==> exists|
                ids: Seq<Seq<char>>,
                outcomes: Seq<Outcome>,
            |
                #![trigger step(before.router, peer, message, now, ids), deliver_steps(before, Seq::empty(), outcomes)]
                {
                    let (router, outgoing) = step(before.router, peer, message, now, ids);
                    &&& forall|i: int| 0 <= i < ids.len() ==> (#[trigger] ids[i]).len() == 36
                    &&& message.at("type"@) == JsonView::Str("request"@) ==> ids.len()
                        > before.router.clients.len()
                    &&& deliver_steps(ServerView { router, ..before }, outgoing, outcomes).0
                        == after
                }
        },
        event matches ServerEventView::Closed(peer) ==> !after.queues.contains_key(peer) && ({
            let (router, outgoing) = disconnect_step(before.router, peer);
            exists|outcomes: Seq<Outcome>|
                #![trigger deliver_steps(before, Seq::empty(), outcomes)]
                deliver_steps(
                    ServerView { router, queues: before.queues.remove(peer), ..before },
                    outgoing,
                    outcomes,
                ).0 == after
        }),
        event matches ServerEventView::Tick(now) ==> ({
            let (router, outgoing) = expire_step(before.router, now);
            exists|outcomes: Seq<Outcome>|
                #![trigger deliver_steps(before, Seq::empty(), outcomes)]
                deliver_steps(ServerView { router, ..before }, outgoing, outcomes).0 == after
        }),
        event matches ServerEventView::Accept(queue) ==> before.queues.len() < 64 && after.queues
            == before.queues.insert((before.last + 1) as Peer, queue) && action
            == ServerActionView::Attend((before.last + 1) as Peer),
        event is AcceptFailed ==> after == before && action == ServerActionView::Pause(100),
        event matches ServerEventView::Checked(Ok(_)) ==> after == before && action is GoOn,
        event matches ServerEventView::Checked(Err(reason)) ==> after == before && action
            == ServerActionView::End(reason),
{
    match event {
        ServerEventView::Message(peer, message, now) => {
            if before.peers().contains(peer) {
                let ids = choose|ids: Seq<Seq<char>>| #[trigger]
                    is_received_with(before, peer, message, now, ids, after);
                let (router, outgoing) = step(before.router, peer, message, now, ids);
                let start = ServerView { router, ..before };
                let outcomes = choose|outcomes: Seq<Outcome>| #[trigger]
                    is_delivered_with(start, outgoing, outcomes, after);
                assert(deliver_steps(before, Seq::empty(), outcomes) == deliver_steps(
                    before,
                    Seq::empty(),
                    outcomes,
                ));
                assert(deliver_steps(start, outgoing, outcomes).0 == after);
            }
        },
        ServerEventView::Closed(peer) => {
            let (start, outgoing) = before.cut_off(peer);
            let outcomes = choose|outcomes: Seq<Outcome>| #[trigger]
                is_delivered_with(start, outgoing, outcomes, after);
            lemma_deliveries(start, outgoing, outcomes);
            assert(deliver_steps(before, Seq::empty(), outcomes) == deliver_steps(
                before,
                Seq::empty(),
                outcomes,
            ));
            assert(deliver_steps(start, outgoing, outcomes).0 == after);
        },
        ServerEventView::Tick(now) => {
            let (router, outgoing) = expire_step(before.router, now);
            let start = ServerView { router, ..before };
            let outcomes = choose|outcomes: Seq<Outcome>| #[trigger]
                is_delivered_with(start, outgoing, outcomes, after);
            assert(deliver_steps(before, Seq::empty(), outcomes) == deliver_steps(
                before,
                Seq::empty(),
                outcomes,
            ));
            assert(deliver_steps(start, outgoing, outcomes).0 == after);
        },
        ServerEventView::Accept(_) => {
            assert(before.queues.len() == before.peers().len());
        },
        _ => {},
    }
}

/// What is handed back is the message that was put, and what came of it is told apart.
pub proof fn law_deliveries_hand_back(message: JsonView, outcome: Outcome)
    ensures
        outcome_of(delivery_of(message, outcome)) == outcome,
        outcome is Full ==> delivery_of(message, outcome) == DeliveryView::Full(message),
        outcome is Closed ==> delivery_of(message, outcome) == DeliveryView::Closed(message),
        outcome is Sent ==> delivery_of(message, outcome) is Sent,
{
}

/// Connections are taken just while there are fewer than 64 and there are numbers left.
pub proof fn law_room(server: ServerView, queue: Sender<Json>)
    ensures
        can_happen(server, ServerEventView::Accept(queue)) <==> server.peers().len() < 64
            && server.last < 0xffff_ffff_ffff_ffff,
{
}

/// How much may wait: for a connection half as many messages as requests may be under way,
/// and for the router as many. The editor has half the time of a request to answer.
pub proof fn law_waits_are_bounded()
    ensures
        2 * OUTBOUND_CAPACITY == MAX_PENDING && OUTBOUND_CAPACITY == 64,
        INBOUND_CAPACITY == MAX_PENDING && INBOUND_CAPACITY == 128,
        TICK_MILLIS == 50,
        ENDPOINT_CHECK_MILLIS == 1_000,
        2 * QUERY_BUDGET_MILLIS == REQUEST_BUDGET_MILLIS && QUERY_BUDGET_MILLIS == 2_000,
{
}

} // verus!
