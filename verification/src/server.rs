//! The router with its connections: messages go to each connection's own bounded queue,
//! and a connection that cannot take what it is party to is cut off.
use crate::json::{Json, JsonView};
use crate::queue::{delivery_of, outcome_of, Delivery, DeliveryView, OfferView, Offers, Outcome};
use crate::router::{
    awaiting, disconnect_step, expire_step, ids_needed, involves, is_identifier, mail, step,
    under_key, without_key, ClientView, Outgoing, Peer, PendingView, Router, RouterView,
};
use crate::router_laws::{
    law_disconnect_keeps_invariant, lemma_awaiting_found, lemma_under_key_found,
};
use crate::sequence::lemma_filter_members;
use std::collections::{HashMap, VecDeque};
use tokio::sync::mpsc::Sender;
use vstd::prelude::*;

verus! {

/// How many connections there may be at a time.
pub const MAX_PEERS: usize = 64;

/// How long to wait, in milliseconds, before connections are taken again after one could
/// not be.
pub const ACCEPT_RETRY_MILLIS: u64 = 100;

/// How often, in milliseconds, the time is taken while requests are under way.
pub const TICK_MILLIS: u64 = 50;

/// How often, in milliseconds, it is checked that an endpoint was not replaced.
pub const ENDPOINT_CHECK_MILLIS: u64 = 1_000;

/// A router with its connections. Connections are numbered from one on.
pub struct ServerView {
    /// The queue of each connection.
    pub queues: Map<Peer, Sender<Json>>,
    /// The number that was given last.
    pub last: Peer,
    pub router: RouterView,
    /// All messages that were put to queues so far.
    pub offered: Seq<OfferView>,
}

/// Whether all that a router knows belongs to connections.
pub open spec fn is_covered(router: RouterView, peers: Set<Peer>) -> bool {
    &&& forall|i: int|
        0 <= i < router.clients.len() ==> peers.contains((#[trigger] router.clients[i]).peer)
    &&& forall|i: int|
        0 <= i < router.pending.len() ==> peers.contains((#[trigger] router.pending[i]).source)
}

impl ServerView {
    /// The connections.
    pub open spec fn peers(self) -> Set<Peer> {
        self.queues.dom()
    }

    /// The invariant of a server: there are not too many connections, each was numbered
    /// here, and the router knows of no other.
    pub open spec fn wf(self) -> bool {
        &&& self.peers().finite()
        &&& self.peers().len() <= MAX_PEERS
        &&& forall|peer: Peer| #[trigger] self.peers().contains(peer) ==> peer <= self.last
        &&& self.router.wf()
        &&& is_covered(self.router, self.peers())
    }

    /// The server with one more connection, under the number after the last.
    pub open spec fn accepted(self, queue: Sender<Json>) -> ServerView {
        let peer = (self.last + 1) as Peer;
        ServerView { queues: self.queues.insert(peer, queue), last: peer, ..self }
    }

    /// The server without a connection, and what the router then has to say.
    pub open spec fn cut_off(self, peer: Peer) -> (ServerView, Seq<(Peer, JsonView)>) {
        let (router, outgoing) = disconnect_step(self.router, peer);
        (ServerView { queues: self.queues.remove(peer), router, ..self }, outgoing)
    }
}

/// A server without connections, to which nothing has happened.
pub open spec fn empty_server() -> ServerView {
    ServerView {
        queues: Map::empty(),
        last: 0,
        router: RouterView { clients: Seq::empty(), pending: Seq::empty() },
        offered: Seq::empty(),
    }
}

/// What follows from what came of a delivery. Status broadcasts are advisory: a peer
/// that has not drained its queue misses one rather than losing a connection that is
/// still serving requests. A recipient that cannot take a request or response it is
/// party to has stalled, and a closed one is already gone.
pub open spec fn settle_step(server: ServerView, peer: Peer, delivery: DeliveryView) -> (
    ServerView,
    Seq<(Peer, JsonView)>,
) {
    match delivery {
        DeliveryView::Sent => (server, Seq::empty()),
        DeliveryView::Full(message) => if message.at("type"@) == JsonView::Str("broadcast"@) {
            (server, Seq::empty())
        } else {
            server.cut_off(peer)
        },
        DeliveryView::Closed(_) => server.cut_off(peer),
    }
}

/// The messages that wait, from the first on whose recipient is connected.
pub open spec fn deliverable(peers: Set<Peer>, waiting: Seq<(Peer, JsonView)>) -> Seq<
    (Peer, JsonView),
>
    decreases waiting.len(),
{
    if waiting.len() == 0 || peers.contains(waiting[0].0) {
        waiting
    } else {
        deliverable(peers, waiting.drop_first())
    }
}

/// What is put to the queue of a recipient, and what comes of it.
pub open spec fn offer_to(
    queues: Map<Peer, Sender<Json>>,
    letter: (Peer, JsonView),
    outcome: Outcome,
) -> OfferView {
    OfferView { queue: queues[letter.0], message: letter.1, outcome }
}

/// One delivery of those that wait: the first message whose recipient is connected is put
/// to the recipient's queue. What the end of a connection leads to waits behind the rest.
pub open spec fn deliver_step(
    server: ServerView,
    waiting: Seq<(Peer, JsonView)>,
    outcome: Outcome,
) -> (ServerView, Seq<(Peer, JsonView)>) {
    let left = deliverable(server.peers(), waiting);
    if left.len() == 0 {
        (server, left)
    } else {
        let offered = server.offered.push(offer_to(server.queues, left[0], outcome));
        let (next, more) = settle_step(
            ServerView { offered, ..server },
            left[0].0,
            delivery_of(left[0].1, outcome),
        );
        (next, left.drop_first() + more)
    }
}

/// Several deliveries.
pub open spec fn deliver_steps(
    server: ServerView,
    waiting: Seq<(Peer, JsonView)>,
    outcomes: Seq<Outcome>,
) -> (ServerView, Seq<(Peer, JsonView)>)
    decreases outcomes.len(),
{
    if outcomes.len() == 0 {
        (server, waiting)
    } else {
        let (next, left) = deliver_steps(server, waiting, outcomes.drop_last());
        deliver_step(next, left, outcomes.last())
    }
}

/// Whether a server becomes another by delivering messages, with these outcomes, until
/// none is left that can be delivered.
pub open spec fn is_delivered_with(
    before: ServerView,
    outgoing: Seq<(Peer, JsonView)>,
    outcomes: Seq<Outcome>,
    after: ServerView,
) -> bool {
    &&& deliver_steps(before, outgoing, outcomes).0 == after
    &&& deliverable(after.peers(), deliver_steps(before, outgoing, outcomes).1).len() == 0
}

/// Whether a server can have become another by delivering messages, all that can be.
pub open spec fn is_delivered(
    before: ServerView,
    outgoing: Seq<(Peer, JsonView)>,
    after: ServerView,
) -> bool {
    exists|outcomes: Seq<Outcome>| #[trigger]
        is_delivered_with(before, outgoing, outcomes, after)
}

/// Whether a server becomes another by a message from a connection, with these identifiers
/// drawn: what the router says to it is delivered.
pub open spec fn is_received_with(
    before: ServerView,
    peer: Peer,
    message: JsonView,
    now: int,
    ids: Seq<Seq<char>>,
    after: ServerView,
) -> bool {
    let (router, outgoing) = step(before.router, peer, message, now, ids);
    &&& ids.len() == ids_needed(before.router, message)
    &&& forall|i: int| 0 <= i < ids.len() ==> is_identifier(#[trigger] ids[i])
    &&& is_delivered(ServerView { router, ..before }, outgoing, after)
}

/// Whether a server can have become another by a message. One that does not come from a
/// connection changes nothing.
pub open spec fn is_received(
    before: ServerView,
    peer: Peer,
    message: JsonView,
    now: int,
    after: ServerView,
) -> bool {
    if before.peers().contains(peer) {
        exists|ids: Seq<Seq<char>>| #[trigger]
            is_received_with(before, peer, message, now, ids, after)
    } else {
        after == before
    }
}

/// Whether a server can have become another by the end of a connection.
pub open spec fn is_closed(before: ServerView, peer: Peer, after: ServerView) -> bool {
    is_delivered(before.cut_off(peer).0, before.cut_off(peer).1, after)
}

/// Whether a server can have become another by the passing of time.
pub open spec fn is_ticked(before: ServerView, now: int, after: ServerView) -> bool {
    let (router, outgoing) = expire_step(before.router, now);
    is_delivered(ServerView { router, ..before }, outgoing, after)
}

/// What can happen to a server.
pub enum ServerEvent {
    /// A connection is taken, by its queue.
    Accept(Sender<Json>),
    /// A connection could not be taken.
    AcceptFailed,
    /// A message comes from a connection, at a time in nanoseconds.
    Message(Peer, Json, u64),
    /// A connection ends.
    Closed(Peer),
    /// Time passes, in nanoseconds.
    Tick(u64),
    /// The endpoint was checked: it is still the server's, or why it is not.
    Checked(Result<(), &'static str>),
}

/// What can happen to a server.
pub enum ServerEventView {
    Accept(Sender<Json>),
    AcceptFailed,
    Message(Peer, JsonView, int),
    Closed(Peer),
    Tick(int),
    Checked(Result<(), Seq<char>>),
}

impl View for ServerEvent {
    type V = ServerEventView;

    open spec fn view(&self) -> ServerEventView {
        match self {
            ServerEvent::Accept(queue) => ServerEventView::Accept(*queue),
            ServerEvent::AcceptFailed => ServerEventView::AcceptFailed,
            ServerEvent::Message(peer, message, now) => ServerEventView::Message(
                *peer,
                message@,
                *now as int,
            ),
            ServerEvent::Closed(peer) => ServerEventView::Closed(*peer),
            ServerEvent::Tick(now) => ServerEventView::Tick(*now as int),
            ServerEvent::Checked(Ok(())) => ServerEventView::Checked(Ok(())),
            ServerEvent::Checked(Err(reason)) => ServerEventView::Checked(Err(reason@)),
        }
    }
}

/// What a server does next.
pub enum ServerAction {
    /// Go on.
    GoOn,
    /// Attend to the connection that was taken, under its number.
    Attend(Peer),
    /// Take no connections for a number of milliseconds.
    Pause(u64),
    /// End.
    End(&'static str),
}

/// What a server does next.
pub enum ServerActionView {
    GoOn,
    Attend(Peer),
    Pause(u64),
    End(Seq<char>),
}

impl View for ServerAction {
    type V = ServerActionView;

    open spec fn view(&self) -> ServerActionView {
        match self {
            ServerAction::GoOn => ServerActionView::GoOn,
            ServerAction::Attend(peer) => ServerActionView::Attend(*peer),
            ServerAction::Pause(millis) => ServerActionView::Pause(*millis),
            ServerAction::End(reason) => ServerActionView::End(reason@),
        }
    }
}

/// Whether an event can happen to a server: connections are taken only while there is
/// room.
pub open spec fn can_happen(server: ServerView, event: ServerEventView) -> bool {
    event is Accept ==> server.peers().len() < MAX_PEERS && server.last < u64::MAX
}

/// Whether a server can have become another by an event, and what it then does.
pub open spec fn is_handled(
    before: ServerView,
    event: ServerEventView,
    after: ServerView,
    action: ServerActionView,
) -> bool {
    &&& can_happen(before, event)
    &&& match event {
        ServerEventView::Accept(queue) => {
            &&& after == before.accepted(queue)
            &&& action == ServerActionView::Attend(after.last)
        },
        ServerEventView::AcceptFailed => {
            &&& after == before
            &&& action == ServerActionView::Pause(ACCEPT_RETRY_MILLIS)
        },
        ServerEventView::Message(peer, message, now) => {
            &&& is_received(before, peer, message, now, after)
            &&& action is GoOn
        },
        ServerEventView::Closed(peer) => is_closed(before, peer, after) && action is GoOn,
        ServerEventView::Tick(now) => is_ticked(before, now, after) && action is GoOn,
        ServerEventView::Checked(outcome) => {
            &&& after == before
            &&& action == match outcome {
                Ok(()) => ServerActionView::GoOn,
                Err(reason) => ServerActionView::End(reason),
            }
        },
    }
}

/// Cutting off a connection keeps a server in its invariant.
pub proof fn law_cut_off_keeps_invariant(server: ServerView, peer: Peer)
    requires
        server.wf(),
    ensures
        server.cut_off(peer).0.wf(),
{
    let next = server.cut_off(peer).0;
    law_disconnect_keeps_invariant(server.router, peer);
    let stays = |c: ClientView| c.peer != peer;
    let keep = |p: PendingView| p.source != peer && !involves(p, peer);
    lemma_filter_members(server.router.clients, stays);
    lemma_filter_members(server.router.pending, keep);
    assert forall|i: int| 0 <= i < next.router.clients.len() implies next.peers().contains(
        (#[trigger] next.router.clients[i]).peer,
    ) by {
        let client = next.router.clients[i];
        assert(next.router.clients.contains(client));
        let j = server.router.clients.index_of(client);
        assert(server.router.clients[j] == client);
    }
    assert forall|i: int| 0 <= i < next.router.pending.len() implies next.peers().contains(
        (#[trigger] next.router.pending[i]).source,
    ) by {
        let p = next.router.pending[i];
        assert(next.router.pending.contains(p));
        let j = server.router.pending.index_of(p);
        assert(server.router.pending[j] == p);
    }
    assert forall|q: Peer| #[trigger] next.peers().contains(q) implies q <= next.last by {
        assert(server.peers().contains(q));
    }
}

/// Whatever comes of deliveries, they keep a server in its invariant.
pub proof fn law_deliveries_keep_invariant(
    server: ServerView,
    outgoing: Seq<(Peer, JsonView)>,
    outcomes: Seq<Outcome>,
)
    requires
        server.wf(),
    ensures
        deliver_steps(server, outgoing, outcomes).0.wf(),
    decreases outcomes.len(),
{
    if outcomes.len() > 0 {
        law_deliveries_keep_invariant(server, outgoing, outcomes.drop_last());
        let (next, waiting) = deliver_steps(server, outgoing, outcomes.drop_last());
        let left = deliverable(next.peers(), waiting);
        if left.len() > 0 {
            law_cut_off_keeps_invariant(next, left[0].0);
        }
    }
}

/// A message from a connection leaves the router covered by its connections.
pub proof fn lemma_message_covered(
    server: ServerView,
    peer: Peer,
    message: JsonView,
    now: int,
    ids: Seq<Seq<char>>,
)
    requires
        is_covered(server.router, server.peers()),
        server.peers().contains(peer),
    ensures
        is_covered(step(server.router, peer, message, now, ids).0, server.peers()),
{
    let state = server.router;
    let next = step(state, peer, message, now, ids).0;
    assert forall|i: int| 0 <= i < next.clients.len() implies server.peers().contains(
        (#[trigger] next.clients[i]).peer,
    ) by {
        if i < state.clients.len() {
            assert(next.clients[i] == state.clients[i]);
        }
    }
    assert forall|i: int| 0 <= i < next.pending.len() implies server.peers().contains(
        (#[trigger] next.pending[i]).source,
    ) by {
        let p = next.pending[i];
        if !(exists|j: int|
            0 <= j < state.pending.len() && (#[trigger] state.pending[j]).source == p.source)
            && p.source != peer {
            lemma_sources(state, peer, message, now, ids, i);
        } else if p.source != peer {
            let j = choose|j: int|
                0 <= j < state.pending.len() && (#[trigger] state.pending[j]).source == p.source;
            assert(server.peers().contains(state.pending[j].source));
        }
    }
}

/// Whoever has a request under way had one before, or has just made it.
proof fn lemma_sources(
    state: RouterView,
    peer: Peer,
    message: JsonView,
    now: int,
    ids: Seq<Seq<char>>,
    i: int,
)
    requires
        0 <= i < step(state, peer, message, now, ids).0.pending.len(),
    ensures
        ({
            let p = step(state, peer, message, now, ids).0.pending[i];
            p.source == peer || exists|j: int|
                0 <= j < state.pending.len() && (#[trigger] state.pending[j]).source == p.source
        }),
{
    let next = step(state, peer, message, now, ids).0;
    let p = next.pending[i];
    let kind = message.at("type"@);
    if next.pending == state.pending {
        assert(state.pending[i].source == p.source);
    } else if kind == JsonView::Str("request"@) {
        let key = next.pending.last().key;
        let other = |p: PendingView| p.key != key;
        let left = without_key(state.pending, key);
        lemma_filter_members(state.pending, other);
        if i < left.len() {
            assert(left.contains(left[i]));
            assert(left[i] == p);
            let j = state.pending.index_of(p);
            assert(state.pending[j].source == p.source);
        }
    } else if kind == JsonView::Str("client-discovery-response"@) {
        let id = message.at("requestId"@)->Str_0;
        lemma_awaiting_found(state.pending, id, peer);
        let at = awaiting(state.pending, id, peer)->Some_0;
        if next.pending.len() == state.pending.len() {
            assert(state.pending[i].source == p.source);
        } else {
            let j = if i < at {
                i
            } else {
                i + 1
            };
            assert(state.pending[j].source == p.source);
        }
    } else {
        let key = message.at("requestId"@)->Str_0;
        lemma_under_key_found(state.pending, key);
        let at = under_key(state.pending, key)->Some_0;
        let j = if i < at {
            i
        } else {
            i + 1
        };
        assert(state.pending[j].source == p.source);
    }
}

/// The passing of time leaves the router covered by its connections.
pub proof fn lemma_expire_covered(server: ServerView, now: int)
    requires
        is_covered(server.router, server.peers()),
    ensures
        is_covered(expire_step(server.router, now).0, server.peers()),
{
    let keep = |p: PendingView| p.deadline > now;
    let next = expire_step(server.router, now).0;
    lemma_filter_members(server.router.pending, keep);
    assert forall|i: int| 0 <= i < next.pending.len() implies server.peers().contains(
        (#[trigger] next.pending[i]).source,
    ) by {
        let p = next.pending[i];
        assert(next.pending.contains(p));
        let j = server.router.pending.index_of(p);
        assert(server.router.pending[j] == p);
    }
}

/// A router with its connections.
pub struct Server {
    router: Router,
    peers: HashMap<Peer, Sender<Json>>,
    last: Peer,
    offers: Offers,
}

impl View for Server {
    type V = ServerView;

    closed spec fn view(&self) -> ServerView {
        ServerView {
            queues: self.peers@,
            last: self.last,
            router: self.router@,
            offered: self.offers@,
        }
    }
}

impl Server {
    /// A server without connections.
    pub fn new() -> (server: Server)
        ensures
            server@ == empty_server(),
            server@.wf(),
    {
        Server {
            router: Router::default(),
            peers: HashMap::new(),
            last: 0,
            offers: Offers::new(),
        }
    }

    /// Whether there may be one more connection.
    pub fn has_room(&self) -> (yes: bool)
        requires
            self@.wf(),
        ensures
            yes == (self@.peers().len() < MAX_PEERS),
    {
        broadcast use vstd::std_specs::hash::group_hash_axioms;

        self.peers.len() < MAX_PEERS
    }

    /// Whether any request is under way.
    pub fn has_pending(&self) -> (yes: bool)
        ensures
            yes == (self@.router.pending.len() > 0),
    {
        self.router.has_pending()
    }

    /// Takes a connection, by its queue, and gives it a number.
    pub fn accept(&mut self, queue: Sender<Json>) -> (peer: Peer)
        requires
            old(self)@.wf(),
            old(self)@.peers().len() < MAX_PEERS,
            old(self)@.last < u64::MAX,
        ensures
            peer == old(self)@.last + 1,
            !old(self)@.peers().contains(peer),
            final(self)@ == old(self)@.accepted(queue),
            final(self)@.queues == old(self)@.queues.insert(peer, queue),
            final(self)@.wf(),
    {
        broadcast use vstd::std_specs::hash::group_hash_axioms;

        let ghost before = self@;
        self.last = self.last + 1;
        self.peers.insert(self.last, queue);
        assert(self@.peers() =~= before.peers().insert(self.last));
        self.last
    }

    /// Does what follows from what came of a delivery, and gives what the router then
    /// has to say.
    pub fn settle(&mut self, peer: Peer, delivery: Delivery) -> (outgoing: Outgoing)
        ensures
            (final(self)@, mail(outgoing@)) == settle_step(old(self)@, peer, delivery@),
    {
        broadcast use vstd::std_specs::hash::group_hash_axioms;

        let none: Outgoing = Vec::new();
        assert(mail(none@) =~= Seq::empty());
        match delivery {
            Delivery::Sent => return none,
            Delivery::Full(message) => if message.says("type", "broadcast") {
                return none;
            },
            Delivery::Closed(_) => {},
        }
        let ghost before = self@;
        self.peers.remove(&peer);
        assert(self@.queues =~= before.queues.remove(peer));
        self.router.disconnect(peer)
    }

    /// Takes the next of the messages that wait whose recipient is connected. Those before
    /// it have no one to go to.
    pub fn next_delivery(&self, waiting: &mut VecDeque<(Peer, Json)>) -> (next: Option<
        (Peer, Json),
    >)
        ensures
            final(waiting)@.len() <= old(waiting)@.len(),
            match next {
                Some((peer, message)) => {
                    &&& self@.peers().contains(peer)
                    &&& final(waiting)@.len() < old(waiting)@.len()
                    &&& deliverable(self@.peers(), mail(old(waiting)@)) == seq![(peer, message@)]
                        + mail(final(waiting)@)
                },
                None => {
                    &&& deliverable(self@.peers(), mail(old(waiting)@)).len() == 0
                    &&& final(waiting)@.len() == 0
                },
            },
    {
        broadcast use vstd::std_specs::hash::group_hash_axioms;

        let ghost all = mail(waiting@);
        while waiting.len() > 0
            invariant
                all == mail(old(waiting)@),
                waiting@.len() <= all.len(),
                deliverable(self@.peers(), all) == deliverable(self@.peers(), mail(waiting@)),
            decreases waiting@.len(),
        {
            broadcast use vstd::std_specs::hash::group_hash_axioms;

            let ghost left = mail(waiting@);
            if let Some((peer, message)) = waiting.pop_front() {
                assert(left[0] == (peer, message@));
                assert(mail(waiting@) =~= left.drop_first());
                if self.peers.contains_key(&peer) {
                    assert(left =~= seq![(peer, message@)] + mail(waiting@));
                    return Some((peer, message));
                }
            }
        }
        None
    }

    /// Delivers messages in order. A disconnect cascade queues behind them.
    fn dispatch(&mut self, outgoing: Outgoing)
        requires
            old(self)@.wf(),
        ensures
            is_delivered(old(self)@, mail(outgoing@), final(self)@),
            final(self)@.wf(),
    {
        broadcast use vstd::std_specs::hash::group_hash_axioms;

        let ghost start = self@;
        let ghost all = mail(outgoing@);
        let mut waiting: VecDeque<(Peer, Json)> = VecDeque::new();
        append_all(&mut waiting, outgoing);
        let ghost mut outcomes: Seq<Outcome> = Seq::empty();
        assert(mail(waiting@) =~= all);
        loop
            invariant_except_break
                self@.wf(),
                deliver_steps(start, all, outcomes) == (self@, mail(waiting@)),
            ensures
                self@.wf(),
                is_delivered(start, all, self@),
            decreases self@.peers().len(), waiting@.len(),
        {
            broadcast use vstd::std_specs::hash::group_hash_axioms;

            let ghost before = self@;
            let ghost left = mail(waiting@);
            let ghost steps = outcomes;
            if let Some((peer, message)) = self.next_delivery(&mut waiting) {
                if let Some(queue) = self.peers.get(&peer) {
                    let delivery = self.offers.offer(queue, message);
                    let ghost offered = self@;
                    proof {
                        outcomes = steps.push(outcome_of(delivery@));
                        assert(outcomes.drop_last() =~= steps);
                        law_cut_off_keeps_invariant(offered, peer);
                    }
                    let ghost outcome = outcome_of(delivery@);
                    let more = self.settle(peer, delivery);
                    let ghost rest = mail(waiting@);
                    let ghost said = mail(more@);
                    append_all(&mut waiting, more);
                    assert(mail(waiting@) =~= rest + said);
                    assert(deliverable(before.peers(), left).drop_first() =~= rest);
                    assert(deliver_step(before, left, outcome) == (self@, mail(waiting@)));
                }
            } else {
                assert(is_delivered_with(start, all, outcomes, self@));
                break;
            }
        }
    }

    /// Takes a message from a connection, with the time in nanoseconds. One from a
    /// connection that was cut off is dropped.
    pub fn receive(&mut self, peer: Peer, message: Json, now: u64)
        requires
            old(self)@.wf(),
        ensures
            final(self)@.wf(),
            is_received(old(self)@, peer, message@, now as int, final(self)@),
    {
        broadcast use vstd::std_specs::hash::group_hash_axioms;

        if !self.peers.contains_key(&peer) {
            return ;
        }
        let ghost before = self@;
        let ghost mut drawn: Seq<Seq<char>> = Seq::empty();
        let outgoing = self.router.message(peer, message, now);
        proof {
            let ids = choose|ids: Seq<Seq<char>>|
                ids.len() == ids_needed(before.router, message@) && (forall|i: int|
                    0 <= i < ids.len() ==> is_identifier(#[trigger] ids[i])) && (
                self.router@,
                mail(outgoing@),
                ) == #[trigger] step(before.router, peer, message@, now as int, ids);
            lemma_message_covered(before, peer, message@, now as int, ids);
            drawn = ids;
        }
        self.dispatch(outgoing);
        assert(is_received_with(before, peer, message@, now as int, drawn, self@));
    }

    /// Takes the end of a connection.
    pub fn closed(&mut self, peer: Peer)
        requires
            old(self)@.wf(),
        ensures
            final(self)@.wf(),
            is_closed(old(self)@, peer, final(self)@),
    {
        broadcast use vstd::std_specs::hash::group_hash_axioms;

        let ghost before = self@;
        proof {
            law_cut_off_keeps_invariant(before, peer);
        }
        self.peers.remove(&peer);
        assert(self@.queues =~= before.queues.remove(peer));
        let outgoing = self.router.disconnect(peer);
        self.dispatch(outgoing);
    }

    /// Takes the time, in nanoseconds.
    pub fn tick(&mut self, now: u64)
        requires
            old(self)@.wf(),
        ensures
            final(self)@.wf(),
            is_ticked(old(self)@, now as int, final(self)@),
    {
        proof {
            lemma_expire_covered(self@, now as int);
        }
        let outgoing = self.router.expire(now);
        self.dispatch(outgoing);
    }

    /// Takes an event, and says what to do next. A competing Unix router can unlink the
    /// server's pathname without closing existing streams: a server whose endpoint was
    /// replaced ends, so that its provider and other clients reconnect to the winner.
    pub fn handle(&mut self, event: ServerEvent) -> (action: ServerAction)
        requires
            old(self)@.wf(),
            can_happen(old(self)@, event@),
        ensures
            final(self)@.wf(),
            is_handled(old(self)@, event@, final(self)@, action@),
    {
        match event {
            ServerEvent::Accept(queue) => ServerAction::Attend(self.accept(queue)),
            ServerEvent::AcceptFailed => ServerAction::Pause(ACCEPT_RETRY_MILLIS),
            ServerEvent::Message(peer, message, now) => {
                self.receive(peer, message, now);
                ServerAction::GoOn
            },
            ServerEvent::Closed(peer) => {
                self.closed(peer);
                ServerAction::GoOn
            },
            ServerEvent::Tick(now) => {
                self.tick(now);
                ServerAction::GoOn
            },
            ServerEvent::Checked(Ok(())) => ServerAction::GoOn,
            ServerEvent::Checked(Err(reason)) => ServerAction::End(reason),
        }
    }
}

/// Puts messages at the end of those that wait.
fn append_all(waiting: &mut VecDeque<(Peer, Json)>, outgoing: Outgoing)
    ensures
        final(waiting)@ == old(waiting)@ + outgoing@,
{
    let ghost all = outgoing@;
    let ghost before = waiting@;
    assert(before + all.take(0) =~= before);
    for entry in iter: outgoing
        invariant
            iter.seq() == all,
            waiting@ == before + all.take(iter.index()),
    {
        let ghost i = iter.index();
        waiting.push_back(entry);
        assert(waiting@ =~= before + all.take(i + 1));
    }
    assert(all.take(all.len() as int) =~= all);
}

} // verus!
