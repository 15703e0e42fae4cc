//! Application-neutral router. Only IDE discovery uses conservative all-provider
//! agreement; other methods go to the first willing handler.
use crate::json::{empty_object, list_view, Json, JsonView};
use crate::protocol;
use crate::protocol::{error_view, success_view};
use crate::router_laws::{
    law_disconnect_keeps_invariant, law_expire_keeps_invariant, law_messages_keep_invariant,
};
use crate::sequence::{distinct_by, lemma_filter_step};
use crate::text::same_text;
use vstd::prelude::*;

verus! {

/// A connection to the router.
pub type Peer = u64;

/// Messages in the order in which they are to be sent, each with its recipient.
pub type Outgoing = Vec<(Peer, Json)>;

/// How many requests may be under way at a time.
pub const MAX_PENDING: usize = 128;

/// A registered client.
pub struct ClientView {
    pub peer: Peer,
    pub id: Seq<char>,
    pub kind: Seq<char>,
}

/// A request under way. It is first offered to clients, which are `awaited` until
/// they answer under the id that each was given and are `willing` if they accept;
/// then it is handed to a `target` under the router's own `key`.
pub struct PendingView {
    pub key: Seq<char>,
    pub source: Peer,
    pub request: JsonView,
    pub deadline: int,
    pub awaited: Seq<(Seq<char>, Peer)>,
    pub willing: Seq<Peer>,
    pub target: Option<Peer>,
}

/// The state of a router: clients in order of registration, requests in order of
/// arrival.
pub struct RouterView {
    pub clients: Seq<ClientView>,
    pub pending: Seq<PendingView>,
}

/// Whether a peer has registered.
pub open spec fn registered(clients: Seq<ClientView>, peer: Peer) -> bool {
    exists|i: int| 0 <= i < clients.len() && (#[trigger] clients[i]).peer == peer
}

/// Whether a request under way is in order: it is either offered or handed over, the
/// ids of its offers differ, and all it waits for are registered clients other than
/// the one who asked.
pub open spec fn in_order(p: PendingView, clients: Seq<ClientView>) -> bool {
    &&& distinct_by(p.awaited, |entry: (Seq<char>, Peer)| entry.0)
    &&& p.target is Some <==> p.awaited.len() == 0
    &&& p.target is Some ==> p.willing.len() > 0 && p.target == Some(p.willing[0])
    &&& p.target is None && !is_ide(p.request) ==> p.willing.len() == 0
    &&& forall|peer: Peer| #[trigger]
        involves(p, peer) ==> peer != p.source && registered(clients, peer)
}

impl RouterView {
    /// The invariant of a router: no peer has registered twice, no two requests have
    /// the same key, there are not too many, and each is in order.
    pub open spec fn wf(self) -> bool {
        &&& distinct_by(self.clients, |c: ClientView| c.peer)
        &&& distinct_by(self.pending, |p: PendingView| p.key)
        &&& self.pending.len() <= MAX_PENDING
        &&& forall|i: int|
            0 <= i < self.pending.len() ==> in_order(#[trigger] self.pending[i], self.clients)
    }
}

/// The documents of outgoing messages.
pub open spec fn mail(outgoing: Seq<(Peer, Json)>) -> Seq<(Peer, JsonView)> {
    Seq::new(outgoing.len(), |i: int| (outgoing[i].0, outgoing[i].1@))
}

/// The client that a peer has registered as.
pub open spec fn client_of(clients: Seq<ClientView>, peer: Peer) -> Option<ClientView>
    decreases clients.len(),
{
    if clients.len() == 0 {
        None
    } else if clients[0].peer == peer {
        Some(clients[0])
    } else {
        client_of(clients.drop_first(), peer)
    }
}

/// The clients other than a peer's own.
pub open spec fn others(clients: Seq<ClientView>, peer: Peer) -> Seq<ClientView> {
    clients.filter(|c: ClientView| c.peer != peer)
}

/// The same message to each of several clients.
pub open spec fn to_each(clients: Seq<ClientView>, message: JsonView) -> Seq<(Peer, JsonView)> {
    Seq::new(clients.len(), |i: int| (clients[i].peer, message))
}

/// The broadcast that tells of a client's coming or going.
pub open spec fn status_view(client: ClientView, status: Seq<char>) -> JsonView {
    empty_object().with("type"@, JsonView::Str("broadcast"@)).with(
        "method"@,
        JsonView::Str("client-status-changed"@),
    ).with("sourceClientId"@, JsonView::Str(client.id)).with("version"@, JsonView::Int(0)).with(
        "params"@,
        empty_object().with("clientId"@, JsonView::Str(client.id)).with(
            "clientType"@,
            JsonView::Str(client.kind),
        ).with("status"@, JsonView::Str(status)),
    )
}

/// What the others are told of a client's coming or going.
pub open spec fn status_mail(clients: Seq<ClientView>, peer: Peer, status: Seq<char>) -> Seq<
    (Peer, JsonView),
> {
    match client_of(clients, peer) {
        None => Seq::empty(),
        Some(client) => to_each(others(clients, peer), status_view(client, status)),
    }
}

/// Registration: a peer gets an id once and is told the same id ever after.
pub open spec fn initialize_step(
    state: RouterView,
    peer: Peer,
    message: JsonView,
    id: Seq<char>,
) -> (RouterView, Seq<(Peer, JsonView)>) {
    match message.at("params"@).at("clientType"@) {
        JsonView::Str(kind) => match client_of(state.clients, peer) {
            Some(client) => (state, seq![(peer, registered_view(message, client.id))]),
            None => {
                let clients = state.clients.push(ClientView { peer, id, kind });
                (
                    RouterView { clients, ..state },
                    status_mail(clients, peer, "connected"@).push(
                        (peer, registered_view(message, id)),
                    ),
                )
            },
        },
        _ => (state, seq![(peer, error_view(message, "invalid-initialize"@))]),
    }
}

/// The answer to a registration.
pub open spec fn registered_view(message: JsonView, id: Seq<char>) -> JsonView {
    success_view(message, id, empty_object().with("clientId"@, JsonView::Str(id)))
}

/// A message that bears the id of the client that sent it, whatever it claimed.
pub open spec fn stamped(
    clients: Seq<ClientView>,
    peer: Peer,
    message: JsonView,
) -> JsonView {
    match client_of(clients, peer) {
        Some(client) => message.with("sourceClientId"@, JsonView::Str(client.id)),
        None => message,
    }
}

/// Whether a request may go to a client: it may name the only one it is meant for.
pub open spec fn addressed(request: JsonView, client: ClientView) -> bool {
    request.at("targetClientId"@) matches JsonView::Str(target) ==> client.id == target
}

/// The clients to which a request is offered.
pub open spec fn candidates(
    clients: Seq<ClientView>,
    peer: Peer,
    request: JsonView,
) -> Seq<ClientView> {
    clients.filter(|c: ClientView| c.peer != peer && addressed(request, c))
}

/// Whether a request asks for editor context.
pub open spec fn is_ide(request: JsonView) -> bool {
    request.at("method"@) == JsonView::Str("ide-context"@)
}

/// How long a request may take, in milliseconds.
pub open spec fn budget(request: JsonView) -> int {
    if is_ide(request) {
        protocol::REQUEST_BUDGET_MILLIS as int
    } else {
        match request.at("timeoutMs"@) {
            JsonView::Int(n) => if n == 0 {
                1
            } else if 0 < n <= 60_000 {
                n
            } else if 60_000 < n <= u64::MAX {
                60_000
            } else {
                10_000
            },
            _ => 10_000,
        }
    }
}

/// The message that offers a request to a client.
pub open spec fn discovery_view(id: Seq<char>, request: JsonView) -> JsonView {
    empty_object().with("type"@, JsonView::Str("client-discovery-request"@)).with(
        "requestId"@,
        JsonView::Str(id),
    ).with("request"@, request)
}

/// The offers of a request, each under an id of its own.
pub open spec fn offers(
    clients: Seq<ClientView>,
    request: JsonView,
    ids: Seq<Seq<char>>,
) -> Seq<(Peer, JsonView)> {
    Seq::new(clients.len(), |i: int| (clients[i].peer, discovery_view(ids[i], request)))
}

/// The choice of the answers that are not under `id`.
pub open spec fn apart_from(id: Seq<char>) -> spec_fn((Seq<char>, Peer)) -> bool {
    |entry: (Seq<char>, Peer)| entry.0 != id
}

/// The awaited answers but for the one under `id`.
pub open spec fn without_id(awaited: Seq<(Seq<char>, Peer)>, id: Seq<char>) -> Seq<
    (Seq<char>, Peer),
> {
    awaited.filter(apart_from(id))
}

/// The answers that offers await. An id stands for one answer only.
pub open spec fn awaited_answers(clients: Seq<ClientView>, ids: Seq<Seq<char>>) -> Seq<
    (Seq<char>, Peer),
>
    decreases clients.len(),
{
    if clients.len() == 0 {
        Seq::empty()
    } else {
        let id = ids[clients.len() - 1];
        without_id(awaited_answers(clients.drop_last(), ids), id).push((id, clients.last().peer))
    }
}

/// The requests but for the one under `key`.
pub open spec fn without_key(pending: Seq<PendingView>, key: Seq<char>) -> Seq<PendingView> {
    pending.filter(|p: PendingView| p.key != key)
}

/// A request that is neither a registration nor one too many: it is offered to its
/// candidates, or refused where there are none.
pub open spec fn open_step(
    state: RouterView,
    peer: Peer,
    message: JsonView,
    now: int,
    ids: Seq<Seq<char>>,
) -> (RouterView, Seq<(Peer, JsonView)>) {
    let request = stamped(state.clients, peer, message);
    let found = candidates(state.clients, peer, request);
    if found.len() == 0 {
        (state, seq![(peer, error_view(request, "no-client-found"@))])
    } else {
        let key = ids[found.len() as int];
        let opened = PendingView {
            key,
            source: peer,
            request,
            deadline: now + 1_000_000 * budget(request),
            awaited: awaited_answers(found, ids),
            willing: Seq::empty(),
            target: None,
        };
        (
            RouterView { pending: without_key(state.pending, key).push(opened), ..state },
            offers(found, request, ids),
        )
    }
}

/// A message of type `request`.
pub open spec fn request_step(
    state: RouterView,
    peer: Peer,
    message: JsonView,
    now: int,
    ids: Seq<Seq<char>>,
) -> (RouterView, Seq<(Peer, JsonView)>) {
    if !(message.at("requestId"@) is Str && message.at("method"@) is Str) {
        (state, Seq::empty())
    } else if message.at("method"@) == JsonView::Str("initialize"@) {
        initialize_step(state, peer, message, ids[0])
    } else if state.pending.len() >= MAX_PENDING {
        (state, seq![(peer, error_view(message, "router-busy"@))])
    } else {
        open_step(state, peer, message, now, ids)
    }
}

/// The first request that awaits an answer of a peer under an id.
pub open spec fn awaiting(pending: Seq<PendingView>, id: Seq<char>, peer: Peer) -> Option<int>
    decreases pending.len(),
{
    if pending.len() == 0 {
        None
    } else if pending[0].awaited.contains((id, peer)) {
        Some(0)
    } else {
        match awaiting(pending.drop_first(), id, peer) {
            Some(i) => Some(i + 1),
            None => None,
        }
    }
}

/// What becomes of a request when an awaited answer comes: it is kept as it then
/// is, or dropped; and what is sent.
pub open spec fn answered(
    p: PendingView,
    id: Seq<char>,
    peer: Peer,
    accepts: bool,
) -> (Option<PendingView>, Seq<(Peer, JsonView)>) {
    let awaited = without_id(p.awaited, id);
    let willing = if accepts {
        p.willing.push(peer)
    } else {
        p.willing
    };
    let ide = is_ide(p.request);
    if awaited.len() > 0 && (ide || willing.len() == 0) {
        (Some(PendingView { awaited, willing, ..p }), Seq::empty())
    } else if willing.len() == 0 {
        (None, seq![(p.source, error_view(p.request, "no-client-found"@))])
    } else if ide && willing.len() > 1 {
        (None, seq![(p.source, error_view(p.request, "ambiguous-ide-provider"@))])
    } else {
        (
            Some(
                PendingView { awaited: Seq::empty(), willing, target: Some(willing[0]), ..p },
            ),
            seq![(willing[0], p.request.with("requestId"@, JsonView::Str(p.key)))],
        )
    }
}

/// A message of type `client-discovery-response`.
pub open spec fn answer_step(state: RouterView, peer: Peer, message: JsonView) -> (
    RouterView,
    Seq<(Peer, JsonView)>,
) {
    match message.at("requestId"@) {
        JsonView::Str(id) => match awaiting(state.pending, id, peer) {
            None => (state, Seq::empty()),
            Some(i) => {
                let accepts = message.at("response"@).at("canHandle"@) == JsonView::Bool(true);
                let (kept, sent) = answered(state.pending[i], id, peer, accepts);
                match kept {
                    Some(p) => (
                        RouterView { pending: state.pending.update(i, p), ..state },
                        sent,
                    ),
                    None => (RouterView { pending: state.pending.remove(i), ..state }, sent),
                }
            },
        },
        _ => (state, Seq::empty()),
    }
}

/// The first request under a key.
pub open spec fn under_key(pending: Seq<PendingView>, key: Seq<char>) -> Option<int>
    decreases pending.len(),
{
    if pending.len() == 0 {
        None
    } else if pending[0].key == key {
        Some(0)
    } else {
        match under_key(pending.drop_first(), key) {
            Some(i) => Some(i + 1),
            None => None,
        }
    }
}

/// A response as the one who asked gets it: under the id of the request, and with
/// the true id of the client that handled it.
pub open spec fn returned(
    clients: Seq<ClientView>,
    peer: Peer,
    request: JsonView,
    message: JsonView,
) -> JsonView {
    let response = message.with("requestId"@, request.at("requestId"@));
    match client_of(clients, peer) {
        Some(client) => if message.at("resultType"@) == JsonView::Str("success"@) {
            response.with("handledByClientId"@, JsonView::Str(client.id))
        } else {
            response
        },
        None => response,
    }
}

/// A message of type `response`.
pub open spec fn response_step(state: RouterView, peer: Peer, message: JsonView) -> (
    RouterView,
    Seq<(Peer, JsonView)>,
) {
    match message.at("requestId"@) {
        JsonView::Str(key) => match under_key(state.pending, key) {
            Some(i) => {
                let p = state.pending[i];
                if p.target == Some(peer) {
                    (
                        RouterView { pending: state.pending.remove(i), ..state },
                        seq![(p.source, returned(state.clients, peer, p.request, message))],
                    )
                } else {
                    (state, Seq::empty())
                }
            },
            None => (state, Seq::empty()),
        },
        _ => (state, Seq::empty()),
    }
}

/// Whether a broadcast is meant for a client: it may list those it is meant for.
pub open spec fn listed(message: JsonView, client: ClientView) -> bool {
    message.at("targetClientIds"@) matches JsonView::List(targets) ==> targets.contains(
        JsonView::Str(client.id),
    )
}

/// A message of type `broadcast`.
pub open spec fn broadcast_mail(
    clients: Seq<ClientView>,
    peer: Peer,
    message: JsonView,
) -> Seq<(Peer, JsonView)> {
    let sent = stamped(clients, peer, message);
    to_each(clients.filter(|c: ClientView| c.peer != peer && listed(sent, c)), sent)
}

/// What a router makes of a message: its next state, and what it sends. `now` is
/// the time in nanoseconds; `ids` are the identifiers that it may give out.
pub open spec fn step(
    state: RouterView,
    peer: Peer,
    message: JsonView,
    now: int,
    ids: Seq<Seq<char>>,
) -> (RouterView, Seq<(Peer, JsonView)>) {
    let kind = message.at("type"@);
    if kind == JsonView::Str("request"@) {
        request_step(state, peer, message, now, ids)
    } else if kind == JsonView::Str("client-discovery-response"@) {
        answer_step(state, peer, message)
    } else if kind == JsonView::Str("response"@) {
        response_step(state, peer, message)
    } else if kind == JsonView::Str("broadcast"@) {
        (state, broadcast_mail(state.clients, peer, message))
    } else {
        (state, Seq::empty())
    }
}

/// How many identifiers a message may take.
pub open spec fn ids_needed(state: RouterView, message: JsonView) -> nat {
    if message.at("type"@) == JsonView::Str("request"@) {
        state.clients.len() + 1
    } else {
        0
    }
}

/// Whether a request waits for a peer or has been handed to it.
pub open spec fn involves(p: PendingView, peer: Peer) -> bool {
    p.target == Some(peer) || p.willing.contains(peer) || exists|i: int|
        0 <= i < p.awaited.len() && (#[trigger] p.awaited[i]).1 == peer
}

/// The same refusal to everyone who made one of several requests.
pub open spec fn refusals(pending: Seq<PendingView>, reason: Seq<char>) -> Seq<(Peer, JsonView)> {
    Seq::new(
        pending.len(),
        |i: int| (pending[i].source, error_view(pending[i].request, reason)),
    )
}

/// What a router makes of the end of a connection.
pub open spec fn disconnect_step(state: RouterView, peer: Peer) -> (
    RouterView,
    Seq<(Peer, JsonView)>,
) {
    (
        RouterView {
            clients: others(state.clients, peer),
            pending: state.pending.filter(
                |p: PendingView| p.source != peer && !involves(p, peer),
            ),
        },
        status_mail(state.clients, peer, "disconnected"@) + refusals(
            state.pending.filter(|p: PendingView| p.source != peer && involves(p, peer)),
            "client-disconnected"@,
        ),
    )
}

/// What a router makes of the time.
pub open spec fn expire_step(state: RouterView, now: int) -> (RouterView, Seq<(Peer, JsonView)>) {
    (
        RouterView {
            pending: state.pending.filter(|p: PendingView| p.deadline > now),
            ..state
        },
        refusals(
            state.pending.filter(|p: PendingView| p.deadline <= now),
            "request-timeout"@,
        ),
    )
}

struct Client {
    peer: Peer,
    id: String,
    kind: String,
}

struct Pending {
    key: String,
    source: Peer,
    request: Json,
    deadline: u128,
    awaited: Vec<(String, Peer)>,
    willing: Vec<Peer>,
    target: Option<Peer>,
}

/// Connects clients: registers them, offers requests, hands them over, returns the
/// answers and spreads broadcasts.
pub struct Router {
    clients: Vec<Client>,
    pending: Vec<Pending>,
}

impl View for Client {
    type V = ClientView;

    closed spec fn view(&self) -> ClientView {
        ClientView { peer: self.peer, id: self.id@, kind: self.kind@ }
    }
}

spec fn awaited_view(awaited: Seq<(String, Peer)>) -> Seq<(Seq<char>, Peer)> {
    Seq::new(awaited.len(), |i: int| (awaited[i].0@, awaited[i].1))
}

impl View for Pending {
    type V = PendingView;

    closed spec fn view(&self) -> PendingView {
        PendingView {
            key: self.key@,
            source: self.source,
            request: self.request@,
            deadline: self.deadline as int,
            awaited: awaited_view(self.awaited@),
            willing: self.willing@,
            target: self.target,
        }
    }
}

spec fn clients_view(clients: Seq<Client>) -> Seq<ClientView> {
    Seq::new(clients.len(), |i: int| clients[i]@)
}

spec fn pending_view(pending: Seq<Pending>) -> Seq<PendingView> {
    Seq::new(pending.len(), |i: int| pending[i]@)
}

impl View for Router {
    type V = RouterView;

    closed spec fn view(&self) -> RouterView {
        RouterView {
            clients: clients_view(self.clients@),
            pending: pending_view(self.pending@),
        }
    }
}

/// The texts of a list of strings.
pub open spec fn texts(strings: Seq<String>) -> Seq<Seq<char>> {
    Seq::new(strings.len(), |i: int| strings[i]@)
}

impl Default for Router {
    fn default() -> (router: Router)
        ensures
            router@ == (RouterView { clients: Seq::empty(), pending: Seq::empty() }),
            router@.wf(),
    {
        let router = Router { clients: Vec::new(), pending: Vec::new() };
        assert(router@.clients =~= Seq::empty());
        assert(router@.pending =~= Seq::empty());
        router
    }
}

/// The message that offers a request to a client.
fn discovery(id: &str, request: &Json) -> (message: Json)
    ensures
        message@ == discovery_view(id@, request@),
{
    let mut message = Json::object();
    message.set("type", Json::text("client-discovery-request"));
    message.set("requestId", Json::text(id));
    message.set("request", request.copy());
    message
}

/// Whether a request asks for editor context.
fn asks_for_context(request: &Json) -> (yes: bool)
    ensures
        yes == is_ide(request@),
{
    request.says("method", "ide-context")
}

/// How long a request may take, in milliseconds.
fn budget_millis(request: &Json) -> (millis: u64)
    ensures
        millis == budget(request@),
        millis <= 60_000,
{
    if asks_for_context(request) {
        return protocol::REQUEST_BUDGET_MILLIS;
    }
    let wanted: u64 = match request.get("timeoutMs") {
        Some(value) => match value.as_u64() {
            Some(n) => n,
            None => 10_000,
        },
        None => 10_000,
    };
    if wanted < 1 {
        1
    } else if wanted > 60_000 {
        60_000
    } else {
        wanted
    }
}

impl Client {
    /// The broadcast that tells of this client's coming or going.
    fn status(&self, status: &str) -> (message: Json)
        ensures
            message@ == status_view(self@, status@),
    {
        let mut params = Json::object();
        params.set("clientId", Json::text(self.id.as_str()));
        params.set("clientType", Json::text(self.kind.as_str()));
        params.set("status", Json::text(status));
        let mut message = Json::object();
        message.set("type", Json::text("broadcast"));
        message.set("method", Json::text("client-status-changed"));
        message.set("sourceClientId", Json::text(self.id.as_str()));
        message.set("version", Json::integer(0));
        message.set("params", params);
        message
    }

    /// Whether a request may go to this client.
    fn addressed(&self, request: &Json) -> (yes: bool)
        ensures
            yes == addressed(request@, self@),
    {
        match request.str_at("targetClientId") {
            Some(target) => same_text(self.id.as_str(), target),
            None => true,
        }
    }

    /// Whether a broadcast is meant for this client.
    fn listed(&self, message: &Json) -> (yes: bool)
        ensures
            yes == listed(message@, self@),
    {
        let targets: &Vec<Json> = match message.get("targetClientIds") {
            Some(Json::List(targets)) => targets,
            _ => return true,
        };
        let n: usize = targets.len();
        let ghost wanted = JsonView::Str(self.id@);
        let ghost documents = list_view(targets@);
        for i in 0..n
            invariant
                n == targets@.len(),
                documents == list_view(targets@),
                wanted == JsonView::Str(self.id@),
                message@.at("targetClientIds"@) == JsonView::List(documents),
                forall|j: int| 0 <= j < i ==> documents[j] != wanted,
        {
            assert(documents[i as int] == targets@[i as int]@);
            if let Some(target) = targets[i].as_str() {
                if same_text(target, self.id.as_str()) {
                    assert(documents[i as int] == wanted);
                    assert(documents.contains(wanted));
                    return true;
                }
            }
        }
        false
    }
}

impl Pending {
    /// The answer that refuses this request.
    fn refusal(&self, reason: &str) -> (mail: (Peer, Json))
        ensures
            mail.0 == self@.source,
            mail.1@ == error_view(self@.request, reason@),
    {
        (self.source, protocol::error(&self.request, reason))
    }

    /// The position of the awaited answer of a peer under an id.
    fn awaits(&self, id: &str, peer: Peer) -> (yes: bool)
        ensures
            yes == self@.awaited.contains((id@, peer)),
    {
        let n: usize = self.awaited.len();
        for i in 0..n
            invariant
                n == self.awaited@.len(),
                forall|j: int| 0 <= j < i ==> self@.awaited[j] != (id@, peer),
        {
            if self.awaited[i].1 == peer && same_text(self.awaited[i].0.as_str(), id) {
                assert(self@.awaited[i as int] == (id@, peer));
                return true;
            }
        }
        false
    }

    /// Whether this request waits for a peer or has been handed to it.
    fn involves(&self, peer: Peer) -> (yes: bool)
        ensures
            yes == involves(self@, peer),
    {
        if let Some(target) = self.target {
            if target == peer {
                return true;
            }
        }
        let n: usize = self.willing.len();
        for i in 0..n
            invariant
                n == self.willing@.len(),
                self@.willing == self.willing@,
                forall|j: int| 0 <= j < i ==> self.willing@[j] != peer,
        {
            if self.willing[i] == peer {
                assert(self@.willing.contains(peer));
                return true;
            }
        }
        assert(!self@.willing.contains(peer));
        let n: usize = self.awaited.len();
        for i in 0..n
            invariant
                n == self.awaited@.len(),
                self@.awaited == awaited_view(self.awaited@),
                forall|j: int| 0 <= j < i ==> (#[trigger] self@.awaited[j]).1 != peer,
        {
            if self.awaited[i].1 == peer {
                assert(self@.awaited[i as int].1 == peer);
                return true;
            }
        }
        false
    }
}

/// Removes the awaited answer under an id.
fn remove_id(awaited: Vec<(String, Peer)>, id: &str) -> (rest: Vec<(String, Peer)>)
    ensures
        awaited_view(rest@) == without_id(awaited_view(awaited@), id@),
{
    let ghost all = awaited@;
    let ghost view = awaited_view(all);
    let ghost keep = apart_from(id@);
    let mut rest: Vec<(String, Peer)> = Vec::new();
    assert(awaited_view(rest@) =~= view.take(0).filter(keep)) by {
        reveal(Seq::filter);
    }
    for entry in iter: awaited
        invariant
            iter.seq() == all,
            view == awaited_view(all),
            keep == apart_from(id@),
            awaited_view(rest@) == view.take(iter.index()).filter(keep),
    {
        let ghost i = iter.index();
        let ghost before = rest@;
        proof {
            lemma_filter_step(view, keep, i);
        }
        assert(view[i] == (entry.0@, entry.1));
        if !same_text(entry.0.as_str(), id) {
            rest.push(entry);
            assert(awaited_view(rest@) =~= awaited_view(before).push(view[i]));
        }
    }
    assert(view.take(all.len() as int) =~= view);
    rest
}

/// Removes the request under a key.
fn remove_key(pending: Vec<Pending>, key: &str) -> (rest: Vec<Pending>)
    ensures
        pending_view(rest@) == without_key(pending_view(pending@), key@),
{
    let ghost all = pending@;
    let ghost view = pending_view(all);
    let ghost keep = |p: PendingView| p.key != key@;
    let mut rest: Vec<Pending> = Vec::new();
    assert(pending_view(rest@) =~= view.take(0).filter(keep)) by {
        reveal(Seq::filter);
    }
    for p in iter: pending
        invariant
            iter.seq() == all,
            view == pending_view(all),
            keep == (|p: PendingView| p.key != key@),
            pending_view(rest@) == view.take(iter.index()).filter(keep),
    {
        let ghost i = iter.index();
        let ghost before = rest@;
        proof {
            lemma_filter_step(view, keep, i);
        }
        assert(view[i] == p@);
        if !same_text(p.key.as_str(), key) {
            rest.push(p);
            assert(pending_view(rest@) =~= pending_view(before).push(view[i]));
        }
    }
    assert(view.take(all.len() as int) =~= view);
    rest
}

/// The client that a peer has registered as does not stand before position `from`
/// where no client before it has that peer.
proof fn lemma_client_of(clients: Seq<ClientView>, peer: Peer, from: int)
    requires
        0 <= from <= clients.len(),
        forall|i: int| 0 <= i < from ==> (#[trigger] clients[i]).peer != peer,
    ensures
        client_of(clients, peer) == client_of(clients.skip(from), peer),
    decreases from,
{
    if from == 0 {
        assert(clients.skip(0) =~= clients);
    } else {
        let rest = clients.drop_first();
        assert forall|i: int| 0 <= i < from - 1 implies (#[trigger] rest[i]).peer != peer by {
            assert(rest[i] == clients[i + 1]);
        }
        lemma_client_of(rest, peer, from - 1);
        assert(rest.skip(from - 1) =~= clients.skip(from));
        assert(clients[0].peer != peer);
    }
}

/// The first request that awaits an answer, where none before `from` does.
proof fn lemma_awaiting(pending: Seq<PendingView>, id: Seq<char>, peer: Peer, from: int)
    requires
        0 <= from <= pending.len(),
        forall|i: int| 0 <= i < from ==> !(#[trigger] pending[i]).awaited.contains((id, peer)),
    ensures
        from < pending.len() && pending[from].awaited.contains((id, peer)) ==> awaiting(
            pending,
            id,
            peer,
        ) == Some(from),
        from == pending.len() ==> awaiting(pending, id, peer) is None,
    decreases from,
{
    if from > 0 {
        let rest = pending.drop_first();
        assert forall|i: int| 0 <= i < from - 1 implies !(#[trigger] rest[i]).awaited.contains(
            (id, peer),
        ) by {
            assert(rest[i] == pending[i + 1]);
        }
        lemma_awaiting(rest, id, peer, from - 1);
        assert(!pending[0].awaited.contains((id, peer)));
    }
}

/// The first request under a key, where none before `from` has it.
proof fn lemma_under_key(pending: Seq<PendingView>, key: Seq<char>, from: int)
    requires
        0 <= from <= pending.len(),
        forall|i: int| 0 <= i < from ==> (#[trigger] pending[i]).key != key,
    ensures
        from < pending.len() && pending[from].key == key ==> under_key(pending, key) == Some(from),
        from == pending.len() ==> under_key(pending, key) is None,
    decreases from,
{
    if from > 0 {
        let rest = pending.drop_first();
        assert forall|i: int| 0 <= i < from - 1 implies (#[trigger] rest[i]).key != key by {
            assert(rest[i] == pending[i + 1]);
        }
        lemma_under_key(rest, key, from - 1);
        assert(pending[0].key != key);
    }
}

impl Router {
    /// The position of the client that a peer has registered as.
    fn find(&self, peer: Peer) -> (at: Option<usize>)
        ensures
            match at {
                Some(i) => i < self.clients@.len() && client_of(self@.clients, peer) == Some(
                    self.clients@[i as int]@,
                ),
                None => client_of(self@.clients, peer) is None,
            },
    {
        let n: usize = self.clients.len();
        for i in 0..n
            invariant
                n == self.clients@.len(),
                forall|j: int| 0 <= j < i ==> (#[trigger] self@.clients[j]).peer != peer,
        {
            if self.clients[i].peer == peer {
                proof {
                    lemma_client_of(self@.clients, peer, i as int);
                    assert(self@.clients.skip(i as int)[0] == self.clients@[i as int]@);
                }
                return Some(i);
            }
        }
        proof {
            lemma_client_of(self@.clients, peer, n as int);
            assert(self@.clients.skip(n as int).len() == 0);
        }
        None
    }

    /// What the others are told of a client's coming or going.
    fn status(&self, peer: Peer, status: &str) -> (outgoing: Outgoing)
        ensures
            mail(outgoing@) == status_mail(self@.clients, peer, status@),
    {
        let mut outgoing: Outgoing = Vec::new();
        let at: usize = match self.find(peer) {
            Some(at) => at,
            None => {
                assert(mail(outgoing@) =~= Seq::empty());
                return outgoing;
            },
        };
        let message = self.clients[at].status(status);
        let n: usize = self.clients.len();
        let ghost keep = |c: ClientView| c.peer != peer;
        assert(self@.clients.take(0).filter(keep) =~= Seq::empty()) by {
            reveal(Seq::filter);
        }
        assert(mail(outgoing@) =~= to_each(self@.clients.take(0).filter(keep), message@));
        for i in 0..n
            invariant
                n == self.clients@.len(),
                keep == (|c: ClientView| c.peer != peer),
                mail(outgoing@) == to_each(self@.clients.take(i as int).filter(keep), message@),
        {
            proof {
                lemma_filter_step(self@.clients, keep, i as int);
            }
            let ghost before = outgoing@;
            let other: Peer = self.clients[i].peer;
            assert(self@.clients[i as int].peer == other);
            if other != peer {
                let ghost found = self@.clients.take(i as int).filter(keep);
                outgoing.push((other, message.copy()));
                assert(mail(outgoing@) =~= mail(before).push((other, message@)));
                assert(to_each(found.push(self@.clients[i as int]), message@) =~= to_each(
                    found,
                    message@,
                ).push((other, message@)));
            }
        }
        assert(self@.clients.take(n as int) =~= self@.clients);
        outgoing
    }

    /// Registers a peer, or tells it the id that it has.
    fn initialize(&mut self, peer: Peer, message: &Json, id: &str) -> (outgoing: Outgoing)
        ensures
            (final(self)@, mail(outgoing@)) == initialize_step(old(self)@, peer, message@, id@),
    {
        let kind: Option<&str> = match message.get("params") {
            Some(params) => params.str_at("clientType"),
            None => None,
        };
        let kind: &str = match kind {
            Some(kind) => kind,
            None => {
                let mut outgoing: Outgoing = Vec::new();
                outgoing.push((peer, protocol::error(message, "invalid-initialize")));
                assert(mail(outgoing@) =~= initialize_step(self@, peer, message@, id@).1);
                return outgoing;
            },
        };
        let mut outgoing: Outgoing = Vec::new();
        let ghost before = self@;
        let id: String = match self.find(peer) {
            Some(at) => {
                assert(mail(outgoing@) =~= Seq::empty());
                self.clients[at].id.clone()
            },
            None => {
                let id: String = id.to_owned();
                self.clients.push(Client { peer, id: id.clone(), kind: kind.to_owned() });
                assert(self@.clients =~= before.clients.push(
                    ClientView { peer, id: id@, kind: kind@ },
                ));
                assert(self@.pending =~= before.pending);
                outgoing = self.status(peer, "connected");
                id
            },
        };
        let mut result = Json::object();
        result.set("clientId", Json::text(id.as_str()));
        let ghost sent = outgoing@;
        outgoing.push((peer, protocol::success(message, id.as_str(), result)));
        assert(mail(outgoing@) =~= mail(sent).push((peer, registered_view(message@, id@))));
        assert(mail(outgoing@) =~= initialize_step(before, peer, message@, id@).1);
        outgoing
    }

    /// Puts the sender's true id on a message.
    fn stamp(&self, peer: Peer, message: &mut Json)
        ensures
            final(message)@ == stamped(self@.clients, peer, old(message)@),
    {
        if let Some(at) = self.find(peer) {
            message.set("sourceClientId", Json::text(self.clients[at].id.as_str()));
        }
    }

    /// Offers a request to its candidates.
    fn open(&mut self, peer: Peer, message: Json, now: u64, ids: Vec<String>) -> (outgoing:
        Outgoing)
        requires
            ids@.len() > old(self)@.clients.len(),
        ensures
            (final(self)@, mail(outgoing@)) == open_step(
                old(self)@,
                peer,
                message@,
                now as int,
                texts(ids@),
            ),
    {
        let mut request = message;
        self.stamp(peer, &mut request);
        let ghost keep = |c: ClientView| c.peer != peer && addressed(request@, c);
        let ghost clients = self@.clients;
        let mut outgoing: Outgoing = Vec::new();
        let mut awaited: Vec<(String, Peer)> = Vec::new();
        let n: usize = self.clients.len();
        assert(clients.take(0).filter(keep) =~= Seq::empty()) by {
            reveal(Seq::filter);
        }
        assert(mail(outgoing@) =~= offers(clients.take(0).filter(keep), request@, texts(ids@)));
        assert(awaited_view(awaited@) =~= Seq::empty());
        for i in 0..n
            invariant
                n == self.clients@.len(),
                n < ids@.len(),
                clients == self@.clients,
                keep == (|c: ClientView| c.peer != peer && addressed(request@, c)),
                outgoing@.len() == clients.take(i as int).filter(keep).len(),
                outgoing@.len() <= i,
                mail(outgoing@) == offers(
                    clients.take(i as int).filter(keep),
                    request@,
                    texts(ids@),
                ),
                awaited_view(awaited@) == awaited_answers(
                    clients.take(i as int).filter(keep),
                    texts(ids@),
                ),
        {
            let ghost found = clients.take(i as int).filter(keep);
            proof {
                lemma_filter_step(clients, keep, i as int);
            }
            let client = &self.clients[i];
            assert(clients[i as int] == client@);
            if client.peer != peer && client.addressed(&request) {
                let id: &String = &ids[outgoing.len()];
                let ghost next = found.push(client@);
                assert(next == clients.take(i as int + 1).filter(keep));
                assert(next.drop_last() =~= found);
                awaited = remove_id(awaited, id.as_str());
                let ghost before = awaited@;
                awaited.push((id.clone(), client.peer));
                assert(awaited_view(awaited@) =~= awaited_view(before).push((id@, client.peer)));
                let ghost sent = outgoing@;
                let ghost offer = (client.peer, discovery_view(id@, request@));
                outgoing.push((client.peer, discovery(id.as_str(), &request)));
                assert(mail(outgoing@) =~= mail(sent).push(offer));
                assert(offers(next, request@, texts(ids@)) =~= offers(
                    found,
                    request@,
                    texts(ids@),
                ).push(offer));
            }
        }
        assert(clients.take(n as int) =~= clients);
        let ghost expected = open_step(self@, peer, message@, now as int, texts(ids@));
        if outgoing.len() == 0 {
            outgoing.push((peer, protocol::error(&request, "no-client-found")));
            assert(mail(outgoing@) =~= expected.1);
            return outgoing;
        }
        let key: &String = &ids[outgoing.len()];
        let opened = Pending {
            key: key.clone(),
            source: peer,
            deadline: now as u128 + 1_000_000 * (budget_millis(&request) as u128),
            request,
            awaited,
            willing: Vec::new(),
            target: None,
        };
        let mut pending: Vec<Pending> = Vec::new();
        std::mem::swap(&mut self.pending, &mut pending);
        let mut pending = remove_key(pending, key.as_str());
        let ghost before = pending@;
        pending.push(opened);
        self.pending = pending;
        assert(self@.clients =~= clients);
        assert(opened@.willing =~= Seq::empty());
        assert(self@.pending =~= pending_view(before).push(opened@));
        outgoing
    }

    /// Takes a client's answer to an offer.
    fn answer(&mut self, peer: Peer, message: &Json) -> (outgoing: Outgoing)
        ensures
            (final(self)@, mail(outgoing@)) == answer_step(old(self)@, peer, message@),
    {
        let mut outgoing: Outgoing = Vec::new();
        assert(mail(outgoing@) =~= Seq::empty());
        let id: &str = match message.str_at("requestId") {
            Some(id) => id,
            None => return outgoing,
        };
        let at: usize = match self.find_awaiting(id, peer) {
            Some(at) => at,
            None => return outgoing,
        };
        let accepts: bool = match message.get("response") {
            Some(response) => match response.get("canHandle") {
                Some(Json::Bool(accepts)) => *accepts,
                _ => false,
            },
            None => false,
        };
        let ghost before = self@;
        let mut p = self.pending.remove(at);
        let ghost asked = p@;
        assert(asked == before.pending[at as int]);
        assert(self@.pending =~= before.pending.remove(at as int));
        assert(self@.clients =~= before.clients);
        p.awaited = remove_id(p.awaited, id);
        if accepts {
            p.willing.push(peer);
        }
        let ide: bool = asks_for_context(&p.request);
        let ghost expected = answered(asked, id@, peer, accepts);
        let ghost rest = self@.pending;
        if p.awaited.len() > 0 && (ide || p.willing.len() == 0) {
            assert(p@ == expected.0->0);
        } else if p.willing.len() == 0 {
            outgoing.push(p.refusal("no-client-found"));
            assert(mail(outgoing@) =~= expected.1);
            return outgoing;
        } else if ide && p.willing.len() > 1 {
            outgoing.push(p.refusal("ambiguous-ide-provider"));
            assert(mail(outgoing@) =~= expected.1);
            return outgoing;
        } else {
            let target: Peer = p.willing[0];
            p.target = Some(target);
            p.awaited = Vec::new();
            let mut request = p.request.copy();
            request.set("requestId", Json::text(p.key.as_str()));
            outgoing.push((target, request));
            assert(mail(outgoing@) =~= expected.1);
            assert(p@.awaited =~= Seq::empty());
            assert(p@ == expected.0->0);
        }
        self.pending.insert(at, p);
        assert(self@.pending =~= before.pending.update(at as int, expected.0->0));
        assert(self@.clients =~= before.clients);
        outgoing
    }

    /// The position of the request that awaits an answer.
    fn find_awaiting(&self, id: &str, peer: Peer) -> (at: Option<usize>)
        ensures
            match at {
                Some(i) => i < self.pending@.len() && awaiting(self@.pending, id@, peer) == Some(
                    i as int,
                ),
                None => awaiting(self@.pending, id@, peer) is None,
            },
    {
        let n: usize = self.pending.len();
        for i in 0..n
            invariant
                n == self.pending@.len(),
                forall|j: int|
                    0 <= j < i ==> !(#[trigger] self@.pending[j]).awaited.contains((id@, peer)),
        {
            proof {
                lemma_awaiting(self@.pending, id@, peer, i as int);
            }
            assert(self@.pending[i as int] == self.pending@[i as int]@);
            if self.pending[i].awaits(id, peer) {
                return Some(i);
            }
        }
        proof {
            lemma_awaiting(self@.pending, id@, peer, n as int);
        }
        None
    }

    /// The position of the request under a key.
    fn find_key(&self, key: &str) -> (at: Option<usize>)
        ensures
            match at {
                Some(i) => i < self.pending@.len() && under_key(self@.pending, key@) == Some(
                    i as int,
                ),
                None => under_key(self@.pending, key@) is None,
            },
    {
        let n: usize = self.pending.len();
        for i in 0..n
            invariant
                n == self.pending@.len(),
                forall|j: int| 0 <= j < i ==> (#[trigger] self@.pending[j]).key != key@,
        {
            proof {
                lemma_under_key(self@.pending, key@, i as int);
            }
            assert(self@.pending[i as int] == self.pending@[i as int]@);
            if same_text(self.pending[i].key.as_str(), key) {
                return Some(i);
            }
        }
        proof {
            lemma_under_key(self@.pending, key@, n as int);
        }
        None
    }

    /// Returns a response to the one who asked.
    fn respond(&mut self, peer: Peer, message: Json) -> (outgoing: Outgoing)
        ensures
            (final(self)@, mail(outgoing@)) == response_step(old(self)@, peer, message@),
    {
        let mut outgoing: Outgoing = Vec::new();
        assert(mail(outgoing@) =~= Seq::empty());
        let at: usize = match message.str_at("requestId") {
            Some(key) => match self.find_key(key) {
                Some(at) => at,
                None => return outgoing,
            },
            None => return outgoing,
        };
        assert(self@.pending[at as int] == self.pending@[at as int]@);
        match self.pending[at].target {
            Some(target) => if target != peer {
                return outgoing;
            },
            None => return outgoing,
        }
        let ghost before = self@;
        let p = self.pending.remove(at);
        assert(self@.pending =~= before.pending.remove(at as int));
        assert(self@.clients =~= before.clients);
        let mut response = message;
        let succeeded: bool = response.says("resultType", "success");
        response.set("requestId", p.request.copy_at("requestId"));
        if succeeded {
            if let Some(at) = self.find(peer) {
                response.set("handledByClientId", Json::text(self.clients[at].id.as_str()));
            }
        }
        outgoing.push((p.source, response));
        assert(mail(outgoing@) =~= response_step(before, peer, message@).1);
        outgoing
    }

    /// Spreads a broadcast.
    fn spread(&self, peer: Peer, message: Json) -> (outgoing: Outgoing)
        ensures
            mail(outgoing@) == broadcast_mail(self@.clients, peer, message@),
    {
        let mut sent = message;
        self.stamp(peer, &mut sent);
        let mut outgoing: Outgoing = Vec::new();
        let n: usize = self.clients.len();
        let ghost clients = self@.clients;
        let ghost keep = |c: ClientView| c.peer != peer && listed(sent@, c);
        assert(clients.take(0).filter(keep) =~= Seq::empty()) by {
            reveal(Seq::filter);
        }
        assert(mail(outgoing@) =~= to_each(clients.take(0).filter(keep), sent@));
        for i in 0..n
            invariant
                n == self.clients@.len(),
                clients == self@.clients,
                keep == (|c: ClientView| c.peer != peer && listed(sent@, c)),
                mail(outgoing@) == to_each(clients.take(i as int).filter(keep), sent@),
        {
            let ghost found = clients.take(i as int).filter(keep);
            proof {
                lemma_filter_step(clients, keep, i as int);
            }
            let client = &self.clients[i];
            assert(clients[i as int] == client@);
            if client.peer != peer && client.listed(&sent) {
                let ghost before = outgoing@;
                outgoing.push((client.peer, sent.copy()));
                assert(mail(outgoing@) =~= mail(before).push((client.peer, sent@)));
                assert(to_each(found.push(client@), sent@) =~= to_each(found, sent@).push(
                    (client.peer, sent@),
                ));
            }
        }
        assert(clients.take(n as int) =~= clients);
        outgoing
    }

    /// Takes a message, with the time in nanoseconds and the identifiers that may be
    /// given out.
    pub fn handle(&mut self, peer: Peer, message: Json, now: u64, ids: Vec<String>) -> (outgoing:
        Outgoing)
        requires
            ids@.len() >= ids_needed(old(self)@, message@),
        ensures
            (final(self)@, mail(outgoing@)) == step(
                old(self)@,
                peer,
                message@,
                now as int,
                texts(ids@),
            ),
            old(self)@.wf() ==> final(self)@.wf(),
    {
        proof {
            if self@.wf() {
                law_messages_keep_invariant(self@, peer, message@, now as int, texts(ids@));
            }
        }
        let mut outgoing: Outgoing = Vec::new();
        assert(mail(outgoing@) =~= Seq::empty());
        if message.says("type", "request") {
            if message.str_at("requestId").is_none() || message.str_at("method").is_none() {
                return outgoing;
            }
            if message.says("method", "initialize") {
                return self.initialize(peer, &message, ids[0].as_str());
            }
            if self.pending.len() >= MAX_PENDING {
                outgoing.push((peer, protocol::error(&message, "router-busy")));
                assert(mail(outgoing@) =~= seq![(peer, error_view(message@, "router-busy"@))]);
                return outgoing;
            }
            return self.open(peer, message, now, ids);
        }
        if message.says("type", "client-discovery-response") {
            return self.answer(peer, &message);
        }
        if message.says("type", "response") {
            return self.respond(peer, message);
        }
        if message.says("type", "broadcast") {
            return self.spread(peer, message);
        }
        outgoing
    }

    /// Takes a message, with the time in nanoseconds. The identifiers that it needs
    /// are random.
    pub fn message(&mut self, peer: Peer, message: Json, now: u64) -> (outgoing: Outgoing)
        ensures
            exists|ids: Seq<Seq<char>>|
                ids.len() == ids_needed(old(self)@, message@) && (forall|i: int|
                    0 <= i < ids.len() ==> is_identifier(#[trigger] ids[i])) && (
                final(self)@,
                mail(outgoing@),
                ) == #[trigger] step(old(self)@, peer, message@, now as int, ids),
            old(self)@.wf() ==> final(self)@.wf(),
    {
        let mut ids: Vec<String> = Vec::new();
        if message.says("type", "request") {
            let n: usize = self.clients.len();
            for i in 0..n
                invariant
                    ids@.len() == i,
                    forall|j: int| 0 <= j < i ==> is_identifier((#[trigger] ids@[j])@),
            {
                ids.push(fresh_identifier());
            }
            ids.push(fresh_identifier());
        }
        let ghost drawn = texts(ids@);
        let ghost before = self@;
        let outgoing = self.handle(peer, message, now, ids);
        assert((self@, mail(outgoing@)) == step(before, peer, message@, now as int, drawn));
        outgoing
    }

    /// Whether any request is under way.
    pub fn has_pending(&self) -> (yes: bool)
        ensures
            yes == (self@.pending.len() > 0),
    {
        self.pending.len() > 0
    }

    /// Takes the end of a connection: tells the others, and refuses the requests that
    /// the peer was to handle.
    pub fn disconnect(&mut self, peer: Peer) -> (outgoing: Outgoing)
        ensures
            (final(self)@, mail(outgoing@)) == disconnect_step(old(self)@, peer),
            old(self)@.wf() ==> final(self)@.wf(),
    {
        proof {
            if self@.wf() {
                law_disconnect_keeps_invariant(self@, peer);
            }
        }
        let ghost state = self@;
        let ghost told = status_mail(state.clients, peer, "disconnected"@);
        let mut outgoing: Outgoing = self.status(peer, "disconnected");

        let mut clients: Vec<Client> = Vec::new();
        std::mem::swap(&mut self.clients, &mut clients);
        let ghost all = clients@;
        let ghost stays = |c: ClientView| c.peer != peer;
        let mut left: Vec<Client> = Vec::new();
        assert(clients_view(left@) =~= state.clients.take(0).filter(stays)) by {
            reveal(Seq::filter);
        }
        for client in iter: clients
            invariant
                iter.seq() == all,
                state.clients == clients_view(all),
                stays == (|c: ClientView| c.peer != peer),
                clients_view(left@) == state.clients.take(iter.index()).filter(stays),
        {
            let ghost i = iter.index();
            proof {
                lemma_filter_step(state.clients, stays, i);
            }
            assert(state.clients[i] == client@);
            if client.peer != peer {
                let ghost before = left@;
                left.push(client);
                assert(clients_view(left@) =~= clients_view(before).push(state.clients[i]));
            }
        }
        assert(state.clients.take(all.len() as int) =~= state.clients);
        self.clients = left;

        let mut pending: Vec<Pending> = Vec::new();
        std::mem::swap(&mut self.pending, &mut pending);
        let ghost all = pending@;
        let ghost keep = |p: PendingView| p.source != peer && !involves(p, peer);
        let ghost fail = |p: PendingView| p.source != peer && involves(p, peer);
        let ghost reason = "client-disconnected"@;
        let mut kept: Vec<Pending> = Vec::new();
        proof {
            reveal(Seq::filter);
            assert(pending_view(kept@) =~= state.pending.take(0).filter(keep));
            assert(refusals(state.pending.take(0).filter(fail), reason) =~= Seq::empty());
            assert(mail(outgoing@) =~= told + refusals(
                state.pending.take(0).filter(fail),
                reason,
            ));
        }
        for p in iter: pending
            invariant
                iter.seq() == all,
                state.pending == pending_view(all),
                keep == (|p: PendingView| p.source != peer && !involves(p, peer)),
                fail == (|p: PendingView| p.source != peer && involves(p, peer)),
                reason == "client-disconnected"@,
                pending_view(kept@) == state.pending.take(iter.index()).filter(keep),
                mail(outgoing@) == told + refusals(
                    state.pending.take(iter.index()).filter(fail),
                    reason,
                ),
        {
            let ghost i = iter.index();
            proof {
                lemma_filter_step(state.pending, keep, i);
                lemma_filter_step(state.pending, fail, i);
            }
            assert(state.pending[i] == p@);
            if p.source != peer {
                if p.involves(peer) {
                    let ghost failed = state.pending.take(i).filter(fail);
                    let ghost before = outgoing@;
                    let ghost refused = (p@.source, error_view(p@.request, reason));
                    outgoing.push(p.refusal("client-disconnected"));
                    assert(mail(outgoing@) =~= mail(before).push(refused));
                    assert(refusals(failed.push(p@), reason) =~= refusals(failed, reason).push(
                        refused,
                    ));
                    assert(told + refusals(failed.push(p@), reason) =~= (told + refusals(
                        failed,
                        reason,
                    )).push(refused));
                } else {
                    let ghost before = kept@;
                    kept.push(p);
                    assert(pending_view(kept@) =~= pending_view(before).push(state.pending[i]));
                }
            }
        }
        assert(state.pending.take(all.len() as int) =~= state.pending);
        self.pending = kept;
        outgoing
    }

    /// Refuses the requests whose time, in nanoseconds, has come.
    pub fn expire(&mut self, now: u64) -> (outgoing: Outgoing)
        ensures
            (final(self)@, mail(outgoing@)) == expire_step(old(self)@, now as int),
            old(self)@.wf() ==> final(self)@.wf(),
    {
        proof {
            if self@.wf() {
                law_expire_keeps_invariant(self@, now as int);
            }
        }
        let ghost state = self@;
        let mut outgoing: Outgoing = Vec::new();
        let mut pending: Vec<Pending> = Vec::new();
        std::mem::swap(&mut self.pending, &mut pending);
        let ghost all = pending@;
        let ghost keep = |p: PendingView| p.deadline > now as int;
        let ghost fail = |p: PendingView| p.deadline <= now as int;
        let ghost reason = "request-timeout"@;
        let mut kept: Vec<Pending> = Vec::new();
        proof {
            reveal(Seq::filter);
            assert(pending_view(kept@) =~= state.pending.take(0).filter(keep));
            assert(mail(outgoing@) =~= refusals(state.pending.take(0).filter(fail), reason));
        }
        for p in iter: pending
            invariant
                iter.seq() == all,
                state.pending == pending_view(all),
                keep == (|p: PendingView| p.deadline > now as int),
                fail == (|p: PendingView| p.deadline <= now as int),
                reason == "request-timeout"@,
                pending_view(kept@) == state.pending.take(iter.index()).filter(keep),
                mail(outgoing@) == refusals(
                    state.pending.take(iter.index()).filter(fail),
                    reason,
                ),
        {
            let ghost i = iter.index();
            proof {
                lemma_filter_step(state.pending, keep, i);
                lemma_filter_step(state.pending, fail, i);
            }
            assert(state.pending[i] == p@);
            if p.deadline > now as u128 {
                let ghost before = kept@;
                kept.push(p);
                assert(pending_view(kept@) =~= pending_view(before).push(state.pending[i]));
            } else {
                let ghost failed = state.pending.take(i).filter(fail);
                let ghost before = outgoing@;
                let ghost refused = (p@.source, error_view(p@.request, reason));
                outgoing.push(p.refusal("request-timeout"));
                assert(mail(outgoing@) =~= mail(before).push(refused));
                assert(refusals(failed.push(p@), reason) =~= refusals(failed, reason).push(
                    refused,
                ));
            }
        }
        assert(state.pending.take(all.len() as int) =~= state.pending);
        self.pending = kept;
        assert(self@.clients =~= state.clients);
        outgoing
    }
}

/// Whether a character is a lower-case hexadecimal digit.
pub open spec fn is_hex(c: char) -> bool {
    '0' <= c <= '9' || 'a' <= c <= 'f'
}

/// Whether a text is a random identifier: the usual form of a version 4 UUID, in
/// lower case.
pub open spec fn is_identifier(text: Seq<char>) -> bool {
    &&& text.len() == 36
    &&& text[14] == '4'
    &&& text[19] == '8' || text[19] == '9' || text[19] == 'a' || text[19] == 'b'
    &&& forall|i: int|
        0 <= i < 36 ==> if i == 8 || i == 13 || i == 18 || i == 23 {
            #[trigger] text[i] == '-'
        } else {
            is_hex(text[i])
        }
}

/// Trusted: `uuid::Uuid::new_v4`, written out with hyphens. Nothing is claimed but the
/// form of the text: that no two are equal is a matter of chance.
#[verifier::external_body]
pub(crate) fn fresh_identifier() -> (id: String)
    ensures
        is_identifier(id@),
{
    uuid::Uuid::new_v4().to_string()
}

} // verus!
