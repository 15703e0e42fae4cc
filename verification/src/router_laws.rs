//! What holds of a router in every state and over several messages.
use crate::json::JsonView;
use crate::names::{lemma_kinds, lemma_member_names};
use crate::protocol::error_view;
use crate::router::{
    addressed, answer_step, answered, apart_from, awaited_answers, awaiting, budget, candidates,
    client_of, disconnect_step, expire_step, ids_needed, in_order, initialize_step, involves,
    is_ide, listed, offers, open_step, others, registered, registered_view, response_step, returned,
    stamped, status_mail, step, to_each, under_key, without_id, without_key, ClientView, Peer,
    PendingView, RouterView, MAX_PENDING,
};
use crate::sequence::{
    distinct_by, lemma_filter_distinct, lemma_filter_members, lemma_push_distinct,
};
use vstd::prelude::*;

verus! {

/// A peer is registered just where it is found.
pub proof fn lemma_registered(clients: Seq<ClientView>, peer: Peer)
    ensures
        registered(clients, peer) == (client_of(clients, peer) is Some),
        client_of(clients, peer) matches Some(c) ==> c.peer == peer && clients.contains(c),
    decreases clients.len(),
{
    if clients.len() > 0 {
        let rest = clients.drop_first();
        lemma_registered(rest, peer);
        if clients[0].peer != peer {
            if registered(clients, peer) {
                let i = choose|i: int|
                    0 <= i < clients.len() && (#[trigger] clients[i]).peer == peer;
                assert(rest[i - 1].peer == peer);
            }
            if registered(rest, peer) {
                let i = choose|i: int| 0 <= i < rest.len() && (#[trigger] rest[i]).peer == peer;
                assert(clients[i + 1].peer == peer);
            }
            if let Some(c) = client_of(rest, peer) {
                let i = rest.index_of(c);
                assert(clients[i + 1] == c);
            }
        } else {
            assert(clients.contains(clients[0]));
        }
    }
}

/// A request stays in order as long as no client that it waits for goes.
proof fn lemma_in_order(p: PendingView, before: Seq<ClientView>, after: Seq<ClientView>)
    requires
        in_order(p, before),
        forall|peer: Peer| #[trigger]
            involves(p, peer) && registered(before, peer) ==> registered(after, peer),
    ensures
        in_order(p, after),
{
}

proof fn lemma_without_id(awaited: Seq<(Seq<char>, Peer)>, id: Seq<char>)
    requires
        distinct_by(awaited, |entry: (Seq<char>, Peer)| entry.0),
    ensures
        distinct_by(without_id(awaited, id), |entry: (Seq<char>, Peer)| entry.0),
        forall|i: int|
            0 <= i < without_id(awaited, id).len() ==> awaited.contains(
                #[trigger] without_id(awaited, id)[i],
            ) && without_id(awaited, id)[i].0 != id,
{
    let keep = apart_from(id);
    let kept = awaited.filter(keep);
    lemma_filter_distinct(awaited, keep, |entry: (Seq<char>, Peer)| entry.0);
    lemma_filter_members(awaited, keep);
    assert forall|i: int| 0 <= i < kept.len() implies awaited.contains(#[trigger] kept[i])
        && kept[i].0 != id by {
        assert(kept.contains(kept[i]));
    }
}

/// The answers that offers await are those of the candidates, under distinct ids.
proof fn lemma_awaited_answers(found: Seq<ClientView>, ids: Seq<Seq<char>>)
    requires
        found.len() <= ids.len(),
    ensures
        distinct_by(awaited_answers(found, ids), |entry: (Seq<char>, Peer)| entry.0),
        found.len() > 0 ==> awaited_answers(found, ids).len() > 0,
        forall|i: int|
            0 <= i < awaited_answers(found, ids).len() ==> registered(
                found,
                (#[trigger] awaited_answers(found, ids)[i]).1,
            ),
    decreases found.len(),
{
    if found.len() > 0 {
        let rest = found.drop_last();
        let id = ids[found.len() - 1];
        let before = awaited_answers(rest, ids);
        lemma_awaited_answers(rest, ids);
        lemma_without_id(before, id);
        let left = without_id(before, id);
        let entry = (id, found.last().peer);
        lemma_push_distinct(left, entry, |entry: (Seq<char>, Peer)| entry.0);
        let all = left.push(entry);
        assert(all == awaited_answers(found, ids));
        assert forall|i: int| 0 <= i < all.len() implies registered(
            found,
            (#[trigger] all[i]).1,
        ) by {
            if i < left.len() {
                assert(before.contains(left[i]));
                let j = before.index_of(left[i]);
                let k = choose|k: int|
                    0 <= k < rest.len() && (#[trigger] rest[k]).peer == before[j].1;
                assert(found[k].peer == all[i].1);
            } else {
                assert(found[found.len() - 1].peer == all[i].1);
            }
        }
    }
}

/// Removing or replacing a request keeps the others as they are.
proof fn lemma_pending_distinct(pending: Seq<PendingView>, i: int, p: PendingView)
    requires
        distinct_by(pending, |p: PendingView| p.key),
        0 <= i < pending.len(),
        p.key == pending[i].key,
    ensures
        distinct_by(pending.update(i, p), |p: PendingView| p.key),
        distinct_by(pending.remove(i), |p: PendingView| p.key),
{
    let updated = pending.update(i, p);
    let removed = pending.remove(i);
    assert forall|a: int, b: int| 0 <= a < b < updated.len() implies (#[trigger] updated[a]).key
        != (#[trigger] updated[b]).key by {
        assert(updated[a].key == pending[a].key && updated[b].key == pending[b].key);
    }
    assert forall|a: int, b: int| 0 <= a < b < removed.len() implies (#[trigger] removed[a]).key
        != (#[trigger] removed[b]).key by {
        let x = if a < i {
            a
        } else {
            a + 1
        };
        let y = if b < i {
            b
        } else {
            b + 1
        };
        assert(removed[a] == pending[x] && removed[b] == pending[y]);
    }
}

/// The position of an awaiting request is one of its list, and it does await.
pub proof fn lemma_awaiting_found(pending: Seq<PendingView>, id: Seq<char>, peer: Peer)
    ensures
        awaiting(pending, id, peer) matches Some(i) ==> 0 <= i < pending.len()
            && pending[i].awaited.contains((id, peer)),
        awaiting(pending, id, peer) is None ==> forall|i: int|
            0 <= i < pending.len() ==> !(#[trigger] pending[i]).awaited.contains((id, peer)),
    decreases pending.len(),
{
    if pending.len() > 0 {
        let rest = pending.drop_first();
        lemma_awaiting_found(rest, id, peer);
        if awaiting(pending, id, peer) is None {
            assert forall|i: int| 0 <= i < pending.len() implies !(
            #[trigger] pending[i]).awaited.contains((id, peer)) by {
                if i > 0 {
                    assert(rest[i - 1] == pending[i]);
                }
            }
        }
    }
}

/// The position of the request under a key is one of its list, and it has the key.
pub proof fn lemma_under_key_found(pending: Seq<PendingView>, key: Seq<char>)
    ensures
        under_key(pending, key) matches Some(i) ==> 0 <= i < pending.len() && pending[i].key
            == key,
        under_key(pending, key) is None ==> forall|i: int|
            0 <= i < pending.len() ==> (#[trigger] pending[i]).key != key,
    decreases pending.len(),
{
    if pending.len() > 0 {
        let rest = pending.drop_first();
        lemma_under_key_found(rest, key);
        if under_key(pending, key) is None {
            assert forall|i: int| 0 <= i < pending.len() implies (#[trigger] pending[i]).key
                != key by {
                if i > 0 {
                    assert(rest[i - 1] == pending[i]);
                }
            }
        }
    }
}

proof fn lemma_initialize_keeps(
    state: RouterView,
    peer: Peer,
    message: JsonView,
    id: Seq<char>,
)
    requires
        state.wf(),
    ensures
        initialize_step(state, peer, message, id).0.wf(),
{
    let next = initialize_step(state, peer, message, id).0;
    if next.clients.len() > state.clients.len() {
        lemma_registered(state.clients, peer);
        let client = next.clients.last();
        assert(next.clients == state.clients.push(client));
        lemma_push_distinct(state.clients, client, |c: ClientView| c.peer);
        assert forall|i: int| 0 <= i < next.pending.len() implies in_order(
            #[trigger] next.pending[i],
            next.clients,
        ) by {
            let p = state.pending[i];
            assert forall|q: Peer| #[trigger]
                involves(p, q) && registered(state.clients, q) implies registered(
                next.clients,
                q,
            ) by {
                let k = choose|k: int|
                    0 <= k < state.clients.len() && (#[trigger] state.clients[k]).peer == q;
                assert(next.clients[k].peer == q);
            }
            lemma_in_order(p, state.clients, next.clients);
        }
    }
}

proof fn lemma_open_keeps(
    state: RouterView,
    peer: Peer,
    message: JsonView,
    now: int,
    ids: Seq<Seq<char>>,
)
    requires
        state.wf(),
        state.pending.len() < MAX_PENDING,
        ids.len() > state.clients.len(),
    ensures
        open_step(state, peer, message, now, ids).0.wf(),
{
    let request = stamped(state.clients, peer, message);
    let offered = |c: ClientView| c.peer != peer && addressed(request, c);
    let found = candidates(state.clients, peer, request);
    lemma_filter_members(state.clients, offered);
    if found.len() > 0 {
        let next = open_step(state, peer, message, now, ids).0;
        let key = ids[found.len() as int];
        let left = without_key(state.pending, key);
        let opened = next.pending.last();
        let other = |p: PendingView| p.key != key;
        assert(next.pending == left.push(opened));
        lemma_filter_members(state.pending, other);
        lemma_filter_distinct(state.pending, other, |p: PendingView| p.key);
        assert forall|i: int| 0 <= i < left.len() implies (#[trigger] left[i]).key
            != opened.key && state.pending.contains(left[i]) by {
            assert(left.contains(left[i]));
        }
        lemma_push_distinct(left, opened, |p: PendingView| p.key);
        lemma_awaited_answers(found, ids);
        assert forall|q: Peer| #[trigger] involves(opened, q) implies q != opened.source
            && registered(state.clients, q) by {
            let i = choose|i: int|
                0 <= i < opened.awaited.len() && (#[trigger] opened.awaited[i]).1 == q;
            let k = choose|k: int| 0 <= k < found.len() && (#[trigger] found[k]).peer == q;
            assert(found.contains(found[k]));
            let j = state.clients.index_of(found[k]);
            assert(state.clients[j].peer == q);
        }
        assert forall|i: int| 0 <= i < next.pending.len() implies in_order(
            #[trigger] next.pending[i],
            next.clients,
        ) by {
            if i < left.len() {
                assert(next.pending[i] == left[i]);
                let j = state.pending.index_of(left[i]);
                assert(in_order(state.pending[j], state.clients));
            }
        }
    }
}

/// What an answer makes of a request that is in order is in order.
proof fn lemma_answered_in_order(
    p: PendingView,
    clients: Seq<ClientView>,
    id: Seq<char>,
    peer: Peer,
    accepts: bool,
)
    requires
        in_order(p, clients),
        p.awaited.contains((id, peer)),
    ensures
        answered(p, id, peer, accepts).0 matches Some(q) ==> in_order(q, clients) && q.key
            == p.key && q.source == p.source && q.request == p.request,
{
    if let Some(q) = answered(p, id, peer, accepts).0 {
        lemma_without_id(p.awaited, id);
        let at = p.awaited.index_of((id, peer));
        assert(involves(p, peer)) by {
            assert(p.awaited[at].1 == peer);
        }
        assert forall|r: Peer| #[trigger] involves(q, r) implies r != q.source && registered(
            clients,
            r,
        ) by {
            if q.willing.contains(r) {
                let i = q.willing.index_of(r);
                if i < p.willing.len() {
                    assert(p.willing[i] == r);
                    assert(p.willing.contains(r));
                }
                assert(involves(p, r));
            } else if q.target == Some(r) {
                assert(q.willing[0] == r);
                assert(q.willing.contains(r));
            } else {
                let i = choose|i: int|
                    0 <= i < q.awaited.len() && (#[trigger] q.awaited[i]).1 == r;
                let j = p.awaited.index_of(q.awaited[i]);
                assert(p.awaited[j].1 == r);
                assert(involves(p, r));
            }
        }
    }
}

proof fn lemma_answer_keeps(state: RouterView, peer: Peer, message: JsonView)
    requires
        state.wf(),
    ensures
        answer_step(state, peer, message).0.wf(),
{
    if let JsonView::Str(id) = message.at("requestId"@) {
        lemma_awaiting_found(state.pending, id, peer);
        if let Some(i) = awaiting(state.pending, id, peer) {
            let accepts = message.at("response"@).at("canHandle"@) == JsonView::Bool(true);
            let p = state.pending[i];
            assert(in_order(p, state.clients));
            lemma_answered_in_order(p, state.clients, id, peer, accepts);
            let next = answer_step(state, peer, message).0;
            match answered(p, id, peer, accepts).0 {
                Some(q) => {
                    lemma_pending_distinct(state.pending, i, q);
                    assert forall|k: int| 0 <= k < next.pending.len() implies in_order(
                        #[trigger] next.pending[k],
                        next.clients,
                    ) by {
                        if k != i {
                            assert(next.pending[k] == state.pending[k]);
                        }
                    }
                },
                None => {
                    lemma_pending_distinct(state.pending, i, p);
                    lemma_removed_in_order(state, i);
                },
            }
        }
    }
}

/// Removing a request leaves the others in order.
proof fn lemma_removed_in_order(state: RouterView, i: int)
    requires
        state.wf(),
        0 <= i < state.pending.len(),
    ensures
        forall|k: int|
            0 <= k < state.pending.remove(i).len() ==> in_order(
                #[trigger] state.pending.remove(i)[k],
                state.clients,
            ),
{
    assert forall|k: int| 0 <= k < state.pending.remove(i).len() implies in_order(
        #[trigger] state.pending.remove(i)[k],
        state.clients,
    ) by {
        let j = if k < i {
            k
        } else {
            k + 1
        };
        assert(state.pending.remove(i)[k] == state.pending[j]);
    }
}

proof fn lemma_response_keeps(state: RouterView, peer: Peer, message: JsonView)
    requires
        state.wf(),
    ensures
        response_step(state, peer, message).0.wf(),
{
    if let JsonView::Str(key) = message.at("requestId"@) {
        lemma_under_key_found(state.pending, key);
        if let Some(i) = under_key(state.pending, key) {
            lemma_pending_distinct(state.pending, i, state.pending[i]);
            lemma_removed_in_order(state, i);
        }
    }
}

/// No message takes a router out of its invariant.
pub proof fn law_messages_keep_invariant(
    state: RouterView,
    peer: Peer,
    message: JsonView,
    now: int,
    ids: Seq<Seq<char>>,
)
    requires
        state.wf(),
        ids.len() >= ids_needed(state, message),
    ensures
        step(state, peer, message, now, ids).0.wf(),
{
    lemma_initialize_keeps(state, peer, message, ids[0]);
    if state.pending.len() < MAX_PENDING && ids.len() > state.clients.len() {
        lemma_open_keeps(state, peer, message, now, ids);
    }
    lemma_answer_keeps(state, peer, message);
    lemma_response_keeps(state, peer, message);
}

/// A filtered list of requests that stay in order is in order.
proof fn lemma_filtered_in_order(
    state: RouterView,
    keep: spec_fn(PendingView) -> bool,
    clients: Seq<ClientView>,
)
    requires
        state.wf(),
        distinct_by(clients, |c: ClientView| c.peer),
        forall|p: PendingView| #[trigger]
            keep(p) && in_order(p, state.clients) ==> in_order(p, clients),
    ensures
        (RouterView { clients, pending: state.pending.filter(keep) }).wf(),
{
    let kept = state.pending.filter(keep);
    lemma_filter_members(state.pending, keep);
    lemma_filter_distinct(state.pending, keep, |p: PendingView| p.key);
    assert forall|i: int| 0 <= i < kept.len() implies in_order(#[trigger] kept[i], clients) by {
        assert(kept.contains(kept[i]));
        let j = state.pending.index_of(kept[i]);
        assert(in_order(state.pending[j], state.clients));
        assert(keep(kept[i]));
    }
}

/// The end of a connection keeps a router in its invariant.
pub proof fn law_disconnect_keeps_invariant(state: RouterView, peer: Peer)
    requires
        state.wf(),
    ensures
        disconnect_step(state, peer).0.wf(),
{
    let clients = others(state.clients, peer);
    let stays = |c: ClientView| c.peer != peer;
    let keep = |p: PendingView| p.source != peer && !involves(p, peer);
    lemma_filter_distinct(state.clients, stays, |c: ClientView| c.peer);
    lemma_filter_members(state.clients, stays);
    assert forall|p: PendingView| #[trigger] keep(p) && in_order(p, state.clients) implies in_order(
        p,
        clients,
    ) by {
        assert forall|q: Peer| #[trigger]
            involves(p, q) && registered(state.clients, q) implies registered(clients, q) by {
            let k = choose|k: int|
                0 <= k < state.clients.len() && (#[trigger] state.clients[k]).peer == q;
            assert(state.clients.contains(state.clients[k]));
            assert(clients.contains(state.clients[k]));
            let j = clients.index_of(state.clients[k]);
            assert(clients[j].peer == q);
        }
        lemma_in_order(p, state.clients, clients);
    }
    lemma_filtered_in_order(state, keep, clients);
}

/// The passing of time keeps a router in its invariant.
pub proof fn law_expire_keeps_invariant(state: RouterView, now: int)
    requires
        state.wf(),
    ensures
        expire_step(state, now).0.wf(),
{
    lemma_filtered_in_order(state, |p: PendingView| p.deadline > now, state.clients);
}

/// A refusal goes under the id of the request that it refuses.
proof fn lemma_refusal_id(request: JsonView, reason: Seq<char>)
    ensures
        error_view(request, reason).at("requestId"@) == request.at("requestId"@),
{
    lemma_member_names();
}

/// Removing an awaited answer leaves all others.
proof fn lemma_without_one(awaited: Seq<(Seq<char>, Peer)>, id: Seq<char>, peer: Peer)
    requires
        distinct_by(awaited, |entry: (Seq<char>, Peer)| entry.0),
        awaited.contains((id, peer)),
    ensures
        without_id(awaited, id).len() + 1 == awaited.len(),
    decreases awaited.len(),
{
    reveal(Seq::filter);
    let rest = awaited.drop_last();
    if awaited.last().0 == id {
        assert forall|i: int| 0 <= i < rest.len() implies (#[trigger] rest[i]).0 != id by {
            assert(awaited[i].0 != awaited[awaited.len() - 1].0);
        }
        lemma_without_none(rest, id);
    } else {
        let at = awaited.index_of((id, peer));
        assert(rest[at] == (id, peer));
        assert forall|i: int, j: int| 0 <= i < j < rest.len() implies (#[trigger] rest[i]).0 != (
        #[trigger] rest[j]).0 by {
            assert(awaited[i] == rest[i] && awaited[j] == rest[j]);
        }
        lemma_without_one(rest, id, peer);
    }
}

proof fn lemma_without_none(awaited: Seq<(Seq<char>, Peer)>, id: Seq<char>)
    requires
        forall|i: int| 0 <= i < awaited.len() ==> (#[trigger] awaited[i]).0 != id,
    ensures
        without_id(awaited, id) == awaited,
    decreases awaited.len(),
{
    reveal(Seq::filter);
    if awaited.len() > 0 {
        let rest = awaited.drop_last();
        assert forall|i: int| 0 <= i < rest.len() implies (#[trigger] rest[i]).0 != id by {
            assert(awaited[i] == rest[i]);
        }
        assert(awaited[awaited.len() - 1].0 != id);
        lemma_without_none(rest, id);
        assert(rest.push(awaited.last()) =~= awaited);
    }
}

/// A message that a router takes: from whom, what it says, at what time, and the
/// identifiers that are drawn for it.
pub struct Call {
    pub letter: (Peer, JsonView),
    pub now: int,
    pub ids: Seq<Seq<char>>,
}

/// What a router makes of a message.
pub open spec fn taken(state: RouterView, call: Call) -> (RouterView, Seq<(Peer, JsonView)>) {
    step(state, call.letter.0, call.letter.1, call.now, call.ids)
}

/// What a router makes of several messages, one after the other, with what it says to each.
pub open spec fn run(state: RouterView, calls: Seq<Call>) -> (
    RouterView,
    Seq<Seq<(Peer, JsonView)>>,
)
    decreases calls.len(),
{
    if calls.len() == 0 {
        (state, Seq::empty())
    } else {
        let (next, said) = taken(state, calls[0]);
        let (end, rest) = run(next, calls.drop_first());
        (end, seq![said] + rest)
    }
}

/// The messages themselves.
pub open spec fn letters(calls: Seq<Call>) -> Seq<(Peer, JsonView)> {
    Seq::new(calls.len(), |k: int| calls[k].letter)
}

/// Whether an answer accepts the request.
pub open spec fn accepts(answer: (Peer, JsonView)) -> bool {
    answer.1.at("response"@).at("canHandle"@) == JsonView::Bool(true)
}

/// Which offer an answer is for.
pub open spec fn answers_to(answer: (Peer, JsonView)) -> (Seq<char>, Peer) {
    (answer.1.at("requestId"@)->Str_0, answer.0)
}

/// Whether a message answers an offer.
pub open spec fn is_answer(letter: (Peer, JsonView)) -> bool {
    letter.1.at("type"@) == JsonView::Str("client-discovery-response"@)
}

/// Whether these are the answers to all offers of one request, in some order, and to
/// those of no other.
pub open spec fn complete(state: RouterView, i: int, answers: Seq<(Peer, JsonView)>) -> bool {
    &&& 0 <= i < state.pending.len()
    &&& answers.len() == state.pending[i].awaited.len()
    &&& distinct_by(answers, |answer: (Peer, JsonView)| answers_to(answer).0)
    &&& forall|k: int|
        0 <= k < answers.len() ==> is_answer(#[trigger] answers[k]) && answers[k].1.at(
            "requestId"@,
        ) is Str && state.pending[i].awaited.contains(answers_to(answers[k]))
    &&& forall|j: int, k: int|
        0 <= j < state.pending.len() && j != i && 0 <= k < answers.len() ==> !(
        #[trigger] state.pending[j]).awaited.contains(answers_to(#[trigger] answers[k]))
}

/// The peers that accept, in the order of their answers.
pub open spec fn accepting(answers: Seq<(Peer, JsonView)>) -> Seq<Peer>
    decreases answers.len(),
{
    if answers.len() == 0 {
        Seq::empty()
    } else if accepts(answers[0]) {
        seq![answers[0].0] + accepting(answers.drop_first())
    } else {
        accepting(answers.drop_first())
    }
}

/// What becomes of a request for editor context once all have answered.
pub open spec fn verdict(p: PendingView, willing: Seq<Peer>) -> (
    Option<PendingView>,
    Seq<(Peer, JsonView)>,
) {
    if willing.len() == 0 {
        (None, seq![(p.source, error_view(p.request, "no-client-found"@))])
    } else if willing.len() > 1 {
        (None, seq![(p.source, error_view(p.request, "ambiguous-ide-provider"@))])
    } else {
        (
            Some(
                PendingView { awaited: Seq::empty(), willing, target: Some(willing[0]), ..p },
            ),
            seq![(willing[0], p.request.with("requestId"@, JsonView::Str(p.key)))],
        )
    }
}

/// A router with a request replaced or dropped.
pub open spec fn replaced(state: RouterView, i: int, p: Option<PendingView>) -> RouterView {
    match p {
        Some(p) => RouterView { pending: state.pending.update(i, p), ..state },
        None => RouterView { pending: state.pending.remove(i), ..state },
    }
}

/// Only the request that awaits an answer is concerned by it.
pub proof fn lemma_answer_at(state: RouterView, i: int, answer: (Peer, JsonView))
    requires
        0 <= i < state.pending.len(),
        answer.1.at("requestId"@) is Str,
        state.pending[i].awaited.contains(answers_to(answer)),
        forall|j: int|
            0 <= j < state.pending.len() && j != i ==> !(
            #[trigger] state.pending[j]).awaited.contains(answers_to(answer)),
    ensures
        ({
            let (kept, sent) = answered(
                state.pending[i],
                answers_to(answer).0,
                answer.0,
                accepts(answer),
            );
            answer_step(state, answer.0, answer.1) == (replaced(state, i, kept), sent)
        }),
{
    lemma_awaiting_found(state.pending, answers_to(answer).0, answer.0);
}

/// The answers to all offers of a request for editor context: to each but the last
/// nothing is said, and to the last what then is decided.
proof fn lemma_run_answers(state: RouterView, i: int, calls: Seq<Call>)
    requires
        state.wf(),
        complete(state, i, letters(calls)),
        calls.len() > 0,
        is_ide(state.pending[i].request),
        state.pending[i].target is None,
    ensures
        ({
            let p = state.pending[i];
            let (kept, sent) = verdict(p, p.willing + accepting(letters(calls)));
            let (end, said) = run(state, calls);
            &&& end == replaced(state, i, kept)
            &&& said.len() == calls.len()
            &&& forall|k: int|
                0 <= k < said.len() - 1 ==> #[trigger] said[k] == Seq::<(Peer, JsonView)>::empty()
            &&& said[said.len() - 1] == sent
        }),
    decreases calls.len(),
{
    let answers = letters(calls);
    let p = state.pending[i];
    let first = answers[0];
    let rest = answers.drop_first();
    let id = answers_to(first).0;
    lemma_kinds();
    assert(in_order(p, state.clients));
    lemma_answer_at(state, i, first);
    lemma_without_one(p.awaited, id, first.0);
    let (next, sent) = taken(state, calls[0]);
    assert((next, sent) == answer_step(state, first.0, first.1));
    assert(letters(calls.drop_first()) =~= rest);
    reveal_with_fuel(run, 2);
    reveal_with_fuel(accepting, 2);
    if answers.len() == 1 {
        assert(without_id(p.awaited, id) =~= Seq::empty());
        assert(rest =~= Seq::empty());
        assert(p.willing.push(first.0) =~= p.willing + seq![first.0]);
        assert(p.willing + Seq::empty() =~= p.willing);
        assert(seq![first.0] + Seq::<Peer>::empty() =~= seq![first.0]);
    } else {
        lemma_answer_keeps(state, first.0, first.1);
        lemma_without_id(p.awaited, id);
        let q = next.pending[i];
        assert(q.awaited == without_id(p.awaited, id));
        assert(distinct_by(rest, |answer: (Peer, JsonView)| answers_to(answer).0)) by {
            assert forall|a: int, b: int| 0 <= a < b < rest.len() implies answers_to(
                #[trigger] rest[a],
            ).0 != answers_to(#[trigger] rest[b]).0 by {
                assert(rest[a] == answers[a + 1] && rest[b] == answers[b + 1]);
            }
        }
        lemma_filter_members(p.awaited, apart_from(id));
        assert forall|k: int| 0 <= k < rest.len() implies is_answer(#[trigger] rest[k])
            && rest[k].1.at("requestId"@) is Str && q.awaited.contains(answers_to(rest[k])) by {
            assert(rest[k] == answers[k + 1]);
            assert(answers_to(answers[0]).0 != answers_to(answers[k + 1]).0);
        }
        assert forall|j: int, k: int|
            0 <= j < next.pending.len() && j != i && 0 <= k < rest.len() implies !(
        #[trigger] next.pending[j]).awaited.contains(answers_to(#[trigger] rest[k])) by {
            assert(rest[k] == answers[k + 1]);
            assert(next.pending[j] == state.pending[j]);
        }
        lemma_run_answers(next, i, calls.drop_first());
        let willing = q.willing + accepting(rest);
        if accepts(first) {
            assert(willing =~= p.willing + (seq![first.0] + accepting(rest)));
        }
        let (kept, last) = verdict(q, willing);
        assert(verdict(p, willing) == (kept, last));
        assert(replaced(next, i, kept).pending =~= replaced(state, i, kept).pending);
        let later = run(next, calls.drop_first()).1;
        let said = run(state, calls).1;
        assert forall|k: int| 0 <= k < said.len() - 1 implies #[trigger] said[k] == Seq::<
            (Peer, JsonView),
        >::empty() by {
            if k > 0 {
                assert(said[k] == later[k - 1]);
            }
        }
        assert(said[said.len() - 1] == later[later.len() - 1]);
    }
}

/// Who accepts is who answers so.
proof fn lemma_accepting(answers: Seq<(Peer, JsonView)>)
    ensures
        accepting(answers).len() <= answers.len(),
        accepting(answers).len() == 0 <==> forall|k: int|
            0 <= k < answers.len() ==> !accepts(#[trigger] answers[k]),
        accepting(answers).len() > 1 <==> exists|k: int, l: int|
            0 <= k < l < answers.len() && accepts(#[trigger] answers[k]) && accepts(
                #[trigger] answers[l],
            ),
        forall|k: int|
            0 <= k < answers.len() && accepts(#[trigger] answers[k]) && accepting(
                answers,
            ).len() == 1 ==> accepting(answers)[0] == answers[k].0,
    decreases answers.len(),
{
    if answers.len() > 0 {
        let rest = answers.drop_first();
        let found = accepting(rest);
        lemma_accepting(rest);
        assert forall|k: int| 0 <= k < rest.len() implies #[trigger] rest[k] == answers[k + 1] by {
        }
        if found.len() == 0 {
            assert forall|k: int| 1 <= k < answers.len() implies !accepts(
                #[trigger] answers[k],
            ) by {
                assert(rest[k - 1] == answers[k]);
            }
        } else {
            let k = choose|k: int| 0 <= k < rest.len() && accepts(#[trigger] rest[k]);
            assert(accepts(answers[k + 1]));
            if accepts(answers[0]) {
                assert(0 <= 0 < k + 1 < answers.len() && accepts(answers[0]) && accepts(
                    answers[k + 1],
                ));
            }
        }
        if found.len() > 1 {
            let (k, l) = choose|k: int, l: int|
                0 <= k < l < rest.len() && accepts(#[trigger] rest[k]) && accepts(
                    #[trigger] rest[l],
                );
            assert(accepts(answers[k + 1]) && accepts(answers[l + 1]));
        }
        if exists|k: int, l: int|
            0 <= k < l < answers.len() && accepts(#[trigger] answers[k]) && accepts(
                #[trigger] answers[l],
            ) {
            let (k, l) = choose|k: int, l: int|
                0 <= k < l < answers.len() && accepts(#[trigger] answers[k]) && accepts(
                    #[trigger] answers[l],
                );
            assert(accepts(rest[l - 1]));
            if k > 0 {
                assert(accepts(rest[k - 1]));
            }
        }
        if accepting(answers).len() == 1 {
            assert forall|k: int| 0 <= k < answers.len() && accepts(#[trigger] answers[k])
                implies accepting(answers)[0] == answers[k].0 by {
                if k > 0 {
                    assert(accepts(rest[k - 1]));
                    if accepts(answers[0]) {
                        assert(found.len() == 0);
                    }
                }
            }
        }
    }
}

/// What becomes of a request for editor context once all have answered: it is refused
/// where none accepts or more than one does, and handed to the one that does where there
/// is just one.
pub open spec fn is_agreed(
    p: PendingView,
    answers: Seq<(Peer, JsonView)>,
    kept: Option<PendingView>,
    sent: Seq<(Peer, JsonView)>,
) -> bool {
    &&& (forall|k: int| 0 <= k < answers.len() ==> !accepts(#[trigger] answers[k])) ==> {
        &&& kept is None
        &&& sent == seq![(p.source, error_view(p.request, "no-client-found"@))]
    }
    &&& (exists|k: int, l: int|
        0 <= k < l < answers.len() && accepts(#[trigger] answers[k]) && accepts(
            #[trigger] answers[l],
        )) ==> {
        &&& kept is None
        &&& sent == seq![(p.source, error_view(p.request, "ambiguous-ide-provider"@))]
    }
    &&& forall|k: int|
        0 <= k < answers.len() && accepts(#[trigger] answers[k]) && (forall|l: int|
            0 <= l < answers.len() && l != k ==> !accepts(#[trigger] answers[l])) ==> {
            &&& kept == Some(
                PendingView {
                    awaited: Seq::empty(),
                    willing: seq![answers[k].0],
                    target: Some(answers[k].0),
                    ..p
                },
            )
            &&& sent == seq![
                (answers[k].0, p.request.with("requestId"@, JsonView::Str(p.key))),
            ]
        }
}

/// A request for editor context waits until every provider has answered. In whatever
/// order they do, nothing is said to any answer but the last, and to that what they agree
/// on.
pub proof fn law_answers_agree(state: RouterView, i: int, calls: Seq<Call>)
    requires
        state.wf(),
        complete(state, i, letters(calls)),
        is_ide(state.pending[i].request),
        state.pending[i].target is None,
        state.pending[i].willing.len() == 0,
    ensures
        ({
            let p = state.pending[i];
            let kept = verdict(p, accepting(letters(calls))).0;
            let (end, said) = run(state, calls);
            &&& end == replaced(state, i, kept)
            &&& said.len() == calls.len() > 0
            &&& forall|k: int|
                0 <= k < said.len() - 1 ==> #[trigger] said[k] == Seq::<(Peer, JsonView)>::empty()
            &&& is_agreed(p, letters(calls), kept, said[said.len() - 1])
        }),
{
    let p = state.pending[i];
    let answers = letters(calls);
    assert(in_order(p, state.clients));
    lemma_run_answers(state, i, calls);
    lemma_accepting(answers);
    let willing = accepting(answers);
    assert(p.willing + willing =~= willing);
    if willing.len() == 1 {
        assert(willing =~= seq![willing[0]]);
    }
}

/// Whether a message is a request for editor context that a router offers to clients.
pub open spec fn is_offered(state: RouterView, call: Call) -> bool {
    let (peer, message) = call.letter;
    let request = stamped(state.clients, peer, message);
    &&& message.at("type"@) == JsonView::Str("request"@)
    &&& message.at("requestId"@) is Str
    &&& message.at("method"@) is Str
    &&& message.at("method"@) != JsonView::Str("initialize"@)
    &&& is_ide(request)
    &&& candidates(state.clients, peer, request).len() > 0
    &&& state.pending.len() < MAX_PENDING
    &&& call.ids.len() >= ids_needed(state, message)
}

/// The whole course of a request for editor context: it is offered to its candidates,
/// nothing is said to any answer but the last, and to that what the candidates agree on,
/// whichever order they answer in.
pub proof fn law_agreement(state: RouterView, request: Call, answers: Seq<Call>)
    requires
        state.wf(),
        is_offered(state, request),
        complete(
            taken(state, request).0,
            taken(state, request).0.pending.len() - 1,
            letters(answers),
        ),
    ensures
        ({
            let (peer, message) = request.letter;
            let stamp = stamped(state.clients, peer, message);
            let opened = taken(state, request).0;
            let i = opened.pending.len() - 1;
            let p = opened.pending[i];
            let kept = verdict(p, accepting(letters(answers))).0;
            let (end, said) = run(state, seq![request] + answers);
            &&& p.source == peer
            &&& p.request == stamp
            &&& said.len() == answers.len() + 1
            &&& said[0] == offers(candidates(state.clients, peer, stamp), stamp, request.ids)
            &&& forall|k: int|
                0 < k < answers.len() ==> #[trigger] said[k] == Seq::<(Peer, JsonView)>::empty()
            &&& is_agreed(p, letters(answers), kept, said[answers.len() as int])
            &&& end == replaced(opened, i, kept)
        }),
{
    let (peer, message) = request.letter;
    let (opened, first) = taken(state, request);
    let i = opened.pending.len() - 1;
    let calls = seq![request] + answers;
    law_messages_keep_invariant(state, peer, message, request.now, request.ids);
    law_answers_agree(opened, i, answers);
    assert(calls.drop_first() =~= answers);
    let later = run(opened, answers).1;
    let said = run(state, calls).1;
    assert(said == seq![first] + later);
    assert forall|k: int| 0 < k < answers.len() implies #[trigger] said[k] == Seq::<
        (Peer, JsonView),
    >::empty() by {
        assert(said[k] == later[k - 1]);
    }
}

/// An answer that no request awaits, under a wrong id or from the wrong peer, changes
/// nothing, and nothing is said to it.
pub proof fn law_unawaited_answers_are_dropped(state: RouterView, call: Call)
    requires
        is_answer(call.letter),
        call.letter.1.at("requestId"@) is Str ==> forall|i: int|
            0 <= i < state.pending.len() ==> !(
            #[trigger] state.pending[i]).awaited.contains(answers_to(call.letter)),
    ensures
        taken(state, call) == (state, Seq::<(Peer, JsonView)>::empty()),
{
    lemma_kinds();
    if call.letter.1.at("requestId"@) is Str {
        let (id, peer) = answers_to(call.letter);
        lemma_awaiting_found(state.pending, id, peer);
    }
}

/// While an answer to an offer of a request for editor context is outstanding, the
/// request is neither handed over nor answered.
pub proof fn law_no_hasty_choice(p: PendingView, id: Seq<char>, peer: Peer, yes: bool)
    requires
        is_ide(p.request),
        without_id(p.awaited, id).len() > 0,
    ensures
        answered(p, id, peer, yes).1 == Seq::<(Peer, JsonView)>::empty(),
        answered(p, id, peer, yes).0 matches Some(q) && q.target == p.target,
{
}

/// Any other request is handed to the first client that accepts it, under the
/// router's own key and otherwise as it came.
pub proof fn law_first_willing(state: RouterView, i: int, answer: (Peer, JsonView))
    requires
        state.wf(),
        0 <= i < state.pending.len(),
        !is_ide(state.pending[i].request),
        accepts(answer),
        answer.1.at("requestId"@) is Str,
        state.pending[i].awaited.contains(answers_to(answer)),
        forall|j: int|
            0 <= j < state.pending.len() && j != i ==> !(
            #[trigger] state.pending[j]).awaited.contains(answers_to(answer)),
    ensures
        ({
            let p = state.pending[i];
            let (next, sent) = answer_step(state, answer.0, answer.1);
            &&& sent == seq![(answer.0, p.request.with("requestId"@, JsonView::Str(p.key)))]
            &&& next.pending[i].target == Some(answer.0)
        }),
{
    let p = state.pending[i];
    assert(in_order(p, state.clients));
    assert(p.awaited.len() > 0);
    lemma_answer_at(state, i, answer);
}


/// No one gets another's identity: whoever has registered keeps the same id for as
/// long as the connection lasts.
pub proof fn law_identity_is_kept(
    state: RouterView,
    peer: Peer,
    message: JsonView,
    now: int,
    ids: Seq<Seq<char>>,
    client: Peer,
)
    requires
        registered(state.clients, client),
    ensures
        client_of(step(state, peer, message, now, ids).0.clients, client) == client_of(
            state.clients,
            client,
        ),
{
    lemma_registered(state.clients, client);
    let next = step(state, peer, message, now, ids).0;
    if next.clients.len() > state.clients.len() {
        lemma_client_of_push(state.clients, next.clients.last(), client);
    }
}

proof fn lemma_client_of_push(clients: Seq<ClientView>, client: ClientView, peer: Peer)
    ensures
        client_of(clients.push(client), peer) == match client_of(clients, peer) {
            Some(found) => Some(found),
            None => if client.peer == peer {
                Some(client)
            } else {
                None
            },
        },
    decreases clients.len(),
{
    let all = clients.push(client);
    if clients.len() == 0 {
        assert(all.drop_first() =~= Seq::empty());
        reveal_with_fuel(client_of, 2);
    } else {
        assert(all.drop_first() =~= clients.drop_first().push(client));
        lemma_client_of_push(clients.drop_first(), client, peer);
    }
}

/// Whether a message asks for registration.
pub open spec fn is_registration(message: JsonView) -> bool {
    &&& message.at("type"@) == JsonView::Str("request"@)
    &&& message.at("requestId"@) is Str
    &&& message.at("method"@) == JsonView::Str("initialize"@)
    &&& message.at("params"@).at("clientType"@) is Str
}

/// Registering makes a client, and registering again changes nothing and gives the
/// same id.
pub proof fn law_registration_is_idempotent(
    state: RouterView,
    peer: Peer,
    first: JsonView,
    second: JsonView,
    now: int,
    later: int,
    ids: Seq<Seq<char>>,
    more: Seq<Seq<char>>,
)
    requires
        is_registration(first),
        is_registration(second),
    ensures
        ({
            let (next, sent) = step(state, peer, first, now, ids);
            &&& client_of(next.clients, peer) matches Some(client) && {
                &&& sent.last() == (peer, registered_view(first, client.id))
                &&& step(next, peer, second, later, more) == (
                    next,
                    seq![(peer, registered_view(second, client.id))],
                )
            }
        }),
{
    let next = step(state, peer, first, now, ids).0;
    if client_of(state.clients, peer) is None {
        lemma_client_of_push(state.clients, next.clients.last(), peer);
    }
}

/// Only the peer that a request was handed to can answer it. What anyone else sends
/// as a response changes nothing and reaches no one.
pub proof fn law_only_the_target_responds(
    state: RouterView,
    peer: Peer,
    message: JsonView,
    now: int,
    ids: Seq<Seq<char>>,
)
    requires
        message.at("type"@) == JsonView::Str("response"@),
        forall|i: int|
            0 <= i < state.pending.len() ==> !((#[trigger] state.pending[i]).target == Some(peer)
                && message.at("requestId"@) == JsonView::Str(state.pending[i].key)),
    ensures
        step(state, peer, message, now, ids) == (state, Seq::<(Peer, JsonView)>::empty()),
{
    lemma_kinds();
    if let JsonView::Str(key) = message.at("requestId"@) {
        lemma_under_key_found(state.pending, key);
    }
}

/// The answer of the peer that a request was handed to goes to the one who asked, and
/// to no one else, under the id that the request came with; and the request is done.
pub proof fn law_responses_return(
    state: RouterView,
    i: int,
    peer: Peer,
    message: JsonView,
    now: int,
    ids: Seq<Seq<char>>,
)
    requires
        state.wf(),
        0 <= i < state.pending.len(),
        state.pending[i].target == Some(peer),
        message.at("type"@) == JsonView::Str("response"@),
        message.at("requestId"@) == JsonView::Str(state.pending[i].key),
    ensures
        ({
            let p = state.pending[i];
            let (next, sent) = step(state, peer, message, now, ids);
            &&& next == replaced(state, i, None)
            &&& sent == seq![(p.source, returned(state.clients, peer, p.request, message))]
            &&& sent[0].1.at("requestId"@) == p.request.at("requestId"@)
            &&& forall|name: Seq<char>|
                name != "requestId"@ && name != "handledByClientId"@ ==> #[trigger] sent[0].1.at(
                    name,
                ) == message.at(name)
        }),
{
    lemma_kinds();
    lemma_member_names();
    lemma_under_key_found(state.pending, state.pending[i].key);
    let at = under_key(state.pending, state.pending[i].key)->Some_0;
    assert(at == i) by {
        assert(state.pending[at].key == state.pending[i].key);
    }
    assert(message is Object);
}

/// What is passed on bears the true id of the client that sent it, whatever it
/// claimed.
pub proof fn law_source_is_true(
    state: RouterView,
    peer: Peer,
    message: JsonView,
    now: int,
    ids: Seq<Seq<char>>,
    client: ClientView,
)
    requires
        client_of(state.clients, peer) == Some(client),
    ensures
        ({
            let sent = step(state, peer, message, now, ids).1;
            &&& message.at("type"@) == JsonView::Str("broadcast"@) ==> forall|i: int|
                0 <= i < sent.len() ==> (#[trigger] sent[i]).1.at("sourceClientId"@)
                    == JsonView::Str(client.id)
            &&& message.at("type"@) == JsonView::Str("request"@) && message.at("method"@)
                != JsonView::Str("initialize"@) ==> forall|i: int|
                0 <= i < sent.len() && (#[trigger] sent[i]).0 != peer ==> sent[i].1.at(
                    "request"@,
                ).at("sourceClientId"@) == JsonView::Str(client.id)
        }),
{
    lemma_kinds();
    let sent = step(state, peer, message, now, ids).1;
    let request = stamped(state.clients, peer, message);
    if message is Object {
        assert(request.at("sourceClientId"@) == JsonView::Str(client.id));
    }
}

/// A broadcast reaches just the other clients that it is meant for.
pub proof fn law_broadcasts_reach_the_listed(
    state: RouterView,
    peer: Peer,
    message: JsonView,
    now: int,
    ids: Seq<Seq<char>>,
    client: ClientView,
)
    requires
        message.at("type"@) == JsonView::Str("broadcast"@),
    ensures
        ({
            let told = stamped(state.clients, peer, message);
            let (next, sent) = step(state, peer, message, now, ids);
            &&& next == state
            &&& state.clients.contains(client) && client.peer != peer && listed(told, client)
                ==> sent.contains((client.peer, told))
            &&& forall|i: int|
                0 <= i < sent.len() ==> (#[trigger] sent[i]).1 == told && sent[i].0 != peer
                    && exists|c: ClientView|
                    #![trigger state.clients.contains(c)]
                    state.clients.contains(c) && c.peer == sent[i].0 && listed(told, c)
        }),
{
    lemma_kinds();
    let told = stamped(state.clients, peer, message);
    let keep = |c: ClientView| c.peer != peer && listed(told, c);
    let reached = state.clients.filter(keep);
    let sent = step(state, peer, message, now, ids).1;
    lemma_filter_members(state.clients, keep);
    assert(sent == to_each(reached, told));
    if state.clients.contains(client) && client.peer != peer && listed(told, client) {
        assert(reached.contains(client));
        let i = reached.index_of(client);
        assert(sent[i] == (client.peer, told));
    }
    assert forall|i: int| 0 <= i < sent.len() implies (#[trigger] sent[i]).1 == told && sent[i].0
        != peer && exists|c: ClientView|
        #![trigger state.clients.contains(c)]
        state.clients.contains(c) && c.peer == sent[i].0 && listed(told, c) by {
        assert(reached.contains(reached[i]));
        assert(state.clients.contains(reached[i]));
    }
}

/// A request is offered to no one but other clients, and where it names the one that
/// it is meant for, to no one else.
pub proof fn law_offers_go_to_candidates(
    state: RouterView,
    peer: Peer,
    message: JsonView,
    now: int,
    ids: Seq<Seq<char>>,
)
    requires
        message.at("type"@) == JsonView::Str("request"@),
        message.at("method"@) != JsonView::Str("initialize"@),
    ensures
        ({
            let sent = step(state, peer, message, now, ids).1;
            forall|i: int|
                0 <= i < sent.len() && (#[trigger] sent[i]).0 != peer ==> exists|c: ClientView|
                    #![trigger state.clients.contains(c)]
                    state.clients.contains(c) && c.peer == sent[i].0 && addressed(
                        stamped(state.clients, peer, message),
                        c,
                    )
        }),
{
    lemma_kinds();
    let sent = step(state, peer, message, now, ids).1;
    let request = stamped(state.clients, peer, message);
    let keep = |c: ClientView| c.peer != peer && addressed(request, c);
    let found = state.clients.filter(keep);
    lemma_filter_members(state.clients, keep);
    assert forall|i: int| 0 <= i < sent.len() && (#[trigger] sent[i]).0 != peer implies exists|
        c: ClientView,
    |
        #![trigger state.clients.contains(c)]
        state.clients.contains(c) && c.peer == sent[i].0 && addressed(request, c) by {
        assert(found == candidates(state.clients, peer, request));
        assert(found.contains(found[i]));
        assert(state.clients.contains(found[i]));
    }
}

/// At the limit no request is taken: it is refused at once, and nothing changes.
pub proof fn law_busy(
    state: RouterView,
    peer: Peer,
    message: JsonView,
    now: int,
    ids: Seq<Seq<char>>,
)
    requires
        state.pending.len() >= MAX_PENDING,
        message.at("type"@) == JsonView::Str("request"@),
        message.at("requestId"@) is Str,
        message.at("method"@) is Str,
        message.at("method"@) != JsonView::Str("initialize"@),
    ensures
        step(state, peer, message, now, ids) == (
            state,
            seq![(peer, error_view(message, "router-busy"@))],
        ),
{
}

/// Whether a request is still under way in a router.
pub open spec fn under_way(state: RouterView, p: PendingView) -> bool {
    exists|i: int|
        0 <= i < state.pending.len() && (#[trigger] state.pending[i]).key == p.key
            && state.pending[i].source == p.source && state.pending[i].request == p.request
            && state.pending[i].deadline == p.deadline
}

/// Whether the one who made a request is sent an answer to it.
pub open spec fn is_answered(sent: Seq<(Peer, JsonView)>, p: PendingView) -> bool {
    exists|i: int|
        0 <= i < sent.len() && (#[trigger] sent[i]).0 == p.source && sent[i].1.at("requestId"@)
            == p.request.at("requestId"@)
}

/// No request is lost: whatever message comes, a request is under way as it was or is
/// answered, provided that the router's keys are new.
pub proof fn law_no_request_is_lost(
    state: RouterView,
    peer: Peer,
    message: JsonView,
    now: int,
    ids: Seq<Seq<char>>,
    i: int,
)
    requires
        0 <= i < state.pending.len(),
        ids.len() >= ids_needed(state, message),
        forall|k: int, j: int|
            0 <= k < ids.len() && 0 <= j < state.pending.len() ==> (
            #[trigger] state.pending[j]).key != #[trigger] ids[k],
    ensures
        ({
            let (next, sent) = step(state, peer, message, now, ids);
            under_way(next, state.pending[i]) || is_answered(sent, state.pending[i])
        }),
{
    lemma_kinds();
    lemma_member_names();
    let p = state.pending[i];
    let (next, sent) = step(state, peer, message, now, ids);
    let kind = message.at("type"@);
    if next.pending == state.pending {
        assert(next.pending[i].key == p.key);
    } else if kind == JsonView::Str("request"@) {
        let request = stamped(state.clients, peer, message);
        let keep = |c: ClientView| c.peer != peer && addressed(request, c);
        lemma_filter_members(state.clients, keep);
        let found = candidates(state.clients, peer, request);
        let key = ids[found.len() as int];
        let other = |p: PendingView| p.key != key;
        lemma_filter_members(state.pending, other);
        let left = without_key(state.pending, key);
        assert(state.pending.contains(p));
        assert(p.key != key);
        assert(left.contains(p));
        let at = left.index_of(p);
        assert(next.pending[at] == p);
    } else if kind == JsonView::Str("client-discovery-response"@) {
        let id = message.at("requestId"@)->Str_0;
        lemma_awaiting_found(state.pending, id, peer);
        let at = awaiting(state.pending, id, peer)->Some_0;
        let q = state.pending[at];
        lemma_refusal_id(q.request, "no-client-found"@);
        lemma_refusal_id(q.request, "ambiguous-ide-provider"@);
        if next.pending.len() == state.pending.len() {
            assert(next.pending[i].key == p.key);
        } else if i == at {
            assert(sent[0].0 == p.source);
        } else {
            let j = if i < at {
                i
            } else {
                i - 1
            };
            assert(next.pending[j] == p);
        }
    } else {
        let key = message.at("requestId"@)->Str_0;
        lemma_under_key_found(state.pending, key);
        let at = under_key(state.pending, key)->Some_0;
        if i == at {
            assert(sent[0].0 == p.source);
        } else {
            let j = if i < at {
                i
            } else {
                i - 1
            };
            assert(next.pending[j] == p);
        }
    }
}

/// Once a connection has ended, its client is gone and no request waits for it or was
/// made by it. Those who waited for it are told; all other requests stay as they are.
pub proof fn law_disconnect_leaves_nothing(state: RouterView, peer: Peer, i: int)
    requires
        0 <= i < state.pending.len(),
    ensures
        ({
            let p = state.pending[i];
            let (next, sent) = disconnect_step(state, peer);
            &&& !registered(next.clients, peer)
            &&& forall|j: int|
                0 <= j < next.pending.len() ==> (#[trigger] next.pending[j]).source != peer
                    && !involves(next.pending[j], peer)
            &&& p.source != peer && !involves(p, peer) ==> under_way(next, p)
            &&& p.source != peer && involves(p, peer) ==> is_answered(sent, p) && sent.contains(
                (p.source, error_view(p.request, "client-disconnected"@)),
            )
        }),
{
    let p = state.pending[i];
    let (next, sent) = disconnect_step(state, peer);
    let stays = |c: ClientView| c.peer != peer;
    let keep = |p: PendingView| p.source != peer && !involves(p, peer);
    let fail = |p: PendingView| p.source != peer && involves(p, peer);
    let failed = state.pending.filter(fail);
    lemma_filter_members(state.clients, stays);
    lemma_filter_members(state.pending, keep);
    lemma_filter_members(state.pending, fail);
    assert(state.pending.contains(p));
    assert forall|j: int| 0 <= j < next.clients.len() implies (#[trigger] next.clients[j]).peer
        != peer by {
        assert(next.clients.contains(next.clients[j]));
    }
    assert forall|j: int| 0 <= j < next.pending.len() implies (#[trigger] next.pending[j]).source
        != peer && !involves(next.pending[j], peer) by {
        assert(next.pending.contains(next.pending[j]));
    }
    if keep(p) {
        assert(next.pending.contains(p));
        let at = next.pending.index_of(p);
        assert(next.pending[at] == p);
    }
    if fail(p) {
        assert(failed.contains(p));
        let at = failed.index_of(p);
        let told = status_mail(state.clients, peer, "disconnected"@);
        lemma_refusal_id(p.request, "client-disconnected"@);
        assert(sent[told.len() + at] == (
            p.source,
            error_view(p.request, "client-disconnected"@),
        ));
    }
}

/// After the time has been told, no request is overdue. Those who made one that was
/// are told; all other requests stay as they are.
pub proof fn law_expire_leaves_nothing_overdue(state: RouterView, now: int, i: int)
    requires
        0 <= i < state.pending.len(),
    ensures
        ({
            let p = state.pending[i];
            let (next, sent) = expire_step(state, now);
            &&& forall|j: int|
                0 <= j < next.pending.len() ==> (#[trigger] next.pending[j]).deadline > now
            &&& p.deadline > now ==> under_way(next, p)
            &&& p.deadline <= now ==> is_answered(sent, p) && sent.contains(
                (p.source, error_view(p.request, "request-timeout"@)),
            )
        }),
{
    let p = state.pending[i];
    let (next, sent) = expire_step(state, now);
    let keep = |p: PendingView| p.deadline > now;
    let fail = |p: PendingView| p.deadline <= now;
    let failed = state.pending.filter(fail);
    lemma_filter_members(state.pending, keep);
    lemma_filter_members(state.pending, fail);
    assert(state.pending.contains(p));
    assert forall|j: int| 0 <= j < next.pending.len() implies (#[trigger] next.pending[j]).deadline
        > now by {
        assert(next.pending.contains(next.pending[j]));
    }
    if keep(p) {
        assert(next.pending.contains(p));
        let at = next.pending.index_of(p);
        assert(next.pending[at] == p);
    } else {
        assert(failed.contains(p));
        let at = failed.index_of(p);
        lemma_refusal_id(p.request, "request-timeout"@);
        assert(sent[at] == (p.source, error_view(p.request, "request-timeout"@)));
    }
}

/// However long a request may take to answer, it is not kept beyond a minute: four
/// seconds for editor context, and between a millisecond and a minute for others.
pub proof fn law_deadlines_are_bounded(request: JsonView)
    ensures
        is_ide(request) ==> budget(request) == 4_000,
        1 <= budget(request) <= 60_000,
{
}


/// A request for anything but editor context waits on while a client that refuses is not
/// the last to answer, and is refused where it is.
pub proof fn law_refused_by_all(state: RouterView, i: int, answer: (Peer, JsonView))
    requires
        state.wf(),
        0 <= i < state.pending.len(),
        state.pending[i].request.at("method"@) != JsonView::Str("ide-context"@),
        state.pending[i].target is None,
        is_answer(answer),
        !accepts(answer),
        answer.1.at("requestId"@) is Str,
        state.pending[i].awaited.contains(answers_to(answer)),
        forall|j: int|
            0 <= j < state.pending.len() && j != i ==> !(
            #[trigger] state.pending[j]).awaited.contains(answers_to(answer)),
    ensures
        ({
            let p = state.pending[i];
            let (next, sent) = answer_step(state, answer.0, answer.1);
            &&& p.awaited.len() == 1 ==> {
                &&& next == replaced(state, i, None)
                &&& sent == seq![(p.source, error_view(p.request, "no-client-found"@))]
            }
            &&& p.awaited.len() > 1 ==> {
                &&& sent.len() == 0
                &&& next.pending.len() == state.pending.len()
                &&& next.pending[i].awaited.len() == p.awaited.len() - 1
                &&& next.pending[i].request == p.request && next.pending[i].source == p.source
                &&& next.pending[i].target is None
            }
        }),
{
    let p = state.pending[i];
    assert(in_order(p, state.clients));
    lemma_answer_at(state, i, answer);
    lemma_without_one(p.awaited, answers_to(answer).0, answer.0);
}

} // verus!
