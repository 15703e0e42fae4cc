//! What holds where several processes hold elections for one home directory at a time.
use crate::election::{
    decide, fits, opened, ActionView, ElectionView, ReplyView, Stage, PRIVATE_DIRECTORY,
};
use crate::election_laws::{needs_lock, needs_socket};
use crate::unix::{endpoint_path, IdentityView};
use vstd::prelude::*;

verus! {

/// A process that holds an election.
pub struct Contender {
    pub election: ElectionView,
    /// What the election says to do next.
    pub action: ActionView,
    /// Whether the process serves the router.
    pub serving: bool,
}

/// Elections for one home directory, with what they share: the lock and the socket.
pub struct Contest {
    pub contenders: Seq<Contender>,
    /// Who has the lock.
    pub holder: Option<int>,
    /// Who listens at the socket that the endpoint's path names.
    pub listener: Option<int>,
}

/// What can happen in a contest.
pub enum Move {
    /// A process opens an election, for a directory of earlier endpoints and a user.
    Enter(Seq<u8>, u32),
    /// A process takes what came of its action.
    Step(int, ReplyView),
    /// A process stops serving. Its socket is closed, and removed if it is still its own.
    Retire(int),
}

/// A contest that no one has entered.
pub open spec fn empty_contest() -> Contest {
    Contest { contenders: Seq::empty(), holder: None, listener: None }
}

/// What can happen, as the system has it: the lock is given to one process at a time, a
/// socket can be bound only where no one listens, and a connection to a socket at which a
/// process listens is not refused.
pub open spec fn is_possible(contest: Contest, home: Seq<u8>, next: Move) -> bool {
    match next {
        Move::Enter(..) => true,
        Move::Step(i, reply) => {
            &&& 0 <= i < contest.contenders.len()
            &&& fits(contest.contenders[i].election.stage, reply)
            &&& match contest.contenders[i].action {
                ActionView::Lock => reply is Done ==> contest.holder is None,
                ActionView::Bind(_) => reply is Done ==> contest.listener is None,
                ActionView::Connect(path) => path == endpoint_path(home) && contest.listener
                    is Some ==> !(reply is Refused),
                _ => true,
            }
        },
        Move::Retire(i) => 0 <= i < contest.contenders.len() && contest.contenders[i].serving,
    }
}

/// What a process does that takes what came of its action. Who is done lets go of the
/// lock, and who fails closes what it has bound.
pub open spec fn stepped(contest: Contest, i: int, reply: ReplyView) -> Contest {
    let before = contest.contenders[i];
    let (election, action) = decide(before.election, reply);
    Contest {
        contenders: contest.contenders.update(
            i,
            Contender { election, action, serving: action is Serve },
        ),
        holder: if before.action is Lock && reply is Done {
            Some(i)
        } else if election.stage is Ended && contest.holder == Some(i) {
            None
        } else {
            contest.holder
        },
        listener: if before.action is Bind && reply is Done {
            Some(i)
        } else if before.action is Remove && reply is Done {
            None
        } else if action is Fail && contest.listener == Some(i) {
            None
        } else {
            contest.listener
        },
    }
}

/// What becomes of a contest.
pub open spec fn moved(contest: Contest, home: Seq<u8>, next: Move) -> Contest {
    match next {
        Move::Enter(legacy_directory, user) => {
            let election = opened(home, legacy_directory, user);
            Contest {
                contenders: contest.contenders.push(
                    Contender {
                        election,
                        action: ActionView::Create(election.directory, PRIVATE_DIRECTORY),
                        serving: false,
                    },
                ),
                ..contest
            }
        },
        Move::Step(i, reply) => stepped(contest, i, reply),
        Move::Retire(i) => Contest {
            contenders: contest.contenders.update(
                i,
                Contender { serving: false, ..contest.contenders[i] },
            ),
            listener: if contest.listener == Some(i) {
                None
            } else {
                contest.listener
            },
            ..contest
        },
    }
}

/// A contest after several moves.
pub open spec fn contested(home: Seq<u8>, moves: Seq<Move>) -> Contest
    decreases moves.len(),
{
    if moves.len() == 0 {
        empty_contest()
    } else {
        moved(contested(home, moves.drop_last()), home, moves.last())
    }
}

/// Whether each of several moves is possible where it is made.
pub open spec fn are_possible(home: Seq<u8>, moves: Seq<Move>) -> bool
    decreases moves.len(),
{
    moves.len() > 0 ==> {
        &&& are_possible(home, moves.drop_last())
        &&& is_possible(contested(home, moves.drop_last()), home, moves.last())
    }
}

/// Whether a process found the socket stale, and is about to remove it.
pub open spec fn is_replacing(stage: Stage) -> bool {
    stage is NewDirectory || stage is NewSocket || stage is Removing
}

/// What each process in a contest can rely on: only who has the lock goes as far as to
/// remove and bind, who has bound the socket still listens at it, and no one listens at a
/// socket that is about to be removed.
pub open spec fn in_order(contest: Contest, home: Seq<u8>, i: int) -> bool {
    let contender = contest.contenders[i];
    let stage = contender.election.stage;
    let path = endpoint_path(home);
    &&& contender.election.path == path
    &&& stage is Locking <==> contender.action is Lock
    &&& stage is Binding ==> contender.action == ActionView::Bind(path)
    &&& contender.action is Bind ==> stage is Binding
    &&& contender.action is Remove ==> stage is Removing
    &&& stage is OldConnect ==> contender.action == ActionView::Connect(path)
    &&& needs_lock(stage) ==> contest.holder == Some(i)
    &&& needs_socket(stage) || contender.serving ==> contest.listener == Some(i)
    &&& is_replacing(stage) ==> contest.listener is None
    &&& contender.serving ==> stage is Ended
}

/// A step keeps a contest in order.
proof fn lemma_step_keeps_order(contest: Contest, home: Seq<u8>, i: int, reply: ReplyView, j: int)
    requires
        is_possible(contest, home, Move::Step(i, reply)),
        0 <= j < contest.contenders.len(),
        in_order(contest, home, i),
        in_order(contest, home, j),
    ensures
        in_order(stepped(contest, i, reply), home, j),
{
    let before = contest.contenders[i];
    let after = stepped(contest, i, reply);
    let next = after.contenders[i];
    assert(next.election.path == before.election.path);
    if i == j {
        assert(needs_lock(next.election.stage) ==> needs_lock(before.election.stage)
            || before.election.stage is Locking);
        assert(needs_socket(next.election.stage) ==> needs_socket(before.election.stage)
            || before.election.stage is Binding);
        assert(next.serving ==> needs_socket(before.election.stage));
    } else {
        assert(after.contenders[j] == contest.contenders[j]);
    }
}

/// Whatever happens, every process in a contest is in order.
pub proof fn law_contest_keeps_order(home: Seq<u8>, moves: Seq<Move>, j: int)
    requires
        are_possible(home, moves),
        0 <= j < contested(home, moves).contenders.len(),
    ensures
        in_order(contested(home, moves), home, j),
    decreases moves.len(),
{
    let before = contested(home, moves.drop_last());
    match moves.last() {
        Move::Enter(..) => {
            if j < before.contenders.len() {
                law_contest_keeps_order(home, moves.drop_last(), j);
            }
        },
        Move::Step(i, reply) => {
            law_contest_keeps_order(home, moves.drop_last(), i);
            law_contest_keeps_order(home, moves.drop_last(), j);
            lemma_step_keeps_order(before, home, i, reply, j);
        },
        Move::Retire(i) => {
            law_contest_keeps_order(home, moves.drop_last(), i);
            law_contest_keeps_order(home, moves.drop_last(), j);
        },
    }
}

/// However many processes hold elections for one home directory, and however their steps
/// fall together, at most one serves the router at a time.
pub proof fn law_one_owner(home: Seq<u8>, moves: Seq<Move>, i: int, j: int)
    requires
        are_possible(home, moves),
        0 <= i < contested(home, moves).contenders.len(),
        0 <= j < contested(home, moves).contenders.len(),
        contested(home, moves).contenders[i].serving,
        contested(home, moves).contenders[j].serving,
    ensures
        i == j,
{
    law_contest_keeps_order(home, moves, i);
    law_contest_keeps_order(home, moves, j);
}

/// No process is told to remove the socket at which another one listens, and who serves
/// the router listens at the socket that clients find.
pub proof fn law_live_sockets_stay(home: Seq<u8>, moves: Seq<Move>, i: int)
    requires
        are_possible(home, moves),
        0 <= i < contested(home, moves).contenders.len(),
    ensures
        contested(home, moves).contenders[i].action is Remove ==> contested(home, moves).listener
            is None,
        contested(home, moves).contenders[i].serving ==> contested(home, moves).listener == Some(
            i,
        ),
{
    law_contest_keeps_order(home, moves, i);
}

/// Whether a move is made where no other router is about and nothing fails but for the
/// lock: no one stops serving, who is reached or has the socket is one of the processes
/// here, the lock is refused only while one of them has it, no other failure ends an
/// election, and the socket at which process `l` listens is seen to be `sockets(l)`.
pub open spec fn is_undisturbed(
    contest: Contest,
    home: Seq<u8>,
    sockets: spec_fn(int) -> (u64, u64),
    next: Move,
) -> bool {
    match next {
        Move::Enter(..) => true,
        Move::Retire(_) => false,
        Move::Step(i, reply) => {
            let contender = contest.contenders[i];
            let path = endpoint_path(home);
            &&& reply is Connected ==> contest.listener is Some && contender.action
                == ActionView::Connect(path)
            &&& reply is Taken ==> contest.listener is Some
            &&& contender.action is Lock && !(reply is Done) ==> contest.holder is Some
            &&& decide(contender.election, reply).1 is Fail ==> contender.action is Lock
            &&& contender.action == ActionView::Inspect(path) ==> match (contest.listener, reply) {
                (Some(l), ReplyView::Found(found)) => (found.device, found.inode) == sockets(l),
                _ => true,
            }
        },
    }
}

/// Whether each of several moves is undisturbed where it is made.
pub open spec fn are_undisturbed(
    home: Seq<u8>,
    sockets: spec_fn(int) -> (u64, u64),
    moves: Seq<Move>,
) -> bool
    decreases moves.len(),
{
    moves.len() > 0 ==> {
        &&& are_undisturbed(home, sockets, moves.drop_last())
        &&& is_undisturbed(contested(home, moves.drop_last()), home, sockets, moves.last())
    }
}

/// The identity of the socket at which a process listens.
pub open spec fn socket_of(
    home: Seq<u8>,
    sockets: spec_fn(int) -> (u64, u64),
    l: int,
) -> IdentityView {
    IdentityView { path: endpoint_path(home), device: sockets(l).0, inode: sockets(l).1 }
}

/// What else holds of a process in an undisturbed contest: a connection that was made leads
/// to the listener's socket, and so does one that is in use.
spec fn is_connected(
    contest: Contest,
    home: Seq<u8>,
    sockets: spec_fn(int) -> (u64, u64),
    i: int,
) -> bool {
    let e = contest.contenders[i].election;
    let action = contest.contenders[i].action;
    let path = endpoint_path(home);
    &&& e.wf()
    &&& match e.stage {
        Stage::JoinConnect(purpose, _, _) => action == ActionView::Connect(e.target(purpose)),
        Stage::JoinConfirm(purpose, _, _) => {
            &&& contest.listener is Some
            &&& e.target(purpose) == path
            &&& action == ActionView::Inspect(path)
        },
        Stage::OldSocket => action == ActionView::Inspect(path),
        Stage::OldConnect(device, inode) => contest.listener matches Some(l) ==> (
        device,
        inode,
        ) == sockets(l),
        Stage::Ended => {
            &&& action is Join || action is Serve || action is Fail
            &&& action is Serve <==> contest.contenders[i].serving
            &&& contest.holder is Some || contest.listener is Some
            &&& action matches ActionView::Join(identity) ==> (contest.listener matches Some(l)
                && identity == socket_of(home, sockets, l))
            &&& action matches ActionView::Serve(_, identity) ==> identity == socket_of(
                home,
                sockets,
                i,
            )
        },
        _ => true,
    }
}

/// What holds of the lock and the socket in an undisturbed contest: who has the lock still
/// needs it, and who listens serves or is about to.
spec fn is_accounted(contest: Contest) -> bool {
    &&& contest.holder matches Some(h) ==> 0 <= h < contest.contenders.len() && needs_lock(
        contest.contenders[h].election.stage,
    )
    &&& contest.listener matches Some(l) ==> 0 <= l < contest.contenders.len() && (needs_socket(
        contest.contenders[l].election.stage,
    ) || contest.contenders[l].serving)
}

proof fn lemma_undisturbed_step(
    contest: Contest,
    home: Seq<u8>,
    sockets: spec_fn(int) -> (u64, u64),
    i: int,
    reply: ReplyView,
)
    requires
        is_possible(contest, home, Move::Step(i, reply)),
        is_undisturbed(contest, home, sockets, Move::Step(i, reply)),
        is_accounted(contest),
        forall|j: int| 0 <= j < contest.contenders.len() ==> #[trigger] in_order(contest, home, j),
        forall|j: int|
            0 <= j < contest.contenders.len() ==> #[trigger] is_connected(
                contest,
                home,
                sockets,
                j,
            ),
    ensures
        is_accounted(stepped(contest, i, reply)),
        forall|j: int|
            0 <= j < contest.contenders.len() ==> #[trigger] is_connected(
                stepped(contest, i, reply),
                home,
                sockets,
                j,
            ),
{
    let after = stepped(contest, i, reply);
    let before = contest.contenders[i];
    let next = after.contenders[i];
    assert(in_order(contest, home, i));
    assert(is_connected(contest, home, sockets, i));
    // Who fails has no socket, and who removes one found that no one listens at it.
    assert(contest.listener is Some ==> after.listener == contest.listener);
    assert(after.listener is Some && contest.listener is None ==> before.election.stage is Binding);
    if contest.holder is Some && after.holder is None {
        assert(after.listener is Some);
    }
    assert forall|j: int| 0 <= j < contest.contenders.len() implies #[trigger] is_connected(
        after,
        home,
        sockets,
        j,
    ) by {
        assert(in_order(contest, home, j));
        assert(is_connected(contest, home, sockets, j));
    }
}

/// Whatever happens in an undisturbed contest, all this holds.
proof fn lemma_undisturbed(
    home: Seq<u8>,
    sockets: spec_fn(int) -> (u64, u64),
    moves: Seq<Move>,
)
    requires
        are_possible(home, moves),
        are_undisturbed(home, sockets, moves),
    ensures
        is_accounted(contested(home, moves)),
        forall|j: int|
            0 <= j < contested(home, moves).contenders.len() ==> #[trigger] is_connected(
                contested(home, moves),
                home,
                sockets,
                j,
            ),
    decreases moves.len(),
{
    if moves.len() > 0 {
        let before = contested(home, moves.drop_last());
        let after = contested(home, moves);
        lemma_undisturbed(home, sockets, moves.drop_last());
        assert forall|j: int| 0 <= j < before.contenders.len() implies #[trigger] in_order(
            before,
            home,
            j,
        ) by {
            law_contest_keeps_order(home, moves.drop_last(), j);
        }
        match moves.last() {
            Move::Enter(..) => {
                assert forall|j: int| 0 <= j < after.contenders.len() implies
                    #[trigger] is_connected(after, home, sockets, j) by {
                    if j < before.contenders.len() {
                        assert(is_connected(before, home, sockets, j));
                    }
                }
            },
            Move::Step(i, reply) => lemma_undisturbed_step(before, home, sockets, i, reply),
            Move::Retire(_) => {},
        }
    }
}

/// Where processes hold elections for one home directory, no other router is about, and
/// elections fail only for the lock that another one of them has: once all have ended,
/// exactly one process serves the router, and every other that did not fail is connected
/// to its socket. A process that failed may try again: that is an election more.
pub proof fn law_exactly_one_owner(
    home: Seq<u8>,
    sockets: spec_fn(int) -> (u64, u64),
    moves: Seq<Move>,
)
    requires
        are_possible(home, moves),
        are_undisturbed(home, sockets, moves),
        contested(home, moves).contenders.len() > 0,
        forall|i: int|
            0 <= i < contested(home, moves).contenders.len() ==> (
            #[trigger] contested(home, moves).contenders[i]).election.stage is Ended,
    ensures
        ({
            let contenders = contested(home, moves).contenders;
            exists|owner: int|
                #![trigger contenders[owner]]
                {
                    &&& 0 <= owner < contenders.len()
                    &&& contenders[owner].serving
                    &&& contenders[owner].action matches ActionView::Serve(_, joined) && joined
                        == socket_of(home, sockets, owner)
                    &&& forall|i: int|
                        0 <= i < contenders.len() && i != owner ==> !(
                        #[trigger] contenders[i]).serving && (contenders[i].action is Fail
                            || contenders[i].action == ActionView::Join(
                            socket_of(home, sockets, owner),
                        ))
                }
        }),
{
    let contest = contested(home, moves);
    let contenders = contest.contenders;
    lemma_undisturbed(home, sockets, moves);
    assert(is_connected(contest, home, sockets, 0));
    assert(contenders[0].election.stage is Ended);
    assert(contest.holder is None);
    let owner = contest.listener->Some_0;
    assert(contenders[owner].election.stage is Ended);
    assert(is_connected(contest, home, sockets, owner));
    assert forall|i: int| 0 <= i < contenders.len() && i != owner implies !(
    #[trigger] contenders[i]).serving && (contenders[i].action is Fail || contenders[i].action
        == ActionView::Join(socket_of(home, sockets, owner))) by {
        assert(is_connected(contest, home, sockets, i));
        law_contest_keeps_order(home, moves, i);
    }
}

} // verus!
