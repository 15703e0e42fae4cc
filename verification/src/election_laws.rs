//! What holds of every election, whatever comes of what it does.
use crate::election::{
    action_at, decide, elected, opened, ActionView, ElectionView, Purpose, ReplyView, Stage,
};
use crate::unix::{endpoint_path, is_trusted_directory, is_trusted_socket, FileFacts, IdentityView};
use vstd::prelude::*;

verus! {

/// Replies do not change what an election is about.
proof fn lemma_constants(start: ElectionView, replies: Seq<ReplyView>)
    ensures
        ({
            let e = elected(start, replies).0;
            &&& e.path == start.path
            &&& e.directory == start.directory
            &&& e.lock == start.lock
            &&& e.legacy == start.legacy
            &&& e.legacy_directory == start.legacy_directory
            &&& e.user == start.user
        }),
    decreases replies.len(),
{
    if replies.len() > 0 {
        lemma_constants(start, replies.drop_last());
    }
}

/// The last step of an election.
proof fn lemma_last_step(start: ElectionView, replies: Seq<ReplyView>, n: int)
    requires
        0 < n <= replies.len(),
    ensures
        elected(start, replies.take(n)) == decide(
            elected(start, replies.take(n - 1)).0,
            replies[n - 1],
        ),
{
    assert(replies.take(n).drop_last() =~= replies.take(n - 1));
}

/// A socket is removed only once its connection was refused, and only while it is
/// still the same: just before that, a trusted socket was found at the path, the
/// connection to it was refused, and a trusted socket with the same device and inode
/// was found again. Nothing else that may come of a connection leads there.
pub proof fn law_removal_needs_proof(
    home: Seq<u8>,
    legacy_directory: Seq<u8>,
    user: u32,
    replies: Seq<ReplyView>,
    path: Seq<u8>,
)
    requires
        elected(opened(home, legacy_directory, user), replies).1 == ActionView::Remove(path),
    ensures
        ({
            let start = opened(home, legacy_directory, user);
            let n = replies.len() as int;
            &&& n >= 4
            &&& path == start.path
            &&& action_at(start, replies, n - 4) == ActionView::Inspect(path)
            &&& action_at(start, replies, n - 3) == ActionView::Connect(path)
            &&& replies[n - 3] is Refused
            &&& action_at(start, replies, n - 1) == ActionView::Inspect(path)
            &&& replies[n - 4] matches ReplyView::Found(old) && {
                &&& is_trusted_socket(old, user)
                &&& replies[n - 1] matches ReplyView::Found(new) && {
                    &&& is_trusted_socket(new, user)
                    &&& new.device == old.device
                    &&& new.inode == old.inode
                }
            }
        }),
{
    let start = opened(home, legacy_directory, user);
    let n = replies.len() as int;
    assert(replies.take(n) =~= replies);
    lemma_last_step(start, replies, n);
    lemma_constants(start, replies.take(n - 1));
    assert(elected(start, replies.take(n - 1)).0.stage is NewSocket);
    if n == 1 {
        assert(replies.take(0) =~= Seq::empty());
    }
    lemma_last_step(start, replies, n - 1);
    lemma_constants(start, replies.take(n - 2));
    assert(elected(start, replies.take(n - 2)).0.stage is NewDirectory);
    if n == 2 {
        assert(replies.take(0) =~= Seq::empty());
    }
    lemma_last_step(start, replies, n - 2);
    lemma_constants(start, replies.take(n - 3));
    assert(elected(start, replies.take(n - 3)).0.stage is OldConnect);
    if n == 3 {
        assert(replies.take(0) =~= Seq::empty());
    }
    lemma_last_step(start, replies, n - 3);
    lemma_constants(start, replies.take(n - 4));
    assert(elected(start, replies.take(n - 4)).0.stage is OldSocket);
    if n == 4 {
        assert(replies.take(0) =~= Seq::empty());
    }
    lemma_last_step(start, replies, n - 4);
    lemma_constants(start, replies.take(n - 5));
}

/// Whether the lock was taken.
pub open spec fn lock_taken(start: ElectionView, replies: Seq<ReplyView>) -> bool {
    exists|k: int|
        0 <= k < replies.len() && #[trigger] action_at(start, replies, k) is Lock && replies[k]
            is Done
}

/// Whether the socket was bound.
pub open spec fn socket_bound(start: ElectionView, replies: Seq<ReplyView>) -> bool {
    exists|k: int|
        0 <= k < replies.len() && #[trigger] action_at(start, replies, k) == ActionView::Bind(
            start.path,
        ) && replies[k] is Done
}

/// Whether a purpose arises only once the lock is taken.
pub open spec fn is_late(purpose: Purpose) -> bool {
    purpose is Locked || purpose is Taken || purpose is Own
}

/// Whether a stage is reached only with the lock.
pub open spec fn needs_lock(stage: Stage) -> bool {
    match stage {
        Stage::Creating | Stage::Checking | Stage::Opening | Stage::Locking | Stage::Ended => false,
        Stage::JoinDirectory(purpose) => is_late(purpose),
        Stage::JoinSocket(purpose) => is_late(purpose),
        Stage::JoinConnect(purpose, _, _) => is_late(purpose),
        Stage::JoinConfirm(purpose, _, _) => is_late(purpose),
        _ => true,
    }
}

/// Whether a stage is reached only with a socket of one's own.
pub open spec fn needs_socket(stage: Stage) -> bool {
    match stage {
        Stage::OwnDirectory | Stage::OwnSocket | Stage::Restricting => true,
        Stage::JoinDirectory(purpose) => purpose is Own,
        Stage::JoinSocket(purpose) => purpose is Own,
        Stage::JoinConnect(purpose, _, _) => purpose is Own,
        Stage::JoinConfirm(purpose, _, _) => purpose is Own,
        _ => false,
    }
}

/// What an election says to do is what its stage is for.
proof fn lemma_stage_actions(
    home: Seq<u8>,
    legacy_directory: Seq<u8>,
    user: u32,
    replies: Seq<ReplyView>,
)
    ensures
        ({
            let start = opened(home, legacy_directory, user);
            let (e, action) = elected(start, replies);
            &&& e.stage is Locking ==> action is Lock
            &&& e.stage is Binding ==> action == ActionView::Bind(start.path)
        }),
{
    let start = opened(home, legacy_directory, user);
    lemma_constants(start, replies);
    if replies.len() > 0 {
        lemma_constants(start, replies.drop_last());
    }
}

/// What was so before a reply is so after it.
proof fn lemma_history(start: ElectionView, replies: Seq<ReplyView>)
    requires
        replies.len() > 0,
    ensures
        lock_taken(start, replies.drop_last()) ==> lock_taken(start, replies),
        socket_bound(start, replies.drop_last()) ==> socket_bound(start, replies),
{
    let before = replies.drop_last();
    if lock_taken(start, before) {
        let k = choose|k: int|
            0 <= k < before.len() && #[trigger] action_at(start, before, k) is Lock && before[k]
                is Done;
        assert(before.take(k) =~= replies.take(k));
        assert(action_at(start, replies, k) is Lock && replies[k] is Done);
    }
    if socket_bound(start, before) {
        let k = choose|k: int|
            0 <= k < before.len() && #[trigger] action_at(start, before, k) == ActionView::Bind(
                start.path,
            ) && before[k] is Done;
        assert(before.take(k) =~= replies.take(k));
        assert(action_at(start, replies, k) == ActionView::Bind(start.path) && replies[k]
            is Done);
    }
}

proof fn lemma_reached(
    home: Seq<u8>,
    legacy_directory: Seq<u8>,
    user: u32,
    replies: Seq<ReplyView>,
)
    ensures
        ({
            let start = opened(home, legacy_directory, user);
            let e = elected(start, replies).0;
            &&& needs_lock(e.stage) ==> lock_taken(start, replies)
            &&& needs_socket(e.stage) ==> socket_bound(start, replies)
        }),
    decreases replies.len(),
{
    let start = opened(home, legacy_directory, user);
    if replies.len() > 0 {
        let before = replies.drop_last();
        let n = before.len() as int;
        lemma_reached(home, legacy_directory, user, before);
        lemma_history(start, replies);
        lemma_stage_actions(home, legacy_directory, user, before);
        lemma_constants(start, before);
        assert(replies.take(n) =~= before);
        let e = elected(start, before).0;
        let next = elected(start, replies).0;
        if needs_lock(next.stage) && !needs_lock(e.stage) {
            assert(e.stage is Locking);
            assert(action_at(start, replies, n) is Lock && replies[n] is Done);
        }
        if needs_socket(next.stage) && !needs_socket(e.stage) {
            assert(e.stage is Binding);
            assert(action_at(start, replies, n) == ActionView::Bind(start.path) && replies[n]
                is Done);
        }
    }
}

/// A socket is removed or bound only by who has the lock, and served only by who has
/// bound it.
pub proof fn law_owner_has_lock_and_socket(
    home: Seq<u8>,
    legacy_directory: Seq<u8>,
    user: u32,
    replies: Seq<ReplyView>,
)
    ensures
        ({
            let start = opened(home, legacy_directory, user);
            let action = elected(start, replies).1;
            &&& action is Remove || action is Bind || action is Serve ==> lock_taken(
                start,
                replies,
            )
            &&& action is Serve ==> socket_bound(start, replies)
        }),
{
    let start = opened(home, legacy_directory, user);
    if replies.len() > 0 {
        lemma_reached(home, legacy_directory, user, replies.drop_last());
        lemma_history(start, replies);
    }
}

/// A router is used only over a connection whose other end belongs to the same user,
/// and only under the identity of the socket that was found.
pub proof fn law_only_own_user_is_joined(
    home: Seq<u8>,
    legacy_directory: Seq<u8>,
    user: u32,
    replies: Seq<ReplyView>,
)
    requires
        ({
            let action = elected(opened(home, legacy_directory, user), replies).1;
            action is Join || action is Serve
        }),
    ensures
        ({
            let n = replies.len() as int;
            &&& n >= 2
            &&& replies[n - 1] == ReplyView::Connected(user) || replies[n - 2]
                == ReplyView::Connected(user)
            &&& elected(opened(home, legacy_directory, user), replies).1 is Serve ==> replies[n - 2]
                == ReplyView::Connected(user)
        }),
{
    let start = opened(home, legacy_directory, user);
    let n = replies.len() as int;
    assert(replies.take(n) =~= replies);
    lemma_last_step(start, replies, n);
    lemma_constants(start, replies.take(n - 1));
    let e = elected(start, replies.take(n - 1)).0;
    assert(e.stage is JoinConfirm || e.stage is OldConnect);
    if n == 1 {
        assert(replies.take(0) =~= Seq::empty());
    }
    lemma_last_step(start, replies, n - 1);
    lemma_constants(start, replies.take(n - 2));
}

/// A live endpoint is joined: once a connection has been made to a peer of the same
/// user, and the socket is still the one that was found, the election ends with that
/// connection in use.
pub proof fn law_live_endpoints_are_joined(e: ElectionView, reply: ReplyView)
    requires
        e.wf(),
    ensures
        e.stage matches Stage::JoinConfirm(purpose, device, inode) ==> (reply
            matches ReplyView::Found(found) ==> (found.device == device && found.inode == inode
            ==> {
            let (next, action) = decide(e, reply);
            let joined = IdentityView { path: e.target(purpose), device, inode };
            &&& next.stage is Ended
            &&& !(purpose is Own) ==> action == ActionView::Join(joined)
            &&& purpose is Own ==> (action matches ActionView::Serve(_, connected) && connected
                == joined)
        })),
        e.stage matches Stage::OldConnect(device, inode) ==> (reply == ReplyView::Connected(
            e.user,
        ) ==> decide(e, reply).1 == ActionView::Join(
            IdentityView { path: e.path, device, inode },
        )),
{
}

/// Where a router listens at the endpoint and all is as it should be, an election ends at
/// once, joined to that router: so does that of a process that lost an election and tries
/// again while the winner listens.
pub proof fn law_a_live_router_is_joined(
    home: Seq<u8>,
    legacy_directory: Seq<u8>,
    user: u32,
    directory: FileFacts,
    again: FileFacts,
    socket: FileFacts,
    confirmed: FileFacts,
)
    requires
        is_trusted_directory(directory, user),
        is_trusted_directory(again, user),
        is_trusted_socket(socket, user),
        confirmed.device == socket.device,
        confirmed.inode == socket.inode,
    ensures
        elected(
            opened(home, legacy_directory, user),
            seq![
                ReplyView::Done,
                ReplyView::Found(directory),
                ReplyView::Found(again),
                ReplyView::Found(socket),
                ReplyView::Connected(user),
                ReplyView::Found(confirmed),
            ],
        ).1 == ActionView::Join(
            IdentityView {
                path: endpoint_path(home),
                device: socket.device,
                inode: socket.inode,
            },
        ),
{
    let start = opened(home, legacy_directory, user);
    let replies = seq![
        ReplyView::Done,
        ReplyView::Found(directory),
        ReplyView::Found(again),
        ReplyView::Found(socket),
        ReplyView::Connected(user),
        ReplyView::Found(confirmed),
    ];
    assert(replies.take(0) =~= Seq::empty());
    assert(replies.take(6) =~= replies);
    lemma_last_step(start, replies, 1);
    lemma_last_step(start, replies, 2);
    lemma_last_step(start, replies, 3);
    lemma_last_step(start, replies, 4);
    lemma_last_step(start, replies, 5);
    lemma_last_step(start, replies, 6);
}

/// How many steps a stage of joining is from its end.
pub open spec fn join_rank(e: ElectionView, purpose: Purpose) -> int {
    match purpose {
        Purpose::Primary => 22 + 4 * (e.legacy.len() as int),
        Purpose::Legacy(i) => 22 + 4 * (e.legacy.len() - 1 - i),
        Purpose::Locked => 16,
        Purpose::Taken | Purpose::Own => 1,
    }
}

/// A bound on the number of replies that an election still needs.
pub open spec fn rank(e: ElectionView) -> int {
    match e.stage {
        Stage::Creating => 27 + 4 * (e.legacy.len() as int),
        Stage::Checking => 26 + 4 * (e.legacy.len() as int),
        Stage::JoinDirectory(purpose) => join_rank(e, purpose) + 3,
        Stage::JoinSocket(purpose) => join_rank(e, purpose) + 2,
        Stage::JoinConnect(purpose, _, _) => join_rank(e, purpose) + 1,
        Stage::JoinConfirm(purpose, _, _) => join_rank(e, purpose),
        Stage::Opening => 21,
        Stage::Locking => 20,
        Stage::Looking => 15,
        Stage::OldDirectory => 14,
        Stage::OldSocket => 13,
        Stage::OldConnect(..) => 12,
        Stage::NewDirectory(..) => 11,
        Stage::NewSocket(..) => 10,
        Stage::Removing => 9,
        Stage::Binding => 8,
        Stage::OwnDirectory => 7,
        Stage::OwnSocket => 6,
        Stage::Restricting => 5,
        Stage::Ended => 0,
    }
}

/// Every reply brings an election nearer to its end, and it ends: with two legacy
/// endpoints at most, after no more than thirty-five replies.
pub proof fn law_elections_end(e: ElectionView, reply: ReplyView)
    requires
        e.wf(),
        e.legacy.len() <= 2,
    ensures
        0 <= rank(e) <= 35,
        rank(e) == 0 <==> e.stage is Ended,
        !(e.stage is Ended) ==> rank(decide(e, reply).0) < rank(e),
        decide(e, reply).0.wf(),
{
}

} // verus!
