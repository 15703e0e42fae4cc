//! Which endpoints are used and trusted on Unix, and what an election comes to.
use crate::election::{
    decide, elected, fits, opened, ActionView, ElectionView, Purpose, ReplyView, Stage,
};
use crate::path::SLASH;
use crate::path_laws::law_joined_on_unix;
use crate::text_laws::{law_decimal_gives_the_number, law_octal_gives_the_number, number_of};
use crate::text::{digits, lossy, octal_digits};
use crate::unix::{
    directory_complaint, endpoint_path, is_trusted_directory, is_trusted_lock, is_trusted_socket,
    legacy_paths, FileFacts, IdentityView,
};
use vstd::prelude::*;
use vstd::utf8::*;

verus! {

/// A directory is trusted where it is one, belongs to the user, and others may not write
/// to it.
pub proof fn law_trusted_directories(found: FileFacts, user: u32)
    ensures
        is_trusted_directory(found, user) <==> found.kind is Directory && found.owner == user && (
        found.mode / 2) % 2 == 0,
{
    let mode = found.mode;
    assert((mode & 0o002 == 0) == ((mode / 2) % 2 == 0)) by (bit_vector);
}

/// A socket is trusted where it is one and belongs to the user.
pub proof fn law_trusted_sockets(found: FileFacts, user: u32)
    ensures
        is_trusted_socket(found, user) <==> found.kind is Socket && found.owner == user,
{
}

/// A lock file is trusted where it is a plain file, belongs to the user, and is no one
/// else's to use.
pub proof fn law_trusted_locks(found: FileFacts, user: u32)
    ensures
        is_trusted_lock(found, user) <==> found.kind is File && found.owner == user && found.mode
            % 64 == 0,
{
    let mode = found.mode;
    assert((mode & 0o077 == 0) == (mode % 64 == 0)) by (bit_vector);
}

/// Whether a text is a number in octal.
pub open spec fn is_octal(text: Seq<char>, n: int) -> bool {
    &&& number_of(text, 8) == n
    &&& text.len() > 0
    &&& forall|i: int| 0 <= i < text.len() ==> '0' <= #[trigger] text[i] <= '7'
}

/// A directory that is not trusted is named with its permissions, in octal.
pub proof fn law_complaints(path: Seq<u8>, mode: u32)
    ensures
        exists|permissions: Seq<char>| #[trigger]
            is_octal(permissions, (mode % 512) as int) && directory_complaint(path, mode)
                == "Codex IPC directory "@ + lossy(path) + " (mode "@ + permissions
                + ") must be a directory owned by the current user and not world-writable"@,
{
    assert(mode & 0o777 == mode % 512) by (bit_vector);
    let n = (mode & 0o777) as nat;
    law_octal_gives_the_number(n);
    assert(is_octal(octal_digits(n), (mode % 512) as int));
}

proof fn lemma_plain_name(name: Seq<char>)
    requires
        name.len() > 0,
        name[0] != '/',
        is_ascii_chars(name),
    ensures
        encode_utf8(name).len() > 0,
        encode_utf8(name)[0] != SLASH,
{
    is_ascii_chars_encode_utf8(name);
    assert(encode_utf8(name)[0] == name[0] as u8);
}

/// A path below a directory.
pub open spec fn inside(directory: Seq<u8>, name: Seq<char>) -> Seq<u8> {
    if directory.len() == 0 || directory.last() == SLASH {
        directory + encode_utf8(name)
    } else {
        directory.push(SLASH) + encode_utf8(name)
    }
}

/// The socket of a home directory is `ipc/ipc.sock` below it.
pub proof fn law_the_endpoint(home: Seq<u8>)
    ensures
        endpoint_path(home) == inside(home, "ipc/ipc.sock"@),
{
    reveal_strlit("ipc/ipc.sock");
    lemma_plain_name("ipc/ipc.sock"@);
    law_joined_on_unix(home, encode_utf8("ipc/ipc.sock"@));
}

/// Whether a text is a number in decimal.
pub open spec fn is_decimal(text: Seq<char>, n: int) -> bool {
    &&& number_of(text, 10) == n
    &&& text.len() > 0
    &&& forall|i: int| 0 <= i < text.len() ==> '0' <= #[trigger] text[i] <= '9'
    &&& n > 0 ==> text[0] != '0'
}

/// Where earlier clients have looked: for the superuser at two sockets, and for any other
/// user at one that bears the user's number.
pub proof fn law_the_legacy_endpoints(directory: Seq<u8>, user: u32)
    ensures
        user == 0 ==> legacy_paths(directory, user) == seq![
            inside(directory, "ipc.sock"@),
            inside(directory, "ipc-0.sock"@),
        ],
        user > 0 ==> exists|number: Seq<char>| #[trigger]
            is_decimal(number, user as int) && legacy_paths(directory, user) == seq![
                inside(directory, "ipc-"@ + number + ".sock"@),
            ],
{
    reveal_strlit("ipc.sock");
    reveal_strlit("ipc-0.sock");
    reveal_strlit("ipc-");
    reveal_strlit(".sock");
    if user == 0 {
        lemma_plain_name("ipc.sock"@);
        lemma_plain_name("ipc-0.sock"@);
        law_joined_on_unix(directory, encode_utf8("ipc.sock"@));
        law_joined_on_unix(directory, encode_utf8("ipc-0.sock"@));
    } else {
        let number = digits(user as nat);
        law_decimal_gives_the_number(user as nat);
        let name = "ipc-"@ + number + ".sock"@;
        assert(is_ascii_chars(name)) by {
            assert forall|i: int| 0 <= i < name.len() implies (#[trigger] name[i] as nat) < 128 by {
                let a = "ipc-"@.len() as int;
                let b = a + number.len();
                if a <= i < b {
                    assert(name[i] == number[i - a]);
                } else if i >= b {
                    assert(name[i] == ".sock"@[i - b]);
                }
            }
        }
        assert(name[0] == 'i');
        lemma_plain_name(name);
        law_joined_on_unix(directory, encode_utf8(name));
        assert(is_decimal(number, user as int));
    }
}

/// What an election is about: the socket, its directory and the lock file below the home
/// directory. The directory is created first, for the user alone.
pub proof fn law_elections_open(home: Seq<u8>, legacy_directory: Seq<u8>, user: u32)
    ensures
        ({
            let start = opened(home, legacy_directory, user);
            &&& start.path == endpoint_path(home)
            &&& start.directory == inside(home, "ipc"@)
            &&& start.lock == inside(start.directory, "zed-router.lock"@)
            &&& start.legacy == legacy_paths(legacy_directory, user)
            &&& start.legacy_directory == legacy_directory
            &&& start.user == user
            &&& elected(start, Seq::empty()).1 == ActionView::Create(start.directory, 0o700)
        }),
{
    reveal_strlit("ipc");
    reveal_strlit("zed-router.lock");
    lemma_plain_name("ipc"@);
    lemma_plain_name("zed-router.lock"@);
    law_joined_on_unix(home, encode_utf8("ipc"@));
    law_joined_on_unix(inside(home, "ipc"@), encode_utf8("zed-router.lock"@));
}

/// An election works on its own paths alone, and what it makes is for the user alone.
pub proof fn law_elections_keep_to_their_own(e: ElectionView, reply: ReplyView)
    ensures
        ({
            let action = decide(e, reply).1;
            &&& action matches ActionView::Open(path, mode) ==> path == e.lock && mode == 0o600
            &&& action matches ActionView::Restrict(own, mode) ==> own.path == e.path && mode
                == 0o600
            &&& action matches ActionView::Bind(path) ==> path == e.path
            &&& action matches ActionView::Remove(path) ==> path == e.path
            &&& action matches ActionView::Serve(own, joined) ==> own.path == e.path
            &&& !(action is Create)
        }),
{
}

/// Whether a reply says that nothing can be joined: there is nothing, or no one answers.
pub open spec fn is_no_router(reply: ReplyView) -> bool {
    reply is Failed || reply is Refused
}

/// Where the socket cannot be joined, the earlier endpoints are tried in turn, each from its
/// directory on, and after the last the lock file is opened.
pub proof fn law_endpoints_are_tried_in_turn(e: ElectionView, purpose: Purpose, reply: ReplyView)
    requires
        is_no_router(reply),
        e.stage == Stage::JoinDirectory(purpose) || e.stage == Stage::JoinSocket(purpose) || (
        e.stage matches Stage::JoinConnect(own, _, _) && own == purpose),
    ensures
        ({
            let (next, action) = decide(e, reply);
            let n = e.legacy.len();
            &&& purpose is Primary && n > 0 ==> next.stage == Stage::JoinDirectory(
                Purpose::Legacy(0),
            ) && action == ActionView::Inspect(e.legacy_directory)
            &&& purpose is Primary && n == 0 ==> next.stage is Opening && action is Open
            &&& purpose matches Purpose::Legacy(i) ==> {
                &&& i + 1 < n ==> next.stage == Stage::JoinDirectory(
                    Purpose::Legacy((i + 1) as usize),
                ) && action == ActionView::Inspect(e.legacy_directory)
                &&& i + 1 >= n ==> next.stage is Opening && action is Open
            }
            &&& purpose is Locked ==> next.stage is Looking && action == ActionView::Inspect(e.path)
            &&& purpose is Taken || purpose is Own ==> next.stage is Ended && action is Fail
        }),
{
}

/// An endpoint is joined in four steps: its directory is looked at, then its socket, then a
/// connection is made, and then the socket is looked at again.
pub proof fn law_joining_takes_four_steps(
    e: ElectionView,
    purpose: Purpose,
    found: FileFacts,
)
    ensures
        e.stage == Stage::JoinDirectory(purpose) && is_trusted_directory(found, e.user) ==> decide(
            e,
            ReplyView::Found(found),
        ) == (
            ElectionView { stage: Stage::JoinSocket(purpose), ..e },
            ActionView::Inspect(e.target(purpose)),
        ),
        e.stage == Stage::JoinSocket(purpose) && is_trusted_socket(found, e.user) ==> decide(
            e,
            ReplyView::Found(found),
        ) == (
            ElectionView {
                stage: Stage::JoinConnect(purpose, found.device, found.inode),
                ..e
            },
            ActionView::Connect(e.target(purpose)),
        ),
        e.target(purpose) == match purpose {
            Purpose::Legacy(i) => e.legacy[i as int],
            _ => e.path,
        },
{
}

/// A lock file that is not trusted, and a lock that another process has, end an election,
/// each with its reason.
pub proof fn law_locks_can_be_refused(e: ElectionView, found: FileFacts, reply: ReplyView)
    ensures
        e.stage is Opening && !is_trusted_lock(found, e.user) ==> decide(
            e,
            ReplyView::Found(found),
        ).1 == ActionView::Fail("unsafe Codex election lock"@),
        e.stage is Opening && is_trusted_lock(found, e.user) ==> decide(
            e,
            ReplyView::Found(found),
        ).1 is Lock,
        e.stage is Locking && !(reply is Done) ==> decide(e, reply).1 == ActionView::Fail(
            "Codex router election in progress"@,
        ),
        e.stage is Locking && reply is Done ==> decide(e, reply).1 == ActionView::Inspect(
            e.directory,
        ),
{
}

/// What is not trusted ends an election with its own reason: a directory that is not, and
/// what stands where the socket should.
pub proof fn law_what_is_not_trusted_ends_elections(e: ElectionView, found: FileFacts)
    ensures
        (e.stage is Checking || e.stage is OldDirectory || e.stage is NewDirectory || e.stage
            is OwnDirectory) && !is_trusted_directory(found, e.user) ==> decide(
            e,
            ReplyView::Found(found),
        ).1 == ActionView::Fail(directory_complaint(e.directory, found.mode)),
        (e.stage is OldSocket || e.stage is NewSocket || e.stage is OwnSocket)
            && !is_trusted_socket(found, e.user) ==> decide(e, ReplyView::Found(found)).1
            == ActionView::Fail("Codex IPC endpoint is not a socket owned by the current user"@),
        e.stage matches Stage::NewSocket(device, inode) ==> (is_trusted_socket(found, e.user) && (
        found.device != device || found.inode != inode) ==> decide(e, ReplyView::Found(found)).1
            == ActionView::Fail("Codex endpoint changed during election"@)),
{
}

/// Where there is no router, this process becomes it: with the lock, nothing at the path
/// and the socket bound, the election ends with that socket served, under the identity that
/// it had once it was bound, and with the connection that was made in use, under that of
/// the socket that it was made to.
pub proof fn law_without_a_router_one_is_served(
    e: ElectionView,
    directory: FileFacts,
    own: FileFacts,
    reached: FileFacts,
    gone: Seq<char>,
)
    requires
        e.stage is Locking,
        is_trusted_directory(directory, e.user),
        is_trusted_socket(own, e.user),
        is_trusted_socket(reached, e.user),
    ensures
        ({
            let replies = seq![
                ReplyView::Done,
                ReplyView::Found(directory),
                ReplyView::Failed(gone),
                ReplyView::Failed(gone),
                ReplyView::Done,
                ReplyView::Found(directory),
                ReplyView::Found(own),
                ReplyView::Done,
                ReplyView::Found(directory),
                ReplyView::Found(reached),
                ReplyView::Connected(e.user),
                ReplyView::Found(reached),
            ];
            &&& elected(e, replies.take(4)).1 == ActionView::Bind(e.path)
            &&& elected(e, replies).1 == ActionView::Serve(
                IdentityView { path: e.path, device: own.device, inode: own.inode },
                IdentityView { path: e.path, device: reached.device, inode: reached.inode },
            )
        }),
{
    let replies = seq![
        ReplyView::Done,
        ReplyView::Found(directory),
        ReplyView::Failed(gone),
        ReplyView::Failed(gone),
        ReplyView::Done,
        ReplyView::Found(directory),
        ReplyView::Found(own),
        ReplyView::Done,
        ReplyView::Found(directory),
        ReplyView::Found(reached),
        ReplyView::Connected(e.user),
        ReplyView::Found(reached),
    ];
    assert(replies.take(0) =~= Seq::empty());
    assert(replies.take(12) =~= replies);
    lemma_step(e, replies, 1);
    lemma_step(e, replies, 2);
    lemma_step(e, replies, 3);
    lemma_step(e, replies, 4);
    lemma_step(e, replies, 5);
    lemma_step(e, replies, 6);
    lemma_step(e, replies, 7);
    lemma_step(e, replies, 8);
    lemma_step(e, replies, 9);
    lemma_step(e, replies, 10);
    lemma_step(e, replies, 11);
    lemma_step(e, replies, 12);
}

proof fn lemma_step(start: ElectionView, replies: Seq<ReplyView>, n: int)
    requires
        0 < n <= replies.len(),
    ensures
        elected(start, replies.take(n)) == decide(
            elected(start, replies.take(n - 1)).0,
            replies[n - 1],
        ),
{
    assert(replies.take(n).drop_last() =~= replies.take(n - 1));
}

/// A socket that no one serves is replaced: with the lock, once its connection is refused
/// twice and it is still the same, it is removed, and the path is bound anew.
pub proof fn law_stale_sockets_are_replaced(
    e: ElectionView,
    directory: FileFacts,
    old: FileFacts,
    refused: Seq<char>,
)
    requires
        e.stage is Locking,
        is_trusted_directory(directory, e.user),
        is_trusted_socket(old, e.user),
    ensures
        ({
            let replies = seq![
                ReplyView::Done,
                ReplyView::Found(directory),
                ReplyView::Found(old),
                ReplyView::Refused(refused),
                ReplyView::Found(old),
                ReplyView::Found(directory),
                ReplyView::Found(old),
                ReplyView::Refused(refused),
                ReplyView::Found(directory),
                ReplyView::Found(old),
                ReplyView::Done,
            ];
            &&& elected(e, replies.take(10)).1 == ActionView::Remove(e.path)
            &&& elected(e, replies).1 == ActionView::Bind(e.path)
        }),
{
    let replies = seq![
        ReplyView::Done,
        ReplyView::Found(directory),
        ReplyView::Found(old),
        ReplyView::Refused(refused),
        ReplyView::Found(old),
        ReplyView::Found(directory),
        ReplyView::Found(old),
        ReplyView::Refused(refused),
        ReplyView::Found(directory),
        ReplyView::Found(old),
        ReplyView::Done,
    ];
    assert(replies.take(0) =~= Seq::empty());
    assert(replies.take(11) =~= replies);
    lemma_step(e, replies, 1);
    lemma_step(e, replies, 2);
    lemma_step(e, replies, 3);
    lemma_step(e, replies, 4);
    lemma_step(e, replies, 5);
    lemma_step(e, replies, 6);
    lemma_step(e, replies, 7);
    lemma_step(e, replies, 8);
    lemma_step(e, replies, 9);
    lemma_step(e, replies, 10);
    lemma_step(e, replies, 11);
}

/// An endpoint is still the same just where a socket with its device and inode is found at
/// its path.
pub proof fn law_current_endpoints(identity: IdentityView, found: Option<FileFacts>)
    ensures
        identity.current(found) <==> (found matches Some(facts) && facts.device == identity.device
            && facts.inode == identity.inode),
{
}

/// What fails while the lock file is opened, the directory made or anything done with the
/// lock ends an election, with the reason.
pub proof fn law_failures_end_elections(e: ElectionView, reason: Seq<char>)
    ensures
        e.stage is Creating || e.stage is Checking || e.stage is Opening || e.stage is OldDirectory
            || e.stage is OldSocket || e.stage is OldConnect || e.stage is NewDirectory || e.stage
            is NewSocket || e.stage is Removing || e.stage is Binding || e.stage is OwnDirectory
            || e.stage is OwnSocket || e.stage is Restricting ==> {
            let (next, action) = decide(e, ReplyView::Failed(reason));
            next.stage is Ended && action == ActionView::Fail(reason)
        },
{
}

/// With the lock, what is at the path is looked at: where there is nothing it is bound. Where
/// another process was faster, its socket is joined; and what was bound is looked at in
/// turn, from its directory on.
pub proof fn law_binding(e: ElectionView, reply: ReplyView)
    ensures
        e.stage is Looking && !(reply is Found) ==> decide(e, reply).1 == ActionView::Bind(e.path),
        e.stage is Looking && reply is Found ==> decide(e, reply) == (
            ElectionView { stage: Stage::OldDirectory, ..e },
            ActionView::Inspect(e.directory),
        ),
        e.stage is Binding && reply is Taken ==> decide(e, reply) == (
            ElectionView { stage: Stage::JoinDirectory(Purpose::Taken), ..e },
            ActionView::Inspect(e.directory),
        ),
        e.stage is Binding && reply is Done ==> decide(e, reply) == (
            ElectionView { stage: Stage::OwnDirectory, ..e },
            ActionView::Inspect(e.directory),
        ),
        e.stage is Removing && reply is Done ==> decide(e, reply).1 == ActionView::Bind(e.path),
{
}

/// A peer of another user is not joined, nor a socket that is another one after the
/// connection than before. Where nothing else is left to try, that is the reason given.
pub proof fn law_strangers_are_not_joined(
    e: ElectionView,
    purpose: Purpose,
    device: u64,
    inode: u64,
    reply: ReplyView,
)
    ensures
        e.stage == Stage::JoinConnect(purpose, device, inode) ==> (reply
            matches ReplyView::Connected(peer) ==> {
            let (next, action) = decide(e, reply);
            &&& peer == e.user ==> next.stage == Stage::JoinConfirm(purpose, device, inode)
                && action == ActionView::Inspect(e.target(purpose))
            &&& peer != e.user ==> !(next.stage is JoinConfirm) && !(action is Join) && !(action
                is Serve)
            &&& peer != e.user && (purpose is Taken || purpose is Own) ==> action
                == ActionView::Fail("Codex IPC peer belongs to another user"@)
        }),
        e.stage == Stage::JoinConfirm(purpose, device, inode) && !(reply matches ReplyView::Found(
            found,
        ) && found.device == device && found.inode == inode) ==> {
            let action = decide(e, reply).1;
            &&& !(action is Join) && !(action is Serve)
            &&& purpose is Taken || purpose is Own ==> action == ActionView::Fail(
                "Codex endpoint changed during connection"@,
            )
        },
        e.stage is OldConnect ==> (reply matches ReplyView::Connected(peer) ==> (peer != e.user
            ==> decide(e, reply).1 == ActionView::Fail("Codex IPC peer belongs to another user"@))),
{
}

/// Whatever an election says to do, what can come of it is taken: something is found or not,
/// a connection is made, refused or fails, a socket is bound, taken or fails, and anything
/// else is done or fails.
pub proof fn law_replies_are_taken(
    e: ElectionView,
    reply: ReplyView,
    found: FileFacts,
    peer: u32,
    reason: Seq<char>,
)
    requires
        !(e.stage is Ended),
    ensures
        ({
            let (next, action) = decide(e, reply);
            let takes = |r: ReplyView| fits(next.stage, r);
            &&& action is Inspect || action is Open ==> takes(ReplyView::Found(found)) && takes(
                ReplyView::Failed(reason),
            )
            &&& action is Connect ==> takes(ReplyView::Connected(peer)) && takes(
                ReplyView::Refused(reason),
            ) && takes(ReplyView::Failed(reason))
            &&& action is Bind ==> takes(ReplyView::Done) && takes(ReplyView::Taken) && takes(
                ReplyView::Failed(reason),
            )
            &&& action is Lock || action is Remove || action is Restrict ==> takes(ReplyView::Done)
                && takes(ReplyView::Failed(reason))
            &&& action is Join || action is Serve || action is Fail <==> next.stage is Ended
        }),
{
}

} // verus!
