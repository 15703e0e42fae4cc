//! Who serves the router on Unix. An existing router is joined, even one that is
//! incompatible; only where none answers does this process become the owner. The
//! decisions are here, one at a time: each says what to do next, and takes what came
//! of it.
use crate::path::{join, PathStyle};
use crate::unix::{
    below, byte_strings, directory_complaint, endpoint, endpoint_path, is_trusted_directory,
    is_trusted_lock, is_trusted_socket, legacy_endpoints, legacy_paths, validate_directory,
    validate_lock, validate_peer, validate_socket, EndpointIdentity, FileFacts, IdentityView,
};
use vstd::prelude::*;
use vstd::slice::slice_to_vec;
use vstd::utf8::encode_utf8;

verus! {

/// The mode of a directory that is the user's alone.
pub const PRIVATE_DIRECTORY: u32 = 0o700;

/// The mode of a file or socket that is the user's alone.
pub const PRIVATE_FILE: u32 = 0o600;

/// Why an endpoint is to be joined.
#[derive(Clone, Copy, PartialEq, Eq, Structural, Debug)]
pub enum Purpose {
    /// It is where a router belongs.
    Primary,
    /// It is where an earlier client looked for one.
    Legacy(usize),
    /// It may have come while the lock was taken.
    Locked,
    /// It came before this process could bind it.
    Taken,
    /// It is this process's own.
    Own,
}

/// How far an election has come. Numbers are the device and inode of a socket.
#[derive(Clone, Copy, PartialEq, Eq, Structural, Debug)]
pub enum Stage {
    Creating,
    Checking,
    JoinDirectory(Purpose),
    JoinSocket(Purpose),
    JoinConnect(Purpose, u64, u64),
    JoinConfirm(Purpose, u64, u64),
    Opening,
    Locking,
    Looking,
    OldDirectory,
    OldSocket,
    OldConnect(u64, u64),
    NewDirectory(u64, u64),
    NewSocket(u64, u64),
    Removing,
    Binding,
    OwnDirectory,
    OwnSocket,
    Restricting,
    Ended,
}

/// What is to be done next.
pub enum Action {
    /// Create a directory and those above it, with a mode.
    Create(Vec<u8>, u32),
    /// Ask what a name stands for, without following a link.
    Inspect(Vec<u8>),
    /// Connect to a socket, and ask which user is at the other end.
    Connect(Vec<u8>),
    /// Open the lock file, creating it with a mode where there is none, and ask what it is.
    Open(Vec<u8>, u32),
    /// Take the lock without waiting.
    Lock,
    /// Remove a socket that no one serves.
    Remove(Vec<u8>),
    /// Listen at a socket.
    Bind(Vec<u8>),
    /// Give this process's own socket a mode.
    Restrict(EndpointIdentity, u32),
    /// Use the connection that was made, to a router of another process.
    Join(EndpointIdentity),
    /// Serve the socket that was bound, and use the connection that was made to it.
    Serve(EndpointIdentity, EndpointIdentity),
    /// Give up.
    Fail(String),
}

/// What is to be done next.
pub enum ActionView {
    Create(Seq<u8>, u32),
    Inspect(Seq<u8>),
    Connect(Seq<u8>),
    Open(Seq<u8>, u32),
    Lock,
    Remove(Seq<u8>),
    Bind(Seq<u8>),
    Restrict(IdentityView, u32),
    Join(IdentityView),
    Serve(IdentityView, IdentityView),
    Fail(Seq<char>),
}

impl View for Action {
    type V = ActionView;

    open spec fn view(&self) -> ActionView {
        match self {
            Action::Create(path, mode) => ActionView::Create(path@, *mode),
            Action::Inspect(path) => ActionView::Inspect(path@),
            Action::Connect(path) => ActionView::Connect(path@),
            Action::Open(path, mode) => ActionView::Open(path@, *mode),
            Action::Lock => ActionView::Lock,
            Action::Remove(path) => ActionView::Remove(path@),
            Action::Bind(path) => ActionView::Bind(path@),
            Action::Restrict(own, mode) => ActionView::Restrict(own@, *mode),
            Action::Join(joined) => ActionView::Join(joined@),
            Action::Serve(own, joined) => ActionView::Serve(own@, joined@),
            Action::Fail(reason) => ActionView::Fail(reason@),
        }
    }
}

/// What came of it.
pub enum Reply {
    /// It was done.
    Done,
    /// This was found.
    Found(FileFacts),
    /// A peer of this user was reached.
    Connected(u32),
    /// No one listens at the socket.
    Refused(String),
    /// Another process listens at the socket.
    Taken,
    /// It could not be done.
    Failed(String),
}

/// What came of it.
pub enum ReplyView {
    Done,
    Found(FileFacts),
    Connected(u32),
    Refused(Seq<char>),
    Taken,
    Failed(Seq<char>),
}

impl View for Reply {
    type V = ReplyView;

    open spec fn view(&self) -> ReplyView {
        match self {
            Reply::Done => ReplyView::Done,
            Reply::Found(facts) => ReplyView::Found(*facts),
            Reply::Connected(peer) => ReplyView::Connected(*peer),
            Reply::Refused(reason) => ReplyView::Refused(reason@),
            Reply::Taken => ReplyView::Taken,
            Reply::Failed(reason) => ReplyView::Failed(reason@),
        }
    }
}

/// An election under way.
pub struct ElectionView {
    pub path: Seq<u8>,
    pub directory: Seq<u8>,
    pub lock: Seq<u8>,
    pub legacy: Seq<Seq<u8>>,
    pub legacy_directory: Seq<u8>,
    pub user: u32,
    pub own: Option<(u64, u64)>,
    pub stage: Stage,
}

/// Whether something can have come of what is done at a stage.
pub open spec fn fits(stage: Stage, reply: ReplyView) -> bool {
    match stage {
        Stage::Creating | Stage::Locking | Stage::Removing | Stage::Restricting => reply is Done
            || reply is Failed,
        Stage::JoinConnect(..) | Stage::OldConnect(..) => reply is Connected || reply is Refused
            || reply is Failed,
        Stage::Binding => reply is Done || reply is Taken || reply is Failed,
        Stage::Ended => false,
        _ => reply is Found || reply is Failed,
    }
}

impl ElectionView {
    /// Whether an election is in order: the endpoint that is being joined exists.
    pub open spec fn wf(self) -> bool {
        match self.stage {
            Stage::JoinDirectory(purpose) => self.has(purpose),
            Stage::JoinSocket(purpose) => self.has(purpose),
            Stage::JoinConnect(purpose, _, _) => self.has(purpose),
            Stage::JoinConfirm(purpose, _, _) => self.has(purpose),
            Stage::Restricting => self.own is Some,
            _ => true,
        }
    }

    /// Whether there is an endpoint for a purpose.
    pub open spec fn has(self, purpose: Purpose) -> bool {
        match purpose {
            Purpose::Legacy(i) => i < self.legacy.len(),
            Purpose::Own => self.own is Some,
            _ => true,
        }
    }

    /// The election at another stage.
    pub open spec fn at(self, stage: Stage) -> ElectionView {
        ElectionView { stage, ..self }
    }

    /// The socket to join.
    pub open spec fn target(self, purpose: Purpose) -> Seq<u8> {
        match purpose {
            Purpose::Legacy(i) => self.legacy[i as int],
            _ => self.path,
        }
    }

    /// The directory of the socket to join.
    pub open spec fn target_directory(self, purpose: Purpose) -> Seq<u8> {
        match purpose {
            Purpose::Legacy(_) => self.legacy_directory,
            _ => self.directory,
        }
    }

    /// The end, without success.
    pub open spec fn failed(self, reason: Seq<char>) -> (ElectionView, ActionView) {
        (self.at(Stage::Ended), ActionView::Fail(reason))
    }

    /// Begins to join an endpoint.
    pub open spec fn joining(self, purpose: Purpose) -> (ElectionView, ActionView) {
        (
            self.at(Stage::JoinDirectory(purpose)),
            ActionView::Inspect(self.target_directory(purpose)),
        )
    }

    /// Begins to take the lock.
    pub open spec fn opening(self) -> (ElectionView, ActionView) {
        (self.at(Stage::Opening), ActionView::Open(self.lock, PRIVATE_FILE))
    }

    /// Begins to listen.
    pub open spec fn binding(self) -> (ElectionView, ActionView) {
        (self.at(Stage::Binding), ActionView::Bind(self.path))
    }

    /// What follows where an endpoint could not be joined.
    pub open spec fn not_joined(self, purpose: Purpose, reason: Seq<char>) -> (
        ElectionView,
        ActionView,
    ) {
        match purpose {
            Purpose::Primary => if self.legacy.len() > 0 {
                self.joining(Purpose::Legacy(0))
            } else {
                self.opening()
            },
            Purpose::Legacy(i) => if i + 1 < self.legacy.len() {
                self.joining(Purpose::Legacy((i + 1) as usize))
            } else {
                self.opening()
            },
            Purpose::Locked => (self.at(Stage::Looking), ActionView::Inspect(self.path)),
            Purpose::Taken | Purpose::Own => self.failed(reason),
        }
    }

    /// What follows where an endpoint was joined.
    pub open spec fn joined(self, purpose: Purpose, device: u64, inode: u64) -> (
        ElectionView,
        ActionView,
    ) {
        let identity = IdentityView { path: self.target(purpose), device, inode };
        (
            self.at(Stage::Ended),
            match (purpose, self.own) {
                (Purpose::Own, Some(own)) => ActionView::Serve(
                    IdentityView { path: self.path, device: own.0, inode: own.1 },
                    identity,
                ),
                _ => ActionView::Join(identity),
            },
        )
    }
}

/// Why a socket is refused.
pub open spec fn socket_complaint() -> Seq<char> {
    "Codex IPC endpoint is not a socket owned by the current user"@
}

/// Why a peer is refused.
pub open spec fn peer_complaint() -> Seq<char> {
    "Codex IPC peer belongs to another user"@
}

/// What came of the look at a directory: it is fine, or why it is not.
pub open spec fn directory_problem(e: ElectionView, path: Seq<u8>, reply: ReplyView) -> Option<
    Seq<char>,
> {
    match reply {
        ReplyView::Found(found) => if is_trusted_directory(found, e.user) {
            None
        } else {
            Some(directory_complaint(path, found.mode))
        },
        ReplyView::Failed(reason) => Some(reason),
        _ => Some(Seq::empty()),
    }
}

/// What came of the look at a socket: which it is, or why it will not do.
pub open spec fn socket_seen(e: ElectionView, reply: ReplyView) -> Result<
    (u64, u64),
    Seq<char>,
> {
    match reply {
        ReplyView::Found(found) => if is_trusted_socket(found, e.user) {
            Ok((found.device, found.inode))
        } else {
            Err(socket_complaint())
        },
        ReplyView::Failed(reason) => Err(reason),
        _ => Err(Seq::empty()),
    }
}

/// What came of something that is only done: it was, or why not.
pub open spec fn problem(reply: ReplyView) -> Option<Seq<char>> {
    match reply {
        ReplyView::Done => None,
        ReplyView::Failed(reason) => Some(reason),
        _ => Some(Seq::empty()),
    }
}

/// One decision of an election.
pub open spec fn decide(e: ElectionView, reply: ReplyView) -> (ElectionView, ActionView) {
    match e.stage {
        Stage::Creating => match problem(reply) {
            None => (e.at(Stage::Checking), ActionView::Inspect(e.directory)),
            Some(reason) => e.failed(reason),
        },
        Stage::Checking => match directory_problem(e, e.directory, reply) {
            None => e.joining(Purpose::Primary),
            Some(reason) => e.failed(reason),
        },
        Stage::JoinDirectory(purpose) => match directory_problem(
            e,
            e.target_directory(purpose),
            reply,
        ) {
            None => (
                e.at(Stage::JoinSocket(purpose)),
                ActionView::Inspect(e.target(purpose)),
            ),
            Some(reason) => e.not_joined(purpose, reason),
        },
        Stage::JoinSocket(purpose) => match socket_seen(e, reply) {
            Ok((device, inode)) => (
                e.at(Stage::JoinConnect(purpose, device, inode)),
                ActionView::Connect(e.target(purpose)),
            ),
            Err(reason) => e.not_joined(purpose, reason),
        },
        Stage::JoinConnect(purpose, device, inode) => match reply {
            ReplyView::Connected(peer) => if peer == e.user {
                (
                    e.at(Stage::JoinConfirm(purpose, device, inode)),
                    ActionView::Inspect(e.target(purpose)),
                )
            } else {
                e.not_joined(purpose, peer_complaint())
            },
            ReplyView::Refused(reason) => e.not_joined(purpose, reason),
            ReplyView::Failed(reason) => e.not_joined(purpose, reason),
            _ => e.not_joined(purpose, Seq::empty()),
        },
        Stage::JoinConfirm(purpose, device, inode) => match reply {
            ReplyView::Found(found) if found.device == device && found.inode == inode => e.joined(
                purpose,
                device,
                inode,
            ),
            _ => e.not_joined(purpose, "Codex endpoint changed during connection"@),
        },
        Stage::Opening => match reply {
            ReplyView::Found(found) => if is_trusted_lock(found, e.user) {
                (e.at(Stage::Locking), ActionView::Lock)
            } else {
                e.failed("unsafe Codex election lock"@)
            },
            ReplyView::Failed(reason) => e.failed(reason),
            _ => e.failed(Seq::empty()),
        },
        Stage::Locking => if reply is Done {
            e.joining(Purpose::Locked)
        } else {
            e.failed("Codex router election in progress"@)
        },
        Stage::Looking => if reply is Found {
            (e.at(Stage::OldDirectory), ActionView::Inspect(e.directory))
        } else {
            e.binding()
        },
        Stage::OldDirectory => match directory_problem(e, e.directory, reply) {
            None => (e.at(Stage::OldSocket), ActionView::Inspect(e.path)),
            Some(reason) => e.failed(reason),
        },
        Stage::OldSocket => match socket_seen(e, reply) {
            Ok((device, inode)) => (
                e.at(Stage::OldConnect(device, inode)),
                ActionView::Connect(e.path),
            ),
            Err(reason) => e.failed(reason),
        },
        Stage::OldConnect(device, inode) => match reply {
            ReplyView::Connected(peer) => if peer == e.user {
                e.joined(Purpose::Locked, device, inode)
            } else {
                e.failed(peer_complaint())
            },
            // Only connection-refused proves a stale socket. Permission errors,
            // timeouts and transient resource failures never authorize replacement.
            ReplyView::Refused(_) => (
                e.at(Stage::NewDirectory(device, inode)),
                ActionView::Inspect(e.directory),
            ),
            ReplyView::Failed(reason) => e.failed(reason),
            _ => e.failed(Seq::empty()),
        },
        Stage::NewDirectory(device, inode) => match directory_problem(e, e.directory, reply) {
            None => (e.at(Stage::NewSocket(device, inode)), ActionView::Inspect(e.path)),
            Some(reason) => e.failed(reason),
        },
        Stage::NewSocket(device, inode) => match socket_seen(e, reply) {
            Ok(seen) => if seen == (device, inode) {
                (e.at(Stage::Removing), ActionView::Remove(e.path))
            } else {
                e.failed("Codex endpoint changed during election"@)
            },
            Err(reason) => e.failed(reason),
        },
        Stage::Removing => match problem(reply) {
            None => e.binding(),
            Some(reason) => e.failed(reason),
        },
        Stage::Binding => match reply {
            ReplyView::Done => (
                e.at(Stage::OwnDirectory),
                ActionView::Inspect(e.directory),
            ),
            ReplyView::Taken => e.joining(Purpose::Taken),
            ReplyView::Failed(reason) => e.failed(reason),
            _ => e.failed(Seq::empty()),
        },
        Stage::OwnDirectory => match directory_problem(e, e.directory, reply) {
            None => (e.at(Stage::OwnSocket), ActionView::Inspect(e.path)),
            Some(reason) => e.failed(reason),
        },
        Stage::OwnSocket => match socket_seen(e, reply) {
            Ok(seen) => (
                ElectionView { own: Some(seen), stage: Stage::Restricting, ..e },
                ActionView::Restrict(
                    IdentityView { path: e.path, device: seen.0, inode: seen.1 },
                    PRIVATE_FILE,
                ),
            ),
            Err(reason) => e.failed(reason),
        },
        Stage::Restricting => match problem(reply) {
            None => e.joining(Purpose::Own),
            Some(reason) => e.failed(reason),
        },
        Stage::Ended => (e, ActionView::Fail(Seq::empty())),
    }
}

/// An election for a home directory, before anything is done.
pub open spec fn opened(home: Seq<u8>, legacy_directory: Seq<u8>, user: u32) -> ElectionView {
    let directory = below(home, encode_utf8("ipc"@));
    ElectionView {
        path: endpoint_path(home),
        directory,
        lock: below(directory, encode_utf8("zed-router.lock"@)),
        legacy: legacy_paths(legacy_directory, user),
        legacy_directory,
        user,
        own: None,
        stage: Stage::Creating,
    }
}

/// An election under way.
pub struct Election {
    path: Vec<u8>,
    directory: Vec<u8>,
    lock: Vec<u8>,
    legacy: Vec<Vec<u8>>,
    legacy_directory: Vec<u8>,
    user: u32,
    own: Option<(u64, u64)>,
    stage: Stage,
}

impl View for Election {
    type V = ElectionView;

    closed spec fn view(&self) -> ElectionView {
        ElectionView {
            path: self.path@,
            directory: self.directory@,
            lock: self.lock@,
            legacy: byte_strings(self.legacy@),
            legacy_directory: self.legacy_directory@,
            user: self.user,
            own: self.own,
            stage: self.stage,
        }
    }
}

fn copy_bytes(bytes: &Vec<u8>) -> (copy: Vec<u8>)
    ensures
        copy@ == bytes@,
{
    slice_to_vec(bytes.as_slice())
}

fn done(reply: Reply) -> (outcome: Result<(), String>)
    ensures
        match outcome {
            Ok(()) => problem(reply@) is None,
            Err(reason) => problem(reply@) == Some(reason@),
        },
{
    match reply {
        Reply::Done => Ok(()),
        Reply::Failed(reason) => Err(reason),
        _ => nothing(),
    }
}

/// An empty reason.
fn nothing<T>() -> (outcome: Result<T, String>)
    ensures
        outcome matches Err(reason) && reason@ == Seq::<char>::empty(),
{
    Err(String::new())
}

impl Election {
    /// Opens an election for a home directory, and says what to do first.
    pub fn new(home: &[u8], legacy_directory: &[u8], user: u32) -> (started: (Election, Action))
        ensures
            started.0@ == opened(home@, legacy_directory@, user),
            started.0@.wf(),
            started.1@ == ActionView::Create(started.0@.directory, PRIVATE_DIRECTORY),
    {
        let directory = join(PathStyle::Unix, home, "ipc");
        let lock = join(PathStyle::Unix, directory.as_slice(), "zed-router.lock");
        let create = Action::Create(copy_bytes(&directory), PRIVATE_DIRECTORY);
        let election = Election {
            path: endpoint(home),
            directory,
            lock,
            legacy: legacy_endpoints(legacy_directory, user),
            legacy_directory: slice_to_vec(legacy_directory),
            user,
            own: None,
            stage: Stage::Creating,
        };
        (election, create)
    }

    fn check_directory(&self, path: &[u8], reply: Reply) -> (outcome: Result<(), String>)
        ensures
            match outcome {
                Ok(()) => directory_problem(self@, path@, reply@) is None,
                Err(reason) => directory_problem(self@, path@, reply@) == Some(reason@),
            },
    {
        match reply {
            Reply::Found(found) => validate_directory(path, found, self.user),
            Reply::Failed(reason) => Err(reason),
            _ => nothing(),
        }
    }

    fn check_socket(&self, reply: Reply) -> (outcome: Result<(u64, u64), String>)
        ensures
            match outcome {
                Ok(seen) => socket_seen(self@, reply@) == Ok::<(u64, u64), Seq<char>>(seen),
                Err(reason) => socket_seen(self@, reply@) == Err::<(u64, u64), Seq<char>>(
                    reason@,
                ),
            },
    {
        match reply {
            Reply::Found(found) => match validate_socket(found, self.user) {
                Ok(()) => Ok((found.device, found.inode)),
                Err(reason) => Err(reason.to_owned()),
            },
            Reply::Failed(reason) => Err(reason),
            _ => nothing(),
        }
    }

    fn fail(&mut self, reason: String) -> (action: Action)
        ensures
            (final(self)@, action@) == old(self)@.failed(reason@),
    {
        self.stage = Stage::Ended;
        Action::Fail(reason)
    }

    fn inspect_directory(&mut self, stage: Stage) -> (action: Action)
        ensures
            final(self)@ == old(self)@.at(stage),
            action@ == ActionView::Inspect(old(self)@.directory),
    {
        self.stage = stage;
        Action::Inspect(copy_bytes(&self.directory))
    }

    fn inspect_path(&mut self, stage: Stage) -> (action: Action)
        ensures
            final(self)@ == old(self)@.at(stage),
            action@ == ActionView::Inspect(old(self)@.path),
    {
        self.stage = stage;
        Action::Inspect(copy_bytes(&self.path))
    }

    /// The socket to join.
    fn target(&self, purpose: Purpose) -> (path: Vec<u8>)
        requires
            self@.has(purpose),
        ensures
            path@ == self@.target(purpose),
    {
        match purpose {
            Purpose::Legacy(i) => copy_bytes(&self.legacy[i]),
            _ => copy_bytes(&self.path),
        }
    }

    /// The directory of the socket to join.
    fn target_directory(&self, purpose: Purpose) -> (path: Vec<u8>)
        ensures
            path@ == self@.target_directory(purpose),
    {
        match purpose {
            Purpose::Legacy(_) => copy_bytes(&self.legacy_directory),
            _ => copy_bytes(&self.directory),
        }
    }

    fn begin_to_join(&mut self, purpose: Purpose) -> (action: Action)
        ensures
            (final(self)@, action@) == old(self)@.joining(purpose),
    {
        self.stage = Stage::JoinDirectory(purpose);
        Action::Inspect(self.target_directory(purpose))
    }

    fn begin_to_open(&mut self) -> (action: Action)
        ensures
            (final(self)@, action@) == old(self)@.opening(),
    {
        self.stage = Stage::Opening;
        Action::Open(copy_bytes(&self.lock), PRIVATE_FILE)
    }

    fn begin_to_bind(&mut self) -> (action: Action)
        ensures
            (final(self)@, action@) == old(self)@.binding(),
    {
        self.stage = Stage::Binding;
        Action::Bind(copy_bytes(&self.path))
    }

    fn go_on(&mut self, purpose: Purpose, reason: String) -> (action: Action)
        ensures
            (final(self)@, action@) == old(self)@.not_joined(purpose, reason@),
            final(self)@.wf(),
    {
        match purpose {
            Purpose::Primary => if self.legacy.len() > 0 {
                self.begin_to_join(Purpose::Legacy(0))
            } else {
                self.begin_to_open()
            },
            Purpose::Legacy(i) => {
                let n: usize = self.legacy.len();
                if i < n && i + 1 < n {
                    self.begin_to_join(Purpose::Legacy(i + 1))
                } else {
                    self.begin_to_open()
                }
            },
            Purpose::Locked => self.inspect_path(Stage::Looking),
            Purpose::Taken | Purpose::Own => self.fail(reason),
        }
    }

    fn end_joined(&mut self, purpose: Purpose, device: u64, inode: u64) -> (action: Action)
        requires
            old(self)@.has(purpose),
        ensures
            (final(self)@, action@) == old(self)@.joined(purpose, device, inode),
    {
        let joined = EndpointIdentity { path: self.target(purpose), device, inode };
        self.stage = Stage::Ended;
        match (purpose, self.own) {
            (Purpose::Own, Some(own)) => Action::Serve(
                EndpointIdentity { path: copy_bytes(&self.path), device: own.0, inode: own.1 },
                joined,
            ),
            _ => Action::Join(joined),
        }
    }

    /// Takes what came of the last action, and says what to do next.
    pub fn decide(&mut self, reply: Reply) -> (action: Action)
        requires
            old(self)@.wf(),
            fits(old(self)@.stage, reply@),
        ensures
            (final(self)@, action@) == decide(old(self)@, reply@),
            final(self)@.wf(),
    {
        match self.stage {
            Stage::Creating => match done(reply) {
                Ok(()) => self.inspect_directory(Stage::Checking),
                Err(reason) => self.fail(reason),
            },
            Stage::Checking => match self.check_directory(self.directory.as_slice(), reply) {
                Ok(()) => self.begin_to_join(Purpose::Primary),
                Err(reason) => self.fail(reason),
            },
            Stage::JoinDirectory(purpose) => {
                let directory = self.target_directory(purpose);
                match self.check_directory(directory.as_slice(), reply) {
                    Ok(()) => {
                        self.stage = Stage::JoinSocket(purpose);
                        Action::Inspect(self.target(purpose))
                    },
                    Err(reason) => self.go_on(purpose, reason),
                }
            },
            Stage::JoinSocket(purpose) => match self.check_socket(reply) {
                Ok((device, inode)) => {
                    self.stage = Stage::JoinConnect(purpose, device, inode);
                    Action::Connect(self.target(purpose))
                },
                Err(reason) => self.go_on(purpose, reason),
            },
            Stage::JoinConnect(purpose, device, inode) => match reply {
                Reply::Connected(peer) => match validate_peer(peer, self.user) {
                    Ok(()) => {
                        self.stage = Stage::JoinConfirm(purpose, device, inode);
                        Action::Inspect(self.target(purpose))
                    },
                    Err(reason) => self.go_on(purpose, reason.to_owned()),
                },
                Reply::Refused(reason) => self.go_on(purpose, reason),
                Reply::Failed(reason) => self.go_on(purpose, reason),
                _ => self.go_on(purpose, String::new()),
            },
            Stage::JoinConfirm(purpose, device, inode) => {
                if let Reply::Found(found) = reply {
                    if found.device == device && found.inode == inode {
                        return self.end_joined(purpose, device, inode);
                    }
                }
                self.go_on(purpose, "Codex endpoint changed during connection".to_owned())
            },
            Stage::Opening => match reply {
                Reply::Found(found) => match validate_lock(found, self.user) {
                    Ok(()) => {
                        self.stage = Stage::Locking;
                        Action::Lock
                    },
                    Err(reason) => self.fail(reason.to_owned()),
                },
                Reply::Failed(reason) => self.fail(reason),
                _ => self.fail(String::new()),
            },
            Stage::Locking => match reply {
                Reply::Done => self.begin_to_join(Purpose::Locked),
                _ => self.fail("Codex router election in progress".to_owned()),
            },
            Stage::Looking => match reply {
                Reply::Found(_) => self.inspect_directory(Stage::OldDirectory),
                _ => self.begin_to_bind(),
            },
            Stage::OldDirectory => match self.check_directory(self.directory.as_slice(), reply) {
                Ok(()) => self.inspect_path(Stage::OldSocket),
                Err(reason) => self.fail(reason),
            },
            Stage::OldSocket => match self.check_socket(reply) {
                Ok((device, inode)) => {
                    self.stage = Stage::OldConnect(device, inode);
                    Action::Connect(copy_bytes(&self.path))
                },
                Err(reason) => self.fail(reason),
            },
            Stage::OldConnect(device, inode) => match reply {
                Reply::Connected(peer) => match validate_peer(peer, self.user) {
                    Ok(()) => self.end_joined(Purpose::Locked, device, inode),
                    Err(reason) => self.fail(reason.to_owned()),
                },
                Reply::Refused(_) => self.inspect_directory(Stage::NewDirectory(device, inode)),
                Reply::Failed(reason) => self.fail(reason),
                _ => self.fail(String::new()),
            },
            Stage::NewDirectory(device, inode) => match self.check_directory(
                self.directory.as_slice(),
                reply,
            ) {
                Ok(()) => self.inspect_path(Stage::NewSocket(device, inode)),
                Err(reason) => self.fail(reason),
            },
            Stage::NewSocket(device, inode) => match self.check_socket(reply) {
                Ok(seen) => if seen.0 == device && seen.1 == inode {
                    self.stage = Stage::Removing;
                    Action::Remove(copy_bytes(&self.path))
                } else {
                    self.fail("Codex endpoint changed during election".to_owned())
                },
                Err(reason) => self.fail(reason),
            },
            Stage::Removing => match done(reply) {
                Ok(()) => self.begin_to_bind(),
                Err(reason) => self.fail(reason),
            },
            Stage::Binding => match reply {
                Reply::Done => self.inspect_directory(Stage::OwnDirectory),
                Reply::Taken => self.begin_to_join(Purpose::Taken),
                Reply::Failed(reason) => self.fail(reason),
                _ => self.fail(String::new()),
            },
            Stage::OwnDirectory => match self.check_directory(self.directory.as_slice(), reply) {
                Ok(()) => self.inspect_path(Stage::OwnSocket),
                Err(reason) => self.fail(reason),
            },
            Stage::OwnSocket => match self.check_socket(reply) {
                Ok(seen) => {
                    self.own = Some(seen);
                    self.stage = Stage::Restricting;
                    Action::Restrict(
                        EndpointIdentity {
                            path: copy_bytes(&self.path),
                            device: seen.0,
                            inode: seen.1,
                        },
                        PRIVATE_FILE,
                    )
                },
                Err(reason) => self.fail(reason),
            },
            Stage::Restricting => match done(reply) {
                Ok(()) => self.begin_to_join(Purpose::Own),
                Err(reason) => self.fail(reason),
            },
            Stage::Ended => Action::Fail(String::new()),
        }
    }
}

/// An election after several replies, and what it then says to do.
pub open spec fn elected(start: ElectionView, replies: Seq<ReplyView>) -> (
    ElectionView,
    ActionView,
)
    decreases replies.len(),
{
    if replies.len() == 0 {
        (start, ActionView::Create(start.directory, PRIVATE_DIRECTORY))
    } else {
        decide(elected(start, replies.drop_last()).0, replies.last())
    }
}

/// What an election says to do after the first `n` replies.
pub open spec fn action_at(start: ElectionView, replies: Seq<ReplyView>, n: int) -> ActionView {
    elected(start, replies.take(n)).1
}

} // verus!
