use codex_ide::election::{Action, Election, Reply};
use codex_ide::unix::{
    endpoint, legacy_directory, legacy_endpoints, validate_directory, validate_lock,
    validate_peer, validate_socket, EndpointIdentity, FileFacts, FileKind,
};

const USER: u32 = 501;

fn facts(kind: FileKind, owner: u32, mode: u32) -> FileFacts {
    FileFacts {
        kind,
        owner,
        mode,
        device: 1,
        inode: 0,
    }
}

fn directory() -> FileFacts {
    facts(FileKind::Directory, USER, 0o40700)
}

fn socket(inode: u64) -> FileFacts {
    FileFacts {
        inode,
        ..facts(FileKind::Socket, USER, 0o140600)
    }
}

fn missing() -> Reply {
    Reply::Failed("No such file or directory".to_owned())
}

/// What an action looks like.
fn show(action: &Action) -> String {
    let path = |path: &Vec<u8>| String::from_utf8(path.clone()).unwrap();
    let who = |identity: &EndpointIdentity| format!("{}#{}", path(&identity.path), identity.inode);
    match action {
        Action::Create(at, mode) => format!("create {} {mode:o}", path(at)),
        Action::Inspect(at) => format!("inspect {}", path(at)),
        Action::Connect(at) => format!("connect {}", path(at)),
        Action::Open(at, mode) => format!("open {} {mode:o}", path(at)),
        Action::Lock => "lock".to_owned(),
        Action::Remove(at) => format!("remove {}", path(at)),
        Action::Bind(at) => format!("bind {}", path(at)),
        Action::Restrict(own, mode) => format!("restrict {} {mode:o}", who(own)),
        Action::Join(joined) => format!("join {}", who(joined)),
        Action::Serve(own, joined) => format!("serve {} {}", who(own), who(joined)),
        Action::Fail(reason) => format!("fail {reason}"),
    }
}

/// Plays an election, and gives all its actions.
fn play(replies: Vec<Reply>) -> Vec<String> {
    let (mut election, first) = Election::new(b"/h", b"/tmp/codex-ipc", USER);
    let mut actions = vec![show(&first)];
    for reply in replies {
        actions.push(show(&election.decide(reply)));
    }
    actions
}

/// The replies up to the lock, where no router is found.
fn no_router() -> Vec<Reply> {
    vec![
        Reply::Done,
        Reply::Found(directory()),
        Reply::Found(directory()),
        missing(),
        missing(),
        Reply::Found(facts(FileKind::File, USER, 0o100600)),
        Reply::Done,
        Reply::Found(directory()),
    ]
}

#[test]
fn endpoints_are_where_clients_look() {
    assert_eq!(endpoint(b"/home/me/.codex"), b"/home/me/.codex/ipc/ipc.sock");
    assert_eq!(endpoint(b"/h/"), b"/h/ipc/ipc.sock");
    assert_eq!(endpoint(b""), b"ipc/ipc.sock");
    assert_eq!(legacy_directory(b"/tmp"), b"/tmp/codex-ipc");
    assert_eq!(
        legacy_endpoints(b"/tmp/codex-ipc", 1000),
        vec![b"/tmp/codex-ipc/ipc-1000.sock".to_vec()]
    );
    assert_eq!(
        legacy_endpoints(b"/t", 0),
        vec![b"/t/ipc.sock".to_vec(), b"/t/ipc-0.sock".to_vec()]
    );
}

#[test]
fn a_successor_is_left_alone() {
    let identity = EndpointIdentity {
        path: b"/h/ipc/ipc.sock".to_vec(),
        device: 1,
        inode: 9,
    };
    assert!(identity.is_current(Some(socket(9))));
    assert!(!identity.is_current(Some(socket(8))));
    assert!(!identity.is_current(Some(FileFacts { device: 2, ..socket(9) })));
    assert!(!identity.is_current(None));
    let replaced = Err("Codex IPC endpoint was replaced");
    assert_eq!(identity.require_current(Some(socket(9))), Ok(()));
    assert_eq!(identity.require_current(Some(socket(8))), replaced);
    assert_eq!(identity.require_current(None), replaced);
    assert_eq!(
        identity.unlink_if_current(Some(socket(9))),
        Some(&b"/h/ipc/ipc.sock"[..])
    );
    assert_eq!(identity.unlink_if_current(Some(socket(8))), None);
    assert_eq!(identity.unlink_if_current(None), None);
    assert_eq!(identity.copy().inode, 9);
}

#[test]
fn what_is_trusted() {
    assert!(validate_directory(b"/d", directory(), USER).is_ok());
    assert!(validate_directory(b"/d", facts(FileKind::Directory, USER, 0o40775), USER).is_ok());
    assert_eq!(
        validate_directory(b"/d", facts(FileKind::Directory, USER, 0o40777), USER).unwrap_err(),
        "Codex IPC directory /d (mode 777) must be a directory owned by the current user and not world-writable"
    );
    assert_eq!(
        validate_directory(b"/d", facts(FileKind::Directory, 0, 0o40755), USER).unwrap_err(),
        "Codex IPC directory /d (mode 755) must be a directory owned by the current user and not world-writable"
    );
    assert_eq!(
        validate_directory(&[b'/', 0xff], facts(FileKind::Other, USER, 0o120000), USER).unwrap_err(),
        "Codex IPC directory /\u{fffd} (mode 0) must be a directory owned by the current user and not world-writable"
    );
    assert!(validate_socket(socket(1), USER).is_ok());
    assert_eq!(
        validate_socket(facts(FileKind::File, USER, 0o100600), USER),
        Err("Codex IPC endpoint is not a socket owned by the current user")
    );
    assert!(validate_socket(socket(1), USER + 1).is_err());
    assert!(validate_peer(USER, USER).is_ok());
    assert_eq!(
        validate_peer(0, USER),
        Err("Codex IPC peer belongs to another user")
    );
    assert!(validate_lock(facts(FileKind::File, USER, 0o100600), USER).is_ok());
    for found in [
        facts(FileKind::File, USER, 0o100640),
        facts(FileKind::File, USER, 0o100601),
        facts(FileKind::File, 0, 0o100600),
        facts(FileKind::Directory, USER, 0o40700),
    ] {
        assert_eq!(validate_lock(found, USER), Err("unsafe Codex election lock"));
    }
}

#[test]
fn a_live_router_is_joined() {
    assert_eq!(
        play(vec![
            Reply::Done,
            Reply::Found(directory()),
            Reply::Found(directory()),
            Reply::Found(socket(5)),
            Reply::Connected(USER),
            Reply::Found(socket(5)),
        ]),
        [
            "create /h/ipc 700",
            "inspect /h/ipc",
            "inspect /h/ipc",
            "inspect /h/ipc/ipc.sock",
            "connect /h/ipc/ipc.sock",
            "inspect /h/ipc/ipc.sock",
            "join /h/ipc/ipc.sock#5",
        ]
    );
}

#[test]
fn a_legacy_router_is_joined() {
    assert_eq!(
        play(vec![
            Reply::Done,
            Reply::Found(directory()),
            Reply::Found(directory()),
            missing(),
            Reply::Found(directory()),
            Reply::Found(socket(6)),
            Reply::Connected(USER),
            Reply::Found(socket(6)),
        ])[4..],
        [
            "inspect /tmp/codex-ipc",
            "inspect /tmp/codex-ipc/ipc-501.sock",
            "connect /tmp/codex-ipc/ipc-501.sock",
            "inspect /tmp/codex-ipc/ipc-501.sock",
            "join /tmp/codex-ipc/ipc-501.sock#6",
        ]
    );
}

#[test]
fn without_a_router_this_process_serves() {
    let mut replies = no_router();
    replies.extend([
        missing(),
        missing(),
        Reply::Done,
        Reply::Found(directory()),
        Reply::Found(socket(7)),
        Reply::Done,
        Reply::Found(directory()),
        Reply::Found(socket(7)),
        Reply::Connected(USER),
        Reply::Found(socket(7)),
    ]);
    assert_eq!(
        play(replies)[5..],
        [
            "open /h/ipc/zed-router.lock 600",
            "lock",
            "inspect /h/ipc",
            "inspect /h/ipc/ipc.sock",
            "inspect /h/ipc/ipc.sock",
            "bind /h/ipc/ipc.sock",
            "inspect /h/ipc",
            "inspect /h/ipc/ipc.sock",
            "restrict /h/ipc/ipc.sock#7 600",
            "inspect /h/ipc",
            "inspect /h/ipc/ipc.sock",
            "connect /h/ipc/ipc.sock",
            "inspect /h/ipc/ipc.sock",
            "serve /h/ipc/ipc.sock#7 /h/ipc/ipc.sock#7",
        ]
    );
}

/// The replies up to the connection to a socket that may be stale.
fn perhaps_stale() -> Vec<Reply> {
    let mut replies = no_router();
    replies.extend([
        Reply::Found(socket(3)),
        Reply::Refused("Connection refused".to_owned()),
        Reply::Found(socket(3)),
        Reply::Found(directory()),
        Reply::Found(socket(3)),
    ]);
    replies
}

#[test]
fn only_a_refused_and_unchanged_socket_is_removed() {
    let mut replies = perhaps_stale();
    replies.extend([
        Reply::Refused("Connection refused".to_owned()),
        Reply::Found(directory()),
        Reply::Found(socket(3)),
        Reply::Done,
    ]);
    assert_eq!(
        play(replies)[13..],
        [
            "connect /h/ipc/ipc.sock",
            "inspect /h/ipc",
            "inspect /h/ipc/ipc.sock",
            "remove /h/ipc/ipc.sock",
            "bind /h/ipc/ipc.sock",
        ]
    );

    let mut replies = perhaps_stale();
    replies.push(Reply::Failed("Permission denied".to_owned()));
    assert_eq!(play(replies).pop().unwrap(), "fail Permission denied");

    let mut replies = perhaps_stale();
    replies.extend([
        Reply::Refused("Connection refused".to_owned()),
        Reply::Found(directory()),
        Reply::Found(socket(4)),
    ]);
    assert_eq!(
        play(replies).pop().unwrap(),
        "fail Codex endpoint changed during election"
    );

    let mut replies = perhaps_stale();
    replies.push(Reply::Connected(USER));
    assert_eq!(play(replies).pop().unwrap(), "join /h/ipc/ipc.sock#3");

    let mut replies = perhaps_stale();
    replies.push(Reply::Connected(USER + 1));
    assert_eq!(
        play(replies).pop().unwrap(),
        "fail Codex IPC peer belongs to another user"
    );
}

#[test]
fn files_symlinks_and_insecure_directories_are_refused() {
    for kind in [FileKind::File, FileKind::Other] {
        let mut replies = no_router();
        replies.extend([
            Reply::Found(facts(kind, USER, 0)),
            Reply::Found(facts(kind, USER, 0)),
            Reply::Found(directory()),
            Reply::Found(facts(kind, USER, 0)),
        ]);
        assert_eq!(
            play(replies).pop().unwrap(),
            "fail Codex IPC endpoint is not a socket owned by the current user"
        );
    }
    assert_eq!(
        play(vec![
            Reply::Done,
            Reply::Found(facts(FileKind::Directory, USER, 0o40777)),
        ])
        .pop()
        .unwrap(),
        "fail Codex IPC directory /h/ipc (mode 777) must be a directory owned by the current user and not world-writable"
    );
    assert_eq!(
        play(vec![Reply::Failed("Read-only file system".to_owned())])
            .pop()
            .unwrap(),
        "fail Read-only file system"
    );
}

#[test]
fn a_lost_election_leaves_the_winner() {
    let mut replies = no_router();
    replies.truncate(5);
    replies.extend([
        Reply::Found(facts(FileKind::File, USER, 0o100600)),
        Reply::Failed("would block".to_owned()),
    ]);
    assert_eq!(
        play(replies).pop().unwrap(),
        "fail Codex router election in progress"
    );

    let mut replies = no_router();
    replies.extend([
        missing(),
        missing(),
        Reply::Taken,
        Reply::Found(directory()),
        Reply::Found(socket(8)),
        Reply::Connected(USER),
        Reply::Found(socket(8)),
    ]);
    assert_eq!(play(replies).pop().unwrap(), "join /h/ipc/ipc.sock#8");

    let mut replies = no_router();
    replies.extend([
        missing(),
        missing(),
        Reply::Taken,
        Reply::Found(directory()),
        Reply::Found(socket(8)),
        Reply::Connected(USER),
        Reply::Found(socket(9)),
    ]);
    assert_eq!(
        play(replies).pop().unwrap(),
        "fail Codex endpoint changed during connection"
    );
}

#[test]
fn every_election_ends() {
    // All that can come of an action, in an order that a number picks.
    let replies = |action: &Action, pick: u64| -> Option<Reply> {
        let mut choices = match action {
            Action::Create(..) | Action::Lock | Action::Remove(_) | Action::Restrict(..) => {
                vec![Reply::Done, missing()]
            }
            Action::Inspect(_) => vec![
                Reply::Found(directory()),
                Reply::Found(socket(pick % 2)),
                Reply::Found(facts(FileKind::File, USER, 0o100600)),
                missing(),
            ],
            Action::Open(..) => vec![
                Reply::Found(facts(FileKind::File, USER, 0o100600)),
                missing(),
            ],
            Action::Connect(_) => vec![
                Reply::Connected(USER),
                Reply::Connected(0),
                Reply::Refused("refused".to_owned()),
                missing(),
            ],
            Action::Bind(_) => vec![Reply::Done, Reply::Taken, missing()],
            Action::Join(_) | Action::Serve(..) | Action::Fail(_) => return None,
        };
        let at = pick as usize % choices.len();
        Some(choices.swap_remove(at))
    };
    let mut seed: u64 = 1;
    for user in [0, USER] {
        for _ in 0..20_000 {
            let (mut election, mut action) = Election::new(b"/h", b"/t", user);
            let mut steps = 0;
            loop {
                seed = seed
                    .wrapping_mul(6_364_136_223_846_793_005)
                    .wrapping_add(1_442_695_040_888_963_407);
                match replies(&action, seed >> 33) {
                    Some(reply) => action = election.decide(reply),
                    None => break,
                }
                steps += 1;
                assert!(steps <= 35);
            }
        }
    }
}

/// What processes share that hold elections for one home directory.
#[derive(Default)]
struct Shared {
    holder: Option<usize>,
    /// The socket at the path, with who listens at it.
    socket: Option<(u64, Option<usize>)>,
    bound: u64,
}

impl Shared {
    /// Does what an election of a process says. `None` is its end.
    fn perform(&mut self, who: usize, action: &Action) -> Option<Reply> {
        Some(match action {
            Action::Create(..) => Reply::Done,
            Action::Inspect(at) => match (at.as_slice(), self.socket) {
                (b"/h/ipc", _) => Reply::Found(directory()),
                (b"/h/ipc/ipc.sock", Some((inode, _))) => Reply::Found(socket(inode)),
                _ => missing(),
            },
            Action::Connect(_) => match self.socket {
                Some((_, Some(_))) => Reply::Connected(USER),
                Some((_, None)) => Reply::Refused("refused".to_owned()),
                None => missing(),
            },
            Action::Open(..) => Reply::Found(facts(FileKind::File, USER, 0o100600)),
            Action::Lock => {
                if self.holder.is_some() {
                    return Some(Reply::Failed("would block".to_owned()));
                }
                self.holder = Some(who);
                Reply::Done
            }
            Action::Remove(_) => {
                assert!(matches!(self.socket, Some((_, None))));
                self.socket = None;
                Reply::Done
            }
            Action::Bind(_) => {
                if self.socket.is_some() {
                    return Some(Reply::Taken);
                }
                self.bound += 1;
                self.socket = Some((self.bound, Some(who)));
                Reply::Done
            }
            Action::Restrict(..) => Reply::Done,
            Action::Join(_) | Action::Serve(..) | Action::Fail(_) => {
                if self.holder == Some(who) {
                    self.holder = None;
                }
                return None;
            }
        })
    }
}

#[test]
fn simultaneous_elections_have_one_owner() {
    let mut seed: u64 = 7;
    let mut pick = |n: usize| {
        seed = seed
            .wrapping_mul(6_364_136_223_846_793_005)
            .wrapping_add(1_442_695_040_888_963_407);
        (seed >> 33) as usize % n
    };
    for round in 0..2_000 {
        // Every other round begins with a socket that was left behind.
        let mut shared = Shared {
            socket: (round % 2 == 0).then_some((1_000, None)),
            ..Shared::default()
        };
        let mut running: Vec<(usize, Election, Action)> = (0..3)
            .map(|who| {
                let (election, action) = Election::new(b"/h", b"/t", USER);
                (who, election, action)
            })
            .collect();
        let mut owners = 0;
        while !running.is_empty() {
            let at = pick(running.len());
            let (who, election, action) = &mut running[at];
            match shared.perform(*who, action) {
                Some(reply) => *action = election.decide(reply),
                None => {
                    if let Action::Serve(own, joined) = action {
                        assert_eq!(own.inode, joined.inode);
                        assert_eq!(shared.socket, Some((own.inode, Some(*who))));
                        owners += 1;
                    }
                    if let Action::Join(joined) = action {
                        assert!(matches!(shared.socket, Some((inode, Some(_))) if inode == joined.inode));
                    }
                    running.swap_remove(at);
                }
            }
        }
        assert_eq!(owners, 1);
    }
}
