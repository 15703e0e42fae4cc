use codex_ide::windows::{
    endpoint, owner_words, security_descriptor, EndpointIdentity, PipeAction, PipeElection,
};

#[test]
fn the_pipe_is_fixed() {
    assert_eq!(endpoint(b"C:\\anywhere"), br"\\.\pipe\codex-ipc");
    assert_eq!(EndpointIdentity.unlink_if_current(), None);
}

#[test]
fn access_is_for_one_user() {
    let expected: Vec<u16> = "D:P(A;;GA;;;S-1-5-21-7)"
        .encode_utf16()
        .chain(Some(0))
        .collect();
    assert_eq!(security_descriptor("S-1-5-21-7"), expected);
    let expected: Vec<u16> = "D:P(A;;GA;;;\u{e9}\u{1f600})"
        .encode_utf16()
        .chain(Some(0))
        .collect();
    assert_eq!(security_descriptor("\u{e9}\u{1f600}"), expected);
}

#[test]
fn owners_are_read_in_whole_words() {
    assert_eq!(owner_words(0, 8), Err("cannot read IPC process owner"));
    assert_eq!(owner_words(1, 8), Ok(1));
    assert_eq!(owner_words(8, 8), Ok(1));
    assert_eq!(owner_words(9, 8), Ok(2));
    assert_eq!(owner_words(44, 8), Ok(6));
    assert_eq!(owner_words(44, 4), Ok(11));
    assert_eq!(owner_words(u32::MAX, 1), Ok(u32::MAX as usize));
}

#[test]
fn no_pipe_is_taken_over() {
    let (mut election, action) = PipeElection::new();
    assert!(matches!(action, PipeAction::Connect));
    assert!(matches!(election.decide(None), PipeAction::Join));

    let (mut election, _) = PipeElection::new();
    assert!(matches!(
        election.decide(Some("not found".to_owned())),
        PipeAction::CreateFirst
    ));
    assert!(matches!(election.decide(None), PipeAction::Connect));
    assert!(matches!(election.decide(None), PipeAction::Serve));

    let (mut election, _) = PipeElection::new();
    election.decide(Some("busy".to_owned()));
    assert!(matches!(
        election.decide(Some("access denied".to_owned())),
        PipeAction::Fail(reason) if reason == "access denied"
    ));

    let (mut election, _) = PipeElection::new();
    election.decide(Some("not found".to_owned()));
    election.decide(None);
    assert!(matches!(
        election.decide(Some("other user".to_owned())),
        PipeAction::Fail(reason) if reason == "other user"
    ));
}
