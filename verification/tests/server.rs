use codex_ide::encoding::parse;
use codex_ide::json::Json;
use codex_ide::queue::Delivery;
use codex_ide::server::{Server, ServerAction, ServerEvent, ACCEPT_RETRY_MILLIS, MAX_PEERS};
use std::collections::VecDeque;
use tokio::sync::mpsc::{channel, Receiver};

fn json(text: &str) -> Json {
    parse(text.as_bytes()).unwrap()
}

const REGISTER: &str =
    r#"{"type":"request","requestId":"r","method":"initialize","params":{"clientType":"t"}}"#;
const REQUEST: &str = r#"{"type":"request","requestId":"k","method":"ide-context","version":0,"params":{"workspaceRoot":"/repo"}}"#;

fn connect(server: &mut Server, capacity: usize) -> (u64, Receiver<Json>) {
    let (queue, receiver) = channel(capacity);
    assert!(server.has_room());
    (server.accept(queue), receiver)
}

/// The types of the messages that wait.
fn drain(receiver: &mut Receiver<Json>) -> Vec<String> {
    let mut kinds = vec![];
    while let Ok(message) = receiver.try_recv() {
        kinds.push(
            message
                .str_at("error")
                .or(message.str_at("type"))
                .unwrap()
                .to_owned(),
        );
    }
    kinds
}

#[test]
fn messages_reach_their_queues() {
    let mut server = Server::new();
    let (one, mut first) = connect(&mut server, 8);
    let (two, mut second) = connect(&mut server, 8);
    assert_eq!((one, two), (1, 2));
    server.receive(one, json(REGISTER), 0);
    assert_eq!(drain(&mut first), ["response"]);
    server.receive(two, json(REQUEST), 0);
    assert_eq!(drain(&mut first), ["client-discovery-request"]);
    assert!(server.has_pending());
    server.tick(3_999_999_999);
    assert!(drain(&mut second).is_empty());
    server.tick(4_000_000_000);
    assert_eq!(drain(&mut second), ["request-timeout"]);
    assert!(!server.has_pending());
    server.receive(7, json(REGISTER), 0);
    assert!(drain(&mut first).is_empty());
}

#[test]
fn each_queue_gets_its_own_messages_in_order() {
    let mut server = Server::new();
    let (one, mut first) = connect(&mut server, 8);
    let (two, mut second) = connect(&mut server, 8);
    let (three, mut third) = connect(&mut server, 8);
    for peer in [one, two, three] {
        server.receive(peer, json(REGISTER), 0);
    }
    // Each is answered, and told of those who come after it.
    assert_eq!(drain(&mut first), ["response", "broadcast", "broadcast"]);
    assert_eq!(drain(&mut second), ["response", "broadcast"]);
    assert_eq!(drain(&mut third), ["response"]);
    server.receive(three, json(REQUEST), 0);
    let offers: Vec<String> = [&mut first, &mut second]
        .into_iter()
        .map(|queue| queue.try_recv().unwrap().str_at("requestId").unwrap().to_owned())
        .collect();
    assert_ne!(offers[0], offers[1]);
    // Each was given an id of its own: under that of the other, an answer counts for
    // nothing.
    let answer = |id: &str, yes: bool| {
        json(&format!(
            r#"{{"type":"client-discovery-response","requestId":"{id}","response":{{"canHandle":{yes}}}}}"#
        ))
    };
    server.receive(two, answer(&offers[0], true), 0);
    assert!(drain(&mut third).is_empty());
    server.receive(one, answer(&offers[0], false), 0);
    server.receive(two, answer(&offers[1], true), 0);
    assert!(drain(&mut first).is_empty());
    assert_eq!(drain(&mut second), ["request"]);
    assert!(drain(&mut third).is_empty());
    server.receive(three, json(r#"{"type":"broadcast","method":"a"}"#), 0);
    server.receive(three, json(r#"{"type":"broadcast","method":"b"}"#), 0);
    for queue in [&mut first, &mut second] {
        assert_eq!(queue.try_recv().unwrap().str_at("method"), Some("a"));
        assert_eq!(queue.try_recv().unwrap().str_at("method"), Some("b"));
        assert!(queue.try_recv().is_err());
    }
    assert!(drain(&mut third).is_empty());
}

#[test]
fn a_closed_connection_fails_its_requests() {
    let mut server = Server::new();
    let (one, _first) = connect(&mut server, 8);
    let (two, mut second) = connect(&mut server, 8);
    server.receive(one, json(REGISTER), 0);
    server.receive(two, json(REQUEST), 0);
    server.closed(one);
    assert_eq!(drain(&mut second), ["client-disconnected"]);
    assert!(!server.has_pending());
    // A number is not given twice.
    assert_eq!(connect(&mut server, 8).0, 3);
}

#[test]
fn a_slow_connection_is_cut_off_but_misses_a_broadcast() {
    let mut server = Server::new();
    let (one, mut first) = connect(&mut server, 1);
    let (two, mut second) = connect(&mut server, 8);
    server.receive(one, json(REGISTER), 0);
    // The queue of the first is full now; it misses the news of the second.
    server.receive(two, json(REGISTER), 0);
    assert_eq!(drain(&mut first), ["response"]);
    assert_eq!(drain(&mut second), ["response"]);
    server.receive(two, json(r#"{"type":"broadcast"}"#), 0);
    assert_eq!(drain(&mut first), ["broadcast"]);
    server.receive(two, json(r#"{"type":"broadcast"}"#), 0);
    // An offer that does not fit cuts it off, and the second is told of both.
    server.receive(two, json(REQUEST), 0);
    assert_eq!(drain(&mut second), ["broadcast", "client-disconnected"]);
    assert_eq!(drain(&mut first), ["broadcast"]);
    assert!(first.try_recv().is_err());
    server.receive(two, json(REQUEST), 0);
    assert_eq!(drain(&mut second), ["no-client-found"]);
}

#[test]
fn a_dropped_connection_is_cut_off() {
    let mut server = Server::new();
    let (one, first) = connect(&mut server, 8);
    let (two, mut second) = connect(&mut server, 8);
    server.receive(one, json(REGISTER), 0);
    drop(first);
    server.receive(two, json(REGISTER), 0);
    // News that cannot be delivered shows that the first is gone.
    assert_eq!(drain(&mut second), ["response", "broadcast"]);
    server.receive(two, json(REQUEST), 0);
    assert_eq!(drain(&mut second), ["no-client-found"]);
}

#[test]
fn deliveries_are_settled() {
    let broadcast = || json(r#"{"type":"broadcast"}"#);
    for (delivery, stays) in [
        (Delivery::Sent, true),
        (Delivery::Full(broadcast()), true),
        (Delivery::Full(json(REQUEST)), false),
        (Delivery::Closed(broadcast()), false),
    ] {
        let mut server = Server::new();
        let (one, mut first) = connect(&mut server, 8);
        assert!(server.settle(one, delivery).is_empty());
        server.receive(one, json(REGISTER), 0);
        assert_eq!(drain(&mut first).len(), usize::from(stays));
    }
}

#[test]
fn messages_to_no_one_are_passed_over() {
    let mut server = Server::new();
    let (one, _first) = connect(&mut server, 8);
    let mut waiting: VecDeque<(u64, Json)> = [(7, "a"), (one, "b"), (8, "c"), (one, "d"), (9, "e")]
        .into_iter()
        .map(|(peer, text)| (peer, Json::text(text)))
        .collect();
    let (peer, message) = server.next_delivery(&mut waiting).unwrap();
    assert_eq!((peer, message.as_str(), waiting.len()), (one, Some("b"), 3));
    let (peer, message) = server.next_delivery(&mut waiting).unwrap();
    assert_eq!((peer, message.as_str(), waiting.len()), (one, Some("d"), 1));
    assert!(server.next_delivery(&mut waiting).is_none());
    assert!(waiting.is_empty());
}

#[test]
fn connections_are_limited() {
    let mut server = Server::new();
    let mut receivers = vec![];
    for _ in 0..MAX_PEERS {
        receivers.push(connect(&mut server, 1).1);
    }
    assert!(!server.has_room());
    server.closed(5);
    assert!(server.has_room());
}

#[test]
fn a_number_that_is_gone_stays_unused() {
    let mut server = Server::new();
    let (one, mut first) = connect(&mut server, 8);
    server.closed(one);
    let (two, mut second) = connect(&mut server, 8);
    assert_eq!((one, two), (1, 2));
    server.receive(one, json(REGISTER), 0);
    assert!(drain(&mut first).is_empty());
    server.receive(two, json(REGISTER), 0);
    // There is no one else to tell.
    assert_eq!(drain(&mut second), ["response"]);
    server.receive(two, json(REQUEST), 0);
    assert_eq!(drain(&mut second), ["no-client-found"]);
}

#[test]
fn a_server_goes_on_until_its_endpoint_is_replaced() {
    let mut server = Server::new();
    let (queue, mut first) = channel(8);
    assert!(matches!(server.handle(ServerEvent::Accept(queue)), ServerAction::Attend(1)));
    assert!(matches!(
        server.handle(ServerEvent::AcceptFailed),
        ServerAction::Pause(ACCEPT_RETRY_MILLIS)
    ));
    let (queue, mut second) = channel(8);
    assert!(matches!(server.handle(ServerEvent::Accept(queue)), ServerAction::Attend(2)));
    let register = ServerEvent::Message(1, json(REGISTER), 0);
    assert!(matches!(server.handle(register), ServerAction::GoOn));
    assert_eq!(drain(&mut first), ["response"]);
    let request = ServerEvent::Message(2, json(REQUEST), 0);
    assert!(matches!(server.handle(request), ServerAction::GoOn));
    assert!(matches!(server.handle(ServerEvent::Checked(Ok(()))), ServerAction::GoOn));
    assert!(matches!(server.handle(ServerEvent::Tick(4_000_000_000)), ServerAction::GoOn));
    assert_eq!(drain(&mut second), ["request-timeout"]);
    assert!(matches!(server.handle(ServerEvent::Closed(1)), ServerAction::GoOn));
    let replaced = ServerEvent::Checked(Err("Codex IPC endpoint was replaced"));
    assert!(matches!(
        server.handle(replaced),
        ServerAction::End("Codex IPC endpoint was replaced")
    ));
}
