use codex_ide::encoding::{parse, print};
use codex_ide::json::Json;
use codex_ide::protocol;
use codex_ide::router::{Outgoing, Peer, Router, MAX_PENDING};

const SECOND: u64 = 1_000_000_000;

fn json(text: &str) -> Json {
    parse(text.as_bytes()).unwrap()
}

fn text(json: &Json) -> String {
    String::from_utf8(print(json).unwrap()).unwrap()
}

fn initialize(router: &mut Router, peer: Peer) -> String {
    let out = router.message(
        peer,
        json(r#"{"type":"request","requestId":"init","method":"initialize","params":{"clientType":"test"}}"#),
        0,
    );
    out.last()
        .unwrap()
        .1
        .get("result")
        .unwrap()
        .str_at("clientId")
        .unwrap()
        .to_owned()
}

fn request() -> Json {
    json(r#"{"type":"request","requestId":"same-id","method":"ide-context","version":0,"params":{"workspaceRoot":"/repo"}}"#)
}

fn answer(router: &mut Router, message: &(Peer, Json), willing: bool) -> Outgoing {
    let mut response = Json::object();
    response.set("canHandle", Json::Bool(willing));
    let mut answer = Json::object();
    answer.set("type", Json::text("client-discovery-response"));
    answer.set("requestId", message.1.copy_at("requestId"));
    answer.set("response", response);
    router.message(message.0, answer, 0)
}

#[test]
fn registration_discovery_forwarding_and_spoof_resistance() {
    let mut r = Router::default();
    let id = initialize(&mut r, 1);
    assert_eq!(initialize(&mut r, 1), id);
    let d = r.message(10, request(), 0);
    let forwarded = answer(&mut r, &d[0], true);
    assert_eq!(forwarded[0].0, 1);
    let response = protocol::success(&forwarded[0].1, &id, json(r#"{"ideContext":{}}"#));
    assert!(r.message(99, response.copy(), 0).is_empty());
    let result = r.message(1, response, 0);
    assert_eq!(result[0].0, 10);
    assert_eq!(result[0].1.str_at("requestId"), Some("same-id"));
}

#[test]
fn duplicate_providers_are_rejected_in_either_order() {
    let mut r = Router::default();
    initialize(&mut r, 1);
    initialize(&mut r, 2);
    let d = r.message(10, request(), 0);
    assert!(answer(&mut r, &d[0], true).is_empty());
    assert_eq!(
        answer(&mut r, &d[1], true)[0].1.str_at("error"),
        Some("ambiguous-ide-provider")
    );
}

#[test]
fn collisions_disconnect_timeout_and_no_provider() {
    let mut r = Router::default();
    assert_eq!(
        r.message(10, request(), 0)[0].1.str_at("error"),
        Some("no-client-found")
    );
    initialize(&mut r, 1);
    let d1 = r.message(10, request(), 0);
    let d2 = r.message(11, request(), 0);
    let f1 = answer(&mut r, &d1[0], true);
    let f2 = answer(&mut r, &d2[0], true);
    assert_ne!(f1[0].1.str_at("requestId"), f2[0].1.str_at("requestId"));
    let expired = r.expire(20 * SECOND);
    assert_eq!(expired.len(), 2);
    let d = r.message(10, request(), 0);
    answer(&mut r, &d[0], true);
    assert!(r
        .disconnect(1)
        .iter()
        .any(|(_, m)| m.says("error", "client-disconnected")));
    assert!(!r.has_pending());
}

#[test]
fn forwards_unknown_methods_and_targeted_broadcasts() {
    let mut r = Router::default();
    initialize(&mut r, 1);
    let target = initialize(&mut r, 2);
    let mut req = request();
    req.set("method", Json::text("future-method"));
    req.set("targetClientId", Json::text(&target));
    let d = r.message(1, req, 0);
    assert_eq!(d.len(), 1);
    assert_eq!(d[0].0, 2);
    assert_eq!(
        answer(&mut r, &d[0], true)[0].1.str_at("method"),
        Some("future-method")
    );
    let mut event =
        json(r#"{"type":"broadcast","method":"future-event","sourceClientId":"spoof"}"#);
    event.set("targetClientIds", Json::list(vec![Json::text(&target)]));
    let out = r.message(1, event, 0);
    assert_eq!(out.len(), 1);
    assert_eq!(out[0].0, 2);
    assert_ne!(out[0].1.str_at("sourceClientId"), Some("spoof"));
}

#[test]
fn nothing_is_pending_at_first() {
    let mut router = Router::default();
    assert!(!router.has_pending());
    assert!(router.message(1, Json::object(), 0).is_empty());
    assert!(router.message(1, json("[]"), 0).is_empty());
    assert!(router
        .message(1, json(r#"{"type":"request","requestId":1,"method":"m"}"#), 0)
        .is_empty());
    assert!(router.expire(u64::MAX).is_empty());
    assert!(router.disconnect(1).is_empty());
}

#[test]
fn identifiers_are_random_and_well_formed() {
    let mut r = Router::default();
    let first = initialize(&mut r, 1);
    let second = initialize(&mut r, 2);
    assert_ne!(first, second);
    for id in [first, second] {
        assert_eq!(id.len(), 36);
        for (i, c) in id.chars().enumerate() {
            match i {
                8 | 13 | 18 | 23 => assert_eq!(c, '-'),
                14 => assert_eq!(c, '4'),
                19 => assert!("89ab".contains(c)),
                _ => assert!(c.is_ascii_digit() || ('a'..='f').contains(&c)),
            }
        }
    }
}

#[test]
fn chosen_identifiers_give_exact_messages() {
    let mut r = Router::default();
    let register = r#"{"type":"request","requestId":"r","method":"initialize","params":{"clientType":"zed"}}"#;
    let ids = |names: &[&str]| names.iter().map(|n| n.to_string()).collect::<Vec<_>>();
    let out = r.handle(7, json(register), 0, ids(&["one"]));
    assert_eq!(out.len(), 1);
    assert_eq!(
        text(&out[0].1),
        r#"{"handledByClientId":"one","method":"initialize","requestId":"r","result":{"clientId":"one"},"resultType":"success","type":"response"}"#
    );
    let out = r.handle(8, json(register), 0, ids(&["two", "unused"]));
    assert_eq!(out.iter().map(|m| m.0).collect::<Vec<_>>(), vec![7, 8]);
    assert_eq!(
        text(&out[0].1),
        r#"{"method":"client-status-changed","params":{"clientId":"two","clientType":"zed","status":"connected"},"sourceClientId":"two","type":"broadcast","version":0}"#
    );
    let out = r.handle(7, request(), 0, ids(&["offer", "key", "unused"]));
    assert_eq!(out.len(), 1);
    assert_eq!(out[0].0, 8);
    assert_eq!(
        text(&out[0].1),
        r#"{"request":{"method":"ide-context","params":{"workspaceRoot":"/repo"},"requestId":"same-id","sourceClientId":"one","type":"request","version":0},"requestId":"offer","type":"client-discovery-request"}"#
    );
    let out = answer(&mut r, &out[0], true);
    assert_eq!(
        text(&out[0].1),
        r#"{"method":"ide-context","params":{"workspaceRoot":"/repo"},"requestId":"key","sourceClientId":"one","type":"request","version":0}"#
    );
    let out = r.message(
        8,
        json(r#"{"type":"response","requestId":"key","resultType":"success","handledByClientId":"liar","result":5}"#),
        0,
    );
    assert_eq!(out.len(), 1);
    assert_eq!(out[0].0, 7);
    assert_eq!(
        text(&out[0].1),
        r#"{"handledByClientId":"two","requestId":"same-id","result":5,"resultType":"success","type":"response"}"#
    );
    let out = r.disconnect(8);
    assert_eq!(out.len(), 1);
    assert_eq!(
        text(&out[0].1),
        r#"{"method":"client-status-changed","params":{"clientId":"two","clientType":"zed","status":"disconnected"},"sourceClientId":"two","type":"broadcast","version":0}"#
    );
}

#[test]
fn registration_needs_a_client_type() {
    let mut r = Router::default();
    let out = r.message(
        1,
        json(r#"{"type":"request","requestId":"r","method":"initialize","params":{}}"#),
        0,
    );
    assert_eq!(out[0].1.str_at("error"), Some("invalid-initialize"));
}

#[test]
fn providers_are_heard_out_before_a_choice() {
    for order in [[0, 1, 2], [0, 2, 1], [1, 0, 2], [1, 2, 0], [2, 0, 1], [2, 1, 0]] {
        for willing in 0..8 {
            let mut r = Router::default();
            for peer in 1..4 {
                initialize(&mut r, peer);
            }
            let d = r.message(10, request(), 0);
            assert_eq!(d.len(), 3);
            assert!(answer(&mut r, &d[order[0]], willing & (1 << order[0]) != 0).is_empty());
            assert!(answer(&mut r, &d[order[1]], willing & (1 << order[1]) != 0).is_empty());
            let out = answer(&mut r, &d[order[2]], willing & (1 << order[2]) != 0);
            assert_eq!(out.len(), 1);
            match [0, 1, 2]
                .iter()
                .filter(|i| willing & (1 << **i) != 0)
                .collect::<Vec<_>>()[..]
            {
                [] => assert_eq!(out[0].1.str_at("error"), Some("no-client-found")),
                [only] => {
                    assert_eq!(out[0].0, d[*only].0);
                    assert_eq!(out[0].1.str_at("method"), Some("ide-context"));
                }
                _ => assert_eq!(out[0].1.str_at("error"), Some("ambiguous-ide-provider")),
            }
        }
    }
}

#[test]
fn other_methods_go_to_the_first_who_is_willing() {
    let mut r = Router::default();
    initialize(&mut r, 1);
    initialize(&mut r, 2);
    let mut other = request();
    other.set("method", Json::text("other"));
    let d = r.message(10, other, 0);
    assert!(answer(&mut r, &d[1], false).is_empty());
    let out = answer(&mut r, &d[0], true);
    assert_eq!(out[0].0, d[0].0);
    // What comes later is not awaited any more.
    assert!(answer(&mut r, &d[1], true).is_empty());
    // An answer from the wrong peer does not count either.
    let d = r.message(10, request(), 0);
    assert!(answer(&mut r, &(d[1].0, d[0].1.copy()), true).is_empty());
}

#[test]
fn deadlines_depend_on_the_request() {
    for (message, millis) in [
        (r#"{"type":"request","requestId":"a","method":"m"}"#, 10_000),
        (r#"{"type":"request","requestId":"a","method":"m","timeoutMs":0}"#, 1),
        (r#"{"type":"request","requestId":"a","method":"m","timeoutMs":250}"#, 250),
        (r#"{"type":"request","requestId":"a","method":"m","timeoutMs":70000}"#, 60_000),
        (r#"{"type":"request","requestId":"a","method":"m","timeoutMs":-5}"#, 10_000),
        (r#"{"type":"request","requestId":"a","method":"ide-context","timeoutMs":9}"#, 4_000),
    ] {
        let mut r = Router::default();
        initialize(&mut r, 1);
        assert_eq!(r.message(10, json(message), 5 * SECOND).len(), 1);
        let due = 5 * SECOND + millis * 1_000_000;
        assert!(r.expire(due - 1).is_empty(), "{message}");
        let out = r.expire(due);
        assert_eq!(out.len(), 1);
        assert_eq!(out[0].0, 10);
        assert_eq!(
            text(&out[0].1),
            r#"{"error":"request-timeout","requestId":"a","resultType":"error","type":"response"}"#
        );
        assert!(!r.has_pending());
    }
}

#[test]
fn requests_beyond_the_limit_are_refused() {
    let mut r = Router::default();
    initialize(&mut r, 1);
    for _ in 0..MAX_PENDING {
        assert_eq!(r.message(10, request(), 0)[0].0, 1);
    }
    let out = r.message(10, request(), 0);
    assert_eq!(out.len(), 1);
    assert_eq!(out[0].0, 10);
    assert_eq!(out[0].1.str_at("error"), Some("router-busy"));
    // A registration is not a request under way.
    initialize(&mut r, 2);
    assert_eq!(r.expire(4 * SECOND).len(), MAX_PENDING);
    assert_eq!(r.message(10, request(), 0).len(), 2);
}

#[test]
fn who_asks_and_leaves_is_forgotten() {
    let mut r = Router::default();
    initialize(&mut r, 1);
    let d = r.message(10, request(), 0);
    assert!(r.disconnect(10).is_empty());
    assert!(!r.has_pending());
    assert!(answer(&mut r, &d[0], true).is_empty());
}

#[test]
fn broadcasts_spare_their_sender() {
    let mut r = Router::default();
    for peer in 1..4 {
        initialize(&mut r, peer);
    }
    let out = r.message(2, json(r#"{"type":"broadcast","method":"m"}"#), 0);
    assert_eq!(out.iter().map(|m| m.0).collect::<Vec<_>>(), vec![1, 3]);
    assert_eq!(text(&out[0].1), text(&out[1].1));
    let out = r.message(2, json(r#"{"type":"broadcast","targetClientIds":[]}"#), 0);
    assert!(out.is_empty());
    let out = r.message(9, json(r#"{"type":"broadcast","sourceClientId":"me"}"#), 0);
    assert_eq!(out.len(), 3);
    assert_eq!(out[0].1.str_at("sourceClientId"), Some("me"));
}
