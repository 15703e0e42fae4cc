use codex_ide::encoding::{parse, print};
use codex_ide::json::Json;

fn round(text: &str) -> String {
    String::from_utf8(print(&parse(text.as_bytes()).unwrap()).unwrap()).unwrap()
}

#[test]
fn documents_are_read_and_written() {
    assert_eq!(
        round(r#" {"b":[1,-2,true,null,"x\n\u00e9"], "a":{"c":18446744073709551615}} "#),
        "{\"a\":{\"c\":18446744073709551615},\"b\":[1,-2,true,null,\"x\\n\u{e9}\"]}"
    );
    assert_eq!(round("1.5"), "1.5");
    assert_eq!(round("-9223372036854775808"), "-9223372036854775808");
}

#[test]
fn the_later_member_counts() {
    let document = parse(br#"{"a":1,"a":2}"#).unwrap();
    assert_eq!(document.get("a").unwrap().as_u64(), Some(2));
    let twice = Json::Object(vec![
        ("a".to_owned(), Json::integer(1)),
        ("a".to_owned(), Json::integer(2)),
    ]);
    assert_eq!(twice.get("a").unwrap().as_u64(), Some(2));
    assert_eq!(print(&twice).unwrap(), br#"{"a":2}"#);
}

#[test]
fn what_is_no_document_is_refused() {
    for text in ["", "{", "[1,]", "nul", "\"", "1 2", "\u{feff}{}"] {
        assert!(parse(text.as_bytes()).is_err(), "{text}");
    }
    assert!(parse(&[b'"', 0xff, b'"']).is_err());
}

#[test]
fn nesting_is_read_up_to_a_limit() {
    let deep = |n: usize| format!("{}{}", "[".repeat(n), "]".repeat(n));
    assert_eq!(round(&deep(127)), deep(127));
    assert!(parse(deep(128).as_bytes()).is_err());
}

#[test]
fn members_are_set_and_found() {
    let mut object = Json::object();
    assert!(object.is_object());
    assert!(object.get("a").is_none());
    object.set("a", Json::text("x"));
    object.set("b", Json::Bool(true));
    object.set("a", Json::text("y"));
    assert_eq!(object.str_at("a"), Some("y"));
    assert!(object.says("a", "y"));
    assert!(!object.says("a", "x"));
    assert!(!object.says("b", "true"));
    assert_eq!(object.str_at("b"), None);
    assert_eq!(print(&object.copy_at("c")).unwrap(), b"null");
    let mut list = Json::list(vec![Json::integer(7)]);
    list.set("a", Json::Null);
    assert_eq!(print(&list).unwrap(), b"[7]");
    assert!(!list.is_object());
}

#[test]
fn integers_are_told_from_other_numbers() {
    for (text, number) in [
        ("0", Some(0)),
        ("18446744073709551615", Some(u64::MAX)),
        ("-1", None),
        ("1.0", None),
        ("18446744073709551616", None),
        ("\"1\"", None),
    ] {
        assert_eq!(parse(text.as_bytes()).unwrap().as_u64(), number, "{text}");
    }
}
