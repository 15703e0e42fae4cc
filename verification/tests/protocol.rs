use codex_ide::encoding::{parse, print};
use codex_ide::json::Json;
use codex_ide::protocol::{
    context_request, error, read_frame, success, write_frame, FrameError, FrameReader,
    MAX_FRAME_BYTES, REQUEST_BUDGET_MILLIS,
};

fn json(text: &str) -> Json {
    parse(text.as_bytes()).unwrap()
}

fn text(json: &Json) -> String {
    String::from_utf8(print(json).unwrap()).unwrap()
}

fn request() -> Json {
    json(
        r#"{"type":"request","requestId":"context-1","sourceClientId":"codex-tui",
        "method":"ide-context","version":0,"params":{"workspaceRoot":"/repo"}}"#,
    )
}

fn response() -> Json {
    json(
        r#"{"type":"response","requestId":"context-1","resultType":"success",
        "method":"ide-context","handledByClientId":"zed-provider",
        "result":{"ideContext":{"activeFile":null,"openTabs":[]}}}"#,
    )
}

#[test]
fn fragmented_frames_and_coalesced_frames() {
    let request = request();
    let mut stream = write_frame(&request).unwrap();
    stream.extend(write_frame(&json(r#"{"type":"broadcast"}"#)).unwrap());
    let mut reader = FrameReader::new();
    let mut read = vec![];
    for byte in &stream {
        if let Some(message) = reader.feed(&[*byte]).unwrap() {
            read.push(message);
        }
    }
    assert_eq!(text(&read[0]), text(&request));
    assert_eq!(read[1].str_at("type"), Some("broadcast"));
    assert_eq!(read.len(), 2);
    let (first, size) = read_frame(&stream).unwrap();
    assert_eq!(text(&first), text(&request));
    let (second, rest) = read_frame(&stream[size..]).unwrap();
    assert_eq!(second.str_at("type"), Some("broadcast"));
    assert_eq!(size + rest, stream.len());
}

#[test]
fn rejects_invalid_frames() {
    for bytes in [
        vec![0, 0, 0, 0],
        vec![255, 255, 255, 255],
        vec![1, 0, 0, 0, b'{'],
        vec![5, 0, 0, 0, b'{'],
    ] {
        assert!(read_frame(&bytes).is_err());
    }
}

#[test]
fn pinned_success_envelope() {
    let result = response().copy_at("result");
    assert_eq!(
        text(&success(&request(), "zed-provider", result)),
        text(&response())
    );
    assert!(context_request(&request()));
    let mut future = request();
    future.set("version", Json::integer(1));
    assert!(!context_request(&future));
}

#[test]
fn every_frame_error_has_its_input() {
    assert!(matches!(read_frame(&[]), Err(FrameError::Eof)));
    assert!(matches!(read_frame(&[1, 0, 0]), Err(FrameError::Eof)));
    assert!(matches!(
        read_frame(&[0, 0, 0, 0]),
        Err(FrameError::InvalidLength)
    ));
    // One byte more than 256 MiB.
    assert!(matches!(
        read_frame(&[1, 0, 0, 16]),
        Err(FrameError::InvalidLength)
    ));
    assert!(matches!(
        read_frame(&[0, 0, 0, 16]),
        Err(FrameError::Truncated)
    ));
    assert!(matches!(
        read_frame(&[5, 0, 0, 0, b'{']),
        Err(FrameError::Truncated)
    ));
    assert!(matches!(
        read_frame(&[1, 0, 0, 0, b'{']),
        Err(FrameError::Malformed(_))
    ));
    assert!(matches!(
        read_frame(&[2, 0, 0, 0, b'[', b']']),
        Err(FrameError::InvalidEnvelope)
    ));
    assert!(matches!(
        read_frame(&[2, 0, 0, 0, b'{', b'}']),
        Err(FrameError::InvalidEnvelope)
    ));
    assert_eq!(FrameError::Eof.reason(), Some("early eof"));
    assert_eq!(
        FrameError::InvalidLength.reason(),
        Some("invalid IPC frame length")
    );
    assert_eq!(FrameError::Truncated.reason(), Some("truncated IPC frame"));
    assert_eq!(
        FrameError::InvalidEnvelope.reason(),
        Some("invalid IPC envelope")
    );
    assert_eq!(FrameError::TooLarge.reason(), Some("IPC frame too large"));
}

#[test]
fn a_message_may_just_fill_a_frame() {
    let filler = "x".repeat(MAX_FRAME_BYTES - 2);
    let whole = write_frame(&Json::Str(filler)).unwrap();
    assert_eq!(whole.len(), MAX_FRAME_BYTES + 4);
    assert_eq!(&whole[..4], &[0, 0, 0, 16]);
    drop(whole);
    let filler = "x".repeat(MAX_FRAME_BYTES - 1);
    assert!(matches!(
        write_frame(&Json::Str(filler)),
        Err(FrameError::TooLarge)
    ));
}

#[test]
fn the_header_is_little_endian() {
    let message = Json::Str("y".repeat(298));
    let frame = write_frame(&message).unwrap();
    assert_eq!(&frame[..5], &[44, 1, 0, 0, b'"']);
}

#[test]
fn a_reader_waits_for_what_is_missing_and_starts_again() {
    let frame = write_frame(&request()).unwrap();
    let mut reader = FrameReader::new();
    assert_eq!(REQUEST_BUDGET_MILLIS, 4_000);
    assert!(!reader.started());
    assert_eq!(reader.missing(), 4);
    assert!(reader.feed(&frame[..1]).unwrap().is_none());
    assert!(reader.started());
    assert_eq!(reader.missing(), 3);
    assert!(matches!(reader.finish(), FrameError::Eof));
    assert!(reader.feed(&frame[1..4]).unwrap().is_none());
    assert_eq!(reader.missing(), frame.len() - 4);
    assert!(matches!(reader.finish(), FrameError::Truncated));
    let read = reader.feed(&frame[4..]).unwrap().unwrap();
    assert_eq!(text(&read), text(&request()));
    assert!(!reader.started());
    assert!(matches!(
        reader.feed(&[0, 0, 0, 0]),
        Err(FrameError::InvalidLength)
    ));
    assert!(!reader.started());
}

#[test]
fn what_is_a_context_request() {
    for (good, message) in [
        (true, r#"{"method":"ide-context","params":{"workspaceRoot":"/a"}}"#),
        (true, r#"{"method":"ide-context","hostId":null,"params":{"workspaceRoot":""}}"#),
        (true, r#"{"method":"ide-context","version":0,"params":{"workspaceRoot":"/a"}}"#),
        (false, r#"{"method":"other","version":0,"params":{"workspaceRoot":"/a"}}"#),
        (false, r#"{"method":"ide-context","version":"0","params":{"workspaceRoot":"/a"}}"#),
        (false, r#"{"method":"ide-context","version":null,"params":{"workspaceRoot":"/a"}}"#),
        (false, r#"{"method":"ide-context","version":0.0,"params":{"workspaceRoot":"/a"}}"#),
        (false, r#"{"method":"ide-context","hostId":"h","params":{"workspaceRoot":"/a"}}"#),
        (false, r#"{"method":"ide-context","params":{"workspaceRoot":7}}"#),
        (false, r#"{"method":"ide-context"}"#),
        (false, r#"[]"#),
    ] {
        assert_eq!(context_request(&json(message)), good, "{message}");
    }
}

#[test]
fn errors_answer_under_the_id_of_the_request() {
    assert_eq!(
        text(&error(&request(), "router-busy")),
        r#"{"error":"router-busy","requestId":"context-1","resultType":"error","type":"response"}"#
    );
    assert_eq!(
        text(&error(&json("{}"), "x")),
        r#"{"error":"x","requestId":null,"resultType":"error","type":"response"}"#
    );
}
