//! The native IPC protocol: frames and message envelopes.
//!
//! A frame is a four-byte little-endian length followed by that many bytes of
//! JSON text. Every message is an object whose `type` is a string.
use crate::encoding::{lossless, parse, parsed, print, printed};
use crate::json::{empty_object, Json, JsonView};
use vstd::prelude::*;

verus! {

/// How long the rest of a frame, a write, or an IDE request may take.
pub const REQUEST_BUDGET_MILLIS: u64 = 4_000;

/// The longest payload that a frame may carry.
pub const MAX_FRAME_BYTES: usize = 256 * 1024 * 1024;

/// Why no message came out of a frame, or no frame out of a message.
#[derive(Debug)]
pub enum FrameError {
    /// The stream ended inside the header.
    Eof,
    /// The header announces an empty or an oversized payload.
    InvalidLength,
    /// The stream ended inside the payload.
    Truncated,
    /// The payload is no JSON text.
    Malformed(serde_json::Error),
    /// The payload is no object with a `type`.
    InvalidEnvelope,
    /// The message has no JSON text.
    Unprintable(serde_json::Error),
    /// The message's text is longer than a frame may carry.
    TooLarge,
}

impl FrameError {
    /// What to report, except where `serde_json` gave the reason.
    pub fn reason(&self) -> (text: Option<&'static str>)
        ensures
            match self {
                FrameError::Eof => text matches Some(t) && t@ == "early eof"@,
                FrameError::InvalidLength => text matches Some(t) && t@
                    == "invalid IPC frame length"@,
                FrameError::Truncated => text matches Some(t) && t@ == "truncated IPC frame"@,
                FrameError::InvalidEnvelope => text matches Some(t) && t@
                    == "invalid IPC envelope"@,
                FrameError::TooLarge => text matches Some(t) && t@ == "IPC frame too large"@,
                FrameError::Malformed(_) | FrameError::Unprintable(_) => text is None,
            },
    {
        match self {
            FrameError::Eof => Some("early eof"),
            FrameError::InvalidLength => Some("invalid IPC frame length"),
            FrameError::Truncated => Some("truncated IPC frame"),
            FrameError::InvalidEnvelope => Some("invalid IPC envelope"),
            FrameError::TooLarge => Some("IPC frame too large"),
            FrameError::Malformed(_) => None,
            FrameError::Unprintable(_) => None,
        }
    }
}

/// What a stretch of bytes holds, read as the start of a stream that then ends.
pub enum FrameView {
    Eof,
    InvalidLength,
    Truncated,
    Malformed,
    InvalidEnvelope,
    Message(JsonView),
}

/// The payload length that a header announces.
pub open spec fn announced(header: Seq<u8>) -> nat {
    (header[0] + 256 * header[1] + 65_536 * header[2] + 16_777_216 * header[3]) as nat
}

/// The header that announces a payload of `length` bytes.
pub open spec fn header(length: nat) -> Seq<u8> {
    seq![
        (length % 256) as u8,
        (length / 256 % 256) as u8,
        (length / 65_536 % 256) as u8,
        (length / 16_777_216 % 256) as u8,
    ]
}

/// Whether a frame may carry a payload of `length` bytes.
pub open spec fn valid_length(length: nat) -> bool {
    0 < length <= MAX_FRAME_BYTES
}

/// Whether a document is a message.
pub open spec fn is_envelope(document: JsonView) -> bool {
    document is Object && document.at("type"@) is Str
}

/// What a whole payload holds.
pub open spec fn payload_view(payload: Seq<u8>) -> FrameView {
    match parsed(payload) {
        None => FrameView::Malformed,
        Some(document) => if is_envelope(document) {
            FrameView::Message(document)
        } else {
            FrameView::InvalidEnvelope
        },
    }
}

/// What the first frame of a stream holds.
pub open spec fn frame_view(stream: Seq<u8>) -> FrameView {
    if stream.len() < 4 {
        FrameView::Eof
    } else if !valid_length(announced(stream)) {
        FrameView::InvalidLength
    } else if stream.len() < 4 + announced(stream) {
        FrameView::Truncated
    } else {
        payload_view(stream.subrange(4, 4 + announced(stream) as int))
    }
}

/// Whether an exec result stands for a frame's view.
pub open spec fn is_frame(read: Result<Json, FrameError>, view: FrameView) -> bool {
    match (read, view) {
        (Ok(json), FrameView::Message(document)) => json@ == document,
        (Err(FrameError::Eof), FrameView::Eof) => true,
        (Err(FrameError::InvalidLength), FrameView::InvalidLength) => true,
        (Err(FrameError::Truncated), FrameView::Truncated) => true,
        (Err(FrameError::Malformed(_)), FrameView::Malformed) => true,
        (Err(FrameError::InvalidEnvelope), FrameView::InvalidEnvelope) => true,
        _ => false,
    }
}

proof fn lemma_header(length: nat)
    requires
        length < 4_294_967_296,
    ensures
        header(length).len() == 4,
        announced(header(length)) == length,
{
    let low = length % 65_536;
    let high = length / 65_536;
    assert(length == 65_536 * high + low);
    assert(low / 256 == length / 256 % 256);
    assert(low % 256 == length % 256);
    assert(length / 16_777_216 == high / 256);
    assert(high < 65_536);
}

/// Reads the payload of a frame.
fn read_payload(payload: &[u8]) -> (read: Result<Json, FrameError>)
    ensures
        is_frame(read, payload_view(payload@)),
{
    match parse(payload) {
        Err(error) => Err(FrameError::Malformed(error)),
        Ok(json) => {
            if !json.is_object() || json.str_at("type").is_none() {
                Err(FrameError::InvalidEnvelope)
            } else {
                Ok(json)
            }
        },
    }
}

/// The payload length that a header announces.
fn announced_length(header: &[u8]) -> (length: usize)
    requires
        header@.len() >= 4,
    ensures
        length == announced(header@),
{
    (header[0] as u32 + 256 * header[1] as u32 + 65_536 * header[2] as u32 + 16_777_216
        * header[3] as u32) as usize
}

/// Reads the first frame of a stream of which all bytes have arrived. The second
/// component is the number of bytes that the frame takes up.
pub fn read_frame(stream: &[u8]) -> (read: Result<(Json, usize), FrameError>)
    ensures
        match read {
            Ok((json, size)) => {
                &&& is_frame(Ok(json), frame_view(stream@))
                &&& size == 4 + announced(stream@)
                &&& size == 4 + stream@[0] + 256 * stream@[1] + 65_536 * stream@[2] + 16_777_216
                    * stream@[3]
            },
            Err(error) => is_frame(Err(error), frame_view(stream@)),
        },
{
    if stream.len() < 4 {
        return Err(FrameError::Eof);
    }
    let length: usize = announced_length(stream);
    if length == 0 || length > MAX_FRAME_BYTES {
        return Err(FrameError::InvalidLength);
    }
    if stream.len() - 4 < length {
        return Err(FrameError::Truncated);
    }
    let payload: &[u8] = &stream[4..4 + length];
    match read_payload(payload) {
        Ok(json) => Ok((json, 4 + length)),
        Err(error) => Err(error),
    }
}

/// The frame that carries a message. A message without floats that nests at most
/// 127 deep is what [`read_frame`] finds at the start of any stream that starts
/// with the frame.
pub fn write_frame(message: &Json) -> (written: Result<Vec<u8>, FrameError>)
    ensures
        match printed(message@) {
            None => written is Err && written->Err_0 is Unprintable,
            Some(text) => if text.len() > MAX_FRAME_BYTES {
                written is Err && written->Err_0 is TooLarge
            } else {
                written matches Ok(frame) && frame@ == header(text.len()) + text
            },
        },
        written matches Ok(frame) ==> frame@.len() >= 4 && frame@[0] + 256 * frame@[1] + 65_536
            * frame@[2] + 16_777_216 * frame@[3] == frame@.len() - 4,
        written matches Ok(frame) ==> (is_envelope(message@) && lossless(message@, 127)
            ==> forall|rest: Seq<u8>|
            frame_view(#[trigger] (frame@ + rest)) == FrameView::Message(message@) && 4
                + announced(frame@ + rest) == frame@.len()),
{
    let text: Vec<u8> = match print(message) {
        Ok(text) => text,
        Err(error) => return Err(FrameError::Unprintable(error)),
    };
    if text.len() > MAX_FRAME_BYTES {
        return Err(FrameError::TooLarge);
    }
    let length: u32 = text.len() as u32;
    let ghost body = text@;
    let mut frame: Vec<u8> = Vec::new();
    frame.push((length % 256) as u8);
    frame.push((length / 256 % 256) as u8);
    frame.push((length / 65_536 % 256) as u8);
    frame.push((length / 16_777_216 % 256) as u8);
    assert(frame@ =~= header(length as nat));
    let mut text = text;
    frame.append(&mut text);
    proof {
        lemma_header(length as nat);
        assert forall|rest: Seq<u8>| is_envelope(message@) && lossless(message@, 127) implies {
            &&& frame_view(#[trigger] (frame@ + rest)) == FrameView::Message(message@)
            &&& 4 + announced(frame@ + rest) == frame@.len()
        } by {
            let stream = frame@ + rest;
            assert(announced(stream) == announced(header(length as nat)));
            assert(stream.subrange(4, 4 + length as int) =~= body);
        }
    }
    Ok(frame)
}

/// What the bytes of a frame that have arrived so far decide about it; nothing
/// while more are to come.
pub open spec fn decided(received: Seq<u8>) -> Option<FrameView> {
    if received.len() < 4 {
        None
    } else if !valid_length(announced(received)) {
        Some(FrameView::InvalidLength)
    } else if received.len() < 4 + announced(received) {
        None
    } else {
        Some(payload_view(received.skip(4)))
    }
}

/// How many bytes are missing of the header or, once that is there, of the frame.
pub open spec fn missing(received: Seq<u8>) -> int {
    if received.len() < 4 {
        4 - received.len()
    } else {
        4 + announced(received) - received.len()
    }
}

/// A frame of which the bytes arrive in pieces. The payload is stored as it comes:
/// nothing is set aside for what a header announces.
pub struct FrameReader {
    received: Vec<u8>,
}

impl View for FrameReader {
    type V = Seq<u8>;

    closed spec fn view(&self) -> Seq<u8> {
        self.received@
    }
}

impl FrameReader {
    /// A reader to which nothing has come yet.
    pub fn new() -> (reader: FrameReader)
        ensures
            reader@ == Seq::<u8>::empty(),
    {
        FrameReader { received: Vec::new() }
    }

    /// Whether a frame has started, so that the rest of it is due.
    pub fn started(&self) -> (yes: bool)
        ensures
            yes == (self@.len() > 0),
    {
        self.received.len() > 0
    }

    /// How many bytes the next piece may have.
    pub fn missing(&self) -> (count: usize)
        requires
            decided(self@) is None,
        ensures
            count == missing(self@),
            count > 0,
    {
        if self.received.len() < 4 {
            4 - self.received.len()
        } else {
            4 + announced_length(self.received.as_slice()) - self.received.len()
        }
    }

    /// Takes the next piece. Once a frame is decided, the reader is ready for
    /// another one.
    pub fn feed(&mut self, piece: &[u8]) -> (read: Result<Option<Json>, FrameError>)
        requires
            decided(old(self)@) is None,
            piece@.len() <= missing(old(self)@),
        ensures
            decided(final(self)@) is None,
            match decided(old(self)@ + piece@) {
                None => read == Ok::<Option<Json>, FrameError>(None) && final(self)@ == old(self)@
                    + piece@,
                Some(view) => final(self)@ == Seq::<u8>::empty() && match read {
                    Ok(Some(json)) => is_frame(Ok(json), view),
                    Ok(None) => false,
                    Err(error) => is_frame(Err(error), view),
                },
            },
    {
        let ghost before = self.received@;
        let n: usize = piece.len();
        for i in 0..n
            invariant
                n == piece@.len(),
                self.received@ == before + piece@.take(i as int),
        {
            self.received.push(piece[i]);
            assert(piece@.take(i as int + 1) =~= piece@.take(i as int).push(piece@[i as int]));
        }
        assert(piece@.take(n as int) =~= piece@);
        if self.received.len() < 4 {
            return Ok(None);
        }
        let length: usize = announced_length(self.received.as_slice());
        if length == 0 || length > MAX_FRAME_BYTES {
            self.received = Vec::new();
            return Err(FrameError::InvalidLength);
        }
        if self.received.len() < 4 + length {
            return Ok(None);
        }
        let frame: &[u8] = self.received.as_slice();
        let payload: &[u8] = &frame[4..frame.len()];
        assert(payload@ =~= self.received@.skip(4));
        let read = read_payload(payload);
        self.received = Vec::new();
        match read {
            Ok(json) => Ok(Some(json)),
            Err(error) => Err(error),
        }
    }

    /// What it means that the stream ends here.
    pub fn finish(&self) -> (error: FrameError)
        requires
            decided(self@) is None,
        ensures
            is_frame(Err(error), frame_view(self@)),
    {
        if self.received.len() < 4 {
            FrameError::Eof
        } else {
            FrameError::Truncated
        }
    }
}

/// Whether these are all the bytes that a reader takes for one frame.
pub open spec fn whole_frame(frame: Seq<u8>) -> bool {
    frame.len() >= 4 && frame.len() == 4 + (if valid_length(announced(frame)) {
        announced(frame)
    } else {
        0
    })
}

/// However the bytes of a frame are cut into pieces, nothing is decided before the
/// last byte, every piece fits what is missing, and the last byte decides.
pub proof fn law_fragments(frame: Seq<u8>, received: int, piece: int)
    requires
        whole_frame(frame),
        0 <= received < frame.len(),
        0 < piece <= missing(frame.take(received)),
    ensures
        decided(frame.take(received)) is None,
        decided(frame) is Some,
        received + piece <= frame.len(),
        frame.take(received) + frame.subrange(received, received + piece) == frame.take(
            received + piece,
        ),
{
    let head = frame.take(received);
    if received >= 4 {
        assert(announced(head) == announced(frame));
    }
    assert(frame.take(received) + frame.subrange(received, received + piece) =~= frame.take(
        received + piece,
    ));
}

/// What the bytes of a frame decide is what the stream holds that starts with them,
/// whatever follows: a connection can carry several frames.
pub proof fn law_frames_in_a_row(frame: Seq<u8>, rest: Seq<u8>)
    requires
        whole_frame(frame),
    ensures
        decided(frame) == Some(frame_view(frame + rest)),
{
    let stream = frame + rest;
    assert(announced(stream) == announced(frame));
    if valid_length(announced(frame)) {
        assert(stream.subrange(4, 4 + announced(stream) as int) =~= frame.skip(4));
    }
}

/// What is written is read: the frame of a text that stands for a message is a whole
/// frame, whose last byte decides for that message, whatever follows it in the stream.
pub proof fn law_written_frames_are_read(text: Seq<u8>, message: JsonView, rest: Seq<u8>)
    requires
        valid_length(text.len()),
        parsed(text) == Some(message),
        is_envelope(message),
    ensures
        whole_frame(header(text.len()) + text),
        decided(header(text.len()) + text) == Some(FrameView::Message(message)),
        frame_view(header(text.len()) + text + rest) == FrameView::Message(message),
{
    let frame = header(text.len()) + text;
    lemma_header(text.len());
    assert(announced(frame) == announced(header(text.len())));
    assert(frame.skip(4) =~= text);
    law_frames_in_a_row(frame, rest);
}

/// The answer that refuses a request.
pub open spec fn error_view(request: JsonView, reason: Seq<char>) -> JsonView {
    empty_object().with("type"@, JsonView::Str("response"@)).with(
        "requestId"@,
        request.at("requestId"@),
    ).with("resultType"@, JsonView::Str("error"@)).with("error"@, JsonView::Str(reason))
}

/// The answer that grants a request.
pub open spec fn success_view(request: JsonView, client: Seq<char>, result: JsonView) -> JsonView {
    empty_object().with("type"@, JsonView::Str("response"@)).with(
        "requestId"@,
        request.at("requestId"@),
    ).with("resultType"@, JsonView::Str("success"@)).with("method"@, request.at("method"@)).with(
        "handledByClientId"@,
        JsonView::Str(client),
    ).with("result"@, result)
}

/// The answer that refuses a request.
pub fn error(request: &Json, reason: &str) -> (answer: Json)
    ensures
        answer@ == error_view(request@, reason@),
{
    let mut answer = Json::object();
    answer.set("type", Json::text("response"));
    answer.set("requestId", request.copy_at("requestId"));
    answer.set("resultType", Json::text("error"));
    answer.set("error", Json::text(reason));
    answer
}

/// The answer that grants a request.
pub fn success(request: &Json, client: &str, result: Json) -> (answer: Json)
    ensures
        answer@ == success_view(request@, client@, result@),
{
    let mut answer = Json::object();
    answer.set("type", Json::text("response"));
    answer.set("requestId", request.copy_at("requestId"));
    answer.set("resultType", Json::text("success"));
    answer.set("method", request.copy_at("method"));
    answer.set("handledByClientId", Json::text(client));
    answer.set("result", result);
    answer
}

/// Whether a request asks for editor context in the version that is spoken here.
pub open spec fn is_context_request(request: JsonView) -> bool {
    &&& request.at("method"@) == JsonView::Str("ide-context"@)
    &&& request.has("version"@) ==> request.at("version"@) == JsonView::Int(0)
    &&& request.has("hostId"@) ==> request.at("hostId"@) == JsonView::Null
    &&& request.at("params"@).at("workspaceRoot"@) is Str
}

/// Whether a request asks for editor context in the version that is spoken here.
pub fn context_request(request: &Json) -> (yes: bool)
    ensures
        yes == is_context_request(request@),
{
    if !request.says("method", "ide-context") {
        return false;
    }
    if let Some(version) = request.get("version") {
        match version.as_u64() {
            Some(0) => {},
            _ => return false,
        }
    }
    if let Some(host) = request.get("hostId") {
        match host {
            Json::Null => {},
            _ => return false,
        }
    }
    match request.get("params") {
        Some(params) => params.str_at("workspaceRoot").is_some(),
        None => false,
    }
}

} // verus!
