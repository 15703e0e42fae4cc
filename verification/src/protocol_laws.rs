//! What holds of every frame and of every message, said of bytes and members.
use crate::encoding::{lossless, parsed};
use crate::json::{Json, JsonView};
use crate::names::lemma_member_names;
use crate::protocol::{
    decided, error_view, frame_view, header, is_context_request, is_envelope, is_frame, missing,
    success_view, FrameError, FrameView, MAX_FRAME_BYTES,
};
use vstd::prelude::*;

verus! {

/// A frame begins with four bytes that give the length of what follows, the least
/// significant byte first.
pub proof fn law_header_gives_the_length(text: Seq<u8>)
    requires
        text.len() <= MAX_FRAME_BYTES,
    ensures
        ({
            let frame = header(text.len()) + text;
            &&& frame.len() == 4 + text.len()
            &&& frame[0] + 256 * frame[1] + 65_536 * frame[2] + 16_777_216 * frame[3]
                == frame.len() - 4
            &&& frame.skip(4) == text
        }),
{
    let length = text.len();
    let frame = header(length) + text;
    let low = length % 65_536;
    let high = length / 65_536;
    assert(length == 65_536 * high + low);
    assert(low / 256 == length / 256 % 256);
    assert(low % 256 == length % 256);
    assert(length / 16_777_216 == high / 256);
    assert(frame.skip(4) =~= text);
}

/// What the first frame of a stream holds, byte by byte: the first four bytes say how many
/// bytes follow, the least significant first, and just those are read as a document.
pub proof fn law_frames_are_read_by_their_header(stream: Seq<u8>)
    ensures
        stream.len() < 4 ==> frame_view(stream) is Eof,
        stream.len() >= 4 ==> ({
            let length = stream[0] + 256 * stream[1] + 65_536 * stream[2] + 16_777_216 * stream[3];
            &&& length == 0 || length > 268_435_456 <==> frame_view(stream) is InvalidLength
            &&& 0 < length <= 268_435_456 && stream.len() < 4 + length <==> frame_view(stream)
                is Truncated
            &&& 0 < length <= 268_435_456 && stream.len() >= 4 + length ==> ({
                let payload = stream.subrange(4, 4 + length);
                &&& parsed(payload) is None <==> frame_view(stream) is Malformed
                &&& parsed(payload) matches Some(document) ==> if document
                    matches JsonView::Object(members) && members.contains_key("type"@)
                    && members["type"@] is Str {
                    frame_view(stream) == FrameView::Message(document)
                } else {
                    frame_view(stream) is InvalidEnvelope
                }
            })
        }),
{
}

/// How many bytes a reader still waits for: those of the header, and then as many as the
/// header gives, the least significant byte first. Only then is anything decided, but for
/// a length that no frame may have.
pub proof fn law_readers_wait_for_what_is_announced(received: Seq<u8>)
    ensures
        received.len() < 4 ==> decided(received) is None && missing(received) == 4
            - received.len(),
        received.len() >= 4 ==> ({
            let length = received[0] + 256 * received[1] + 65_536 * received[2] + 16_777_216
                * received[3];
            &&& missing(received) == 4 + length - received.len()
            &&& length == 0 || length > 268_435_456 ==> decided(received) == Some(
                FrameView::InvalidLength,
            )
            &&& 0 < length <= 268_435_456 && received.len() < 4 + length ==> decided(received)
                is None
            &&& 0 < length <= 268_435_456 && received.len() == 4 + length ==> decided(received)
                == Some(frame_view(received))
        }),
{
    if received.len() >= 4 {
        let length = received[0] + 256 * received[1] + 65_536 * received[2] + 16_777_216
            * received[3];
        if received.len() == 4 + length {
            assert(received.subrange(4, 4 + length) =~= received.skip(4));
        }
    }
}

/// A message is an object, and its type is a text.
pub proof fn law_messages_have_a_type(document: JsonView)
    ensures
        is_envelope(document) <==> (document matches JsonView::Object(members)
            && members.contains_key("type"@) && members["type"@] is Str),
{
}

/// A refusal has four members: that it is a response, the id of the request, that it is an
/// error, and the reason.
pub proof fn law_refusals(request: JsonView, reason: Seq<char>)
    ensures
        error_view(request, reason) matches JsonView::Object(members) && {
            &&& members.dom() =~= set!["type"@, "requestId"@, "resultType"@, "error"@]
            &&& members["type"@] == JsonView::Str("response"@)
            &&& members["requestId"@] == request.at("requestId"@)
            &&& members["resultType"@] == JsonView::Str("error"@)
            &&& members["error"@] == JsonView::Str(reason)
        },
{
    lemma_member_names();
}

/// An answer has six members: that it is a response, the id and the method of the request,
/// that it is a success, the client that handled it, and the result.
pub proof fn law_answers(request: JsonView, client: Seq<char>, result: JsonView)
    ensures
        success_view(request, client, result) matches JsonView::Object(members) && {
            &&& members.dom() =~= set![
                "type"@,
                "requestId"@,
                "resultType"@,
                "method"@,
                "handledByClientId"@,
                "result"@,
            ]
            &&& members["type"@] == JsonView::Str("response"@)
            &&& members["requestId"@] == request.at("requestId"@)
            &&& members["resultType"@] == JsonView::Str("success"@)
            &&& members["method"@] == request.at("method"@)
            &&& members["handledByClientId"@] == JsonView::Str(client)
            &&& members["result"@] == result
        },
{
    lemma_member_names();
}

/// A request asks for editor context where its method says so, its version is zero or not
/// given, its host is null or not given, and it names a directory as a text. Nothing else
/// in it matters.
pub proof fn law_context_requests(members: Map<Seq<char>, JsonView>)
    ensures
        is_context_request(JsonView::Object(members)) <==> {
            &&& members.contains_key("method"@) && members["method"@] == JsonView::Str(
                "ide-context"@,
            )
            &&& !members.contains_key("version"@) || members["version"@] == JsonView::Int(0)
            &&& !members.contains_key("hostId"@) || members["hostId"@] is Null
            &&& members.contains_key("params"@) && (members["params"@]
                matches JsonView::Object(params) && params.contains_key("workspaceRoot"@)
                && params["workspaceRoot"@] is Str)
        },
{
}

/// What is no object asks for nothing.
pub proof fn law_only_objects_ask(document: JsonView)
    requires
        !(document is Object),
    ensures
        !is_context_request(document),
        !is_envelope(document),
        document.at("type"@) is Null,
{
}

/// What a reader reports is what the frame holds, each error by its own name.
pub proof fn law_errors_are_told_apart(read: Result<Json, FrameError>, view: FrameView)
    requires
        is_frame(read, view),
    ensures
        view is Eof <==> (read matches Err(error) && error is Eof),
        view is InvalidLength <==> (read matches Err(error) && error is InvalidLength),
        view is Truncated <==> (read matches Err(error) && error is Truncated),
        view is Malformed <==> (read matches Err(error) && error is Malformed),
        view is InvalidEnvelope <==> (read matches Err(error) && error is InvalidEnvelope),
        view is Message <==> read is Ok,
        view matches FrameView::Message(document) ==> (read matches Ok(json) && json@ == document),
{
}

/// Which documents are read back without loss: all but floats, lists and objects are.
pub proof fn law_lossless_documents(b: bool, n: int, text: Seq<char>, depth: nat)
    ensures
        lossless(JsonView::Null, depth),
        lossless(JsonView::Bool(b), depth),
        lossless(JsonView::Int(n), depth),
        lossless(JsonView::Str(text), depth),
{
}

/// A list or an object is, where it may nest at all and all that it holds are, one level
/// less deep.
pub proof fn law_lossless_nesting(document: JsonView, depth: nat)
    ensures
        document matches JsonView::List(items) ==> lossless(document, depth) == (depth > 0
            && forall|i: int|
            0 <= i < items.len() ==> lossless(#[trigger] items[i], (depth - 1) as nat)),
        document matches JsonView::Object(members) ==> lossless(document, depth) == (depth > 0
            && forall|key: Seq<char>|
            members.contains_key(key) ==> lossless(#[trigger] members[key], (depth - 1) as nat)),
        document is Float ==> !lossless(document, depth),
{
}

} // verus!
