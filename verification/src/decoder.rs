//! Frame decoding: one delimiter-bounded frame becomes one semantic event.
//!
//! Two wire shapes are understood.  A frame starting with the `data: `
//! prefix carries either the done sentinel or a JSON object whose
//! `choices[0].delta.content` field is the next text fragment (absent means
//! an empty fragment).  A frame without the prefix is a plain JSON object:
//! an `error` field is a backend-reported failure, a `status` field a
//! status line, anything else an unknown shape.  Decoding is frame-local
//! and side-effect-free.

use vstd::prelude::*;

use vstd::slice::slice_to_vec;

use crate::token::vec_slice_copy;

verus! {

/// One decoded event.
#[derive(Debug, PartialEq, Eq)]
pub enum ResponseEvent {
    /// The next fragment of generated text.
    Message { fragment: String },
    /// A backend status line.
    Status { text: String },
    /// The stream is over.
    Done,
}

/// Why a frame could not be decoded.  Every decode failure ends the
/// session; the backend's own words are carried where it reported them.
#[derive(Debug, PartialEq, Eq)]
pub enum DecodeError {
    /// The frame is not a JSON object.
    NotJson,
    /// The backend reported an error, quoted verbatim.
    Backend { etype: String, code: String, message: String },
    /// The frame has a `status` field that is not a string.
    StatusNotString,
    /// The frame is a JSON object of no known shape.
    UnknownFormat,
    /// A `data: ` frame whose body does not parse.
    MalformedData,
}

/// The `data: ` prefix of a streamed frame.
pub open spec fn sse_prefix() -> Seq<u8> {
    seq!['d' as u8, 'a' as u8, 't' as u8, 'a' as u8, ':' as u8, ' ' as u8]
}

/// The `[DONE]` sentinel.
pub open spec fn done_sentinel() -> Seq<u8> {
    seq!['[' as u8, 'D' as u8, 'O' as u8, 'N' as u8, 'E' as u8, ']' as u8]
}

/// `s` begins with `p`.
pub open spec fn starts_with_bytes(s: Seq<u8>, p: Seq<u8>) -> bool {
    p.len() <= s.len() && s.subrange(0, p.len() as int) == p
}

/// The frame carries the streamed-data prefix.
pub open spec fn is_sse(f: Seq<u8>) -> bool {
    starts_with_bytes(f, sse_prefix())
}

/// The frame body after the streamed-data prefix.
pub open spec fn sse_body(f: Seq<u8>) -> Seq<u8> {
    f.skip(sse_prefix().len() as int)
}

/// The frame announces the end of the stream.
pub open spec fn is_done_frame(f: Seq<u8>) -> bool {
    is_sse(f) && starts_with_bytes(sse_body(f), done_sentinel())
}

/// `v` begins with `p`, executably.
fn starts_with_vec(v: &Vec<u8>, p: &Vec<u8>) -> (r: bool)
    ensures
        r == starts_with_bytes(v@, p@),
{
    if p.len() > v.len() {
        return false;
    }
    let mut i: usize = 0;
    while i < p.len()
        invariant
            p@.len() <= v@.len(),
            0 <= i <= p@.len(),
            forall|j: int| 0 <= j < i ==> v@[j] == p@[j],
        decreases p@.len() - i,
    {
        if v[i] != p[i] {
            proof {
                assert(v@.subrange(0, p@.len() as int)[i as int] != p@[i as int]);
            }
            return false;
        }
        i += 1;
    }
    proof {
        assert(v@.subrange(0, p@.len() as int) =~= p@);
    }
    true
}

/// The streamed-data prefix as bytes.
fn sse_prefix_vec() -> (r: Vec<u8>)
    ensures
        r@ == sse_prefix(),
{
    let mut r: Vec<u8> = Vec::new();
    r.push(100);
    r.push(97);
    r.push(116);
    r.push(97);
    r.push(58);
    r.push(32);
    proof {
        assert(r@ =~= sse_prefix());
    }
    r
}

/// The done sentinel as bytes.
fn done_sentinel_vec() -> (r: Vec<u8>)
    ensures
        r@ == done_sentinel(),
{
    let mut r: Vec<u8> = Vec::new();
    r.push(91);
    r.push(68);
    r.push(79);
    r.push(78);
    r.push(69);
    r.push(93);
    proof {
        assert(r@ =~= done_sentinel());
    }
    r
}

/// Whether the bytes parse as a JSON document.  The parse depends on the
/// bytes alone, so its outcome can be named.
pub uninterp spec fn json_parses(b: Seq<u8>) -> bool;

/// The `type`, `code` and `message` strings of the parsed document's
/// `error` field, each empty where absent or not a string; nothing when
/// the bytes do not parse or the document has no `error` field.
pub uninterp spec fn error_fields_of(b: Seq<u8>) -> Option<(Seq<char>, Seq<char>, Seq<char>)>;

/// The parsed document's `status` field: nothing when the bytes do not
/// parse or the field is absent; otherwise the field's string, or an
/// empty inner value where the field is not a string.
pub uninterp spec fn status_field_of(b: Seq<u8>) -> Option<Option<Seq<char>>>;

/// The text at `choices[0].delta.content` of the parsed document, empty
/// where any level is absent or the content is not a string.
pub uninterp spec fn content_of(b: Seq<u8>) -> Seq<char>;

/// Relies on `serde_json::from_slice::<Value>`: whether the bytes parse
/// as a JSON document.
#[verifier::external_body]
fn parse_ok(bytes: &[u8]) -> (r: bool)
    ensures
        r == json_parses(bytes@),
{
    serde_json::from_slice::<serde_json::Value>(bytes).is_ok()
}

/// Relies on `serde_json::from_slice`, `Value::get` and `Value::as_str`:
/// the `type`, `code` and `message` strings of the document's `error`
/// field (empty where absent or not a string), when the document parses
/// and has one.
#[verifier::external_body]
fn parse_error_fields(bytes: &[u8]) -> (r: Option<(String, String, String)>)
    ensures
        r is Some <==> error_fields_of(bytes@) is Some,
        r is Some ==> json_parses(bytes@),
        r matches Some(f) ==> error_fields_of(bytes@) == Some((f.0@, f.1@, f.2@)),
{
    let v: serde_json::Value = serde_json::from_slice(bytes).ok()?;
    let e = v.get("error")?;
    let t = e.get("type").and_then(|x| x.as_str()).unwrap_or("").to_string();
    let c = e.get("code").and_then(|x| x.as_str()).unwrap_or("").to_string();
    let m = e.get("message").and_then(|x| x.as_str()).unwrap_or("").to_string();
    Some((t, c, m))
}

/// Relies on `serde_json::from_slice`, `Value::get` and `Value::as_str`:
/// the document's `status` field, when the document parses and has one;
/// the inner value is the field's string, or nothing where the field is
/// not a string.
#[verifier::external_body]
fn parse_status_field(bytes: &[u8]) -> (r: Option<Option<String>>)
    ensures
        r is Some <==> status_field_of(bytes@) is Some,
        r is Some ==> json_parses(bytes@),
        r matches Some(inner) ==> (inner matches Some(x) ==> status_field_of(bytes@) == Some(
            Some(x@),
        )),
        r == Some(None::<String>) ==> status_field_of(bytes@) == Some(None::<Seq<char>>),
    {
    let v: serde_json::Value = serde_json::from_slice(bytes).ok()?;
    let s = v.get("status")?;
    Some(s.as_str().map(|x| x.to_string()))
}

/// Relies on `serde_json::from_slice`, `Value::get`, `Value::as_str`: the
/// text at `choices[0].delta.content` of the parsed document — empty
/// where any level is absent or not a string — when the bytes parse.
#[verifier::external_body]
fn parse_message_content(bytes: &[u8]) -> (r: Option<String>)
    ensures
        r is Some <==> json_parses(bytes@),
        r matches Some(s) ==> s@ == content_of(bytes@),
{
    let v: serde_json::Value = serde_json::from_slice(bytes).ok()?;
    let content = v.get("choices").and_then(|c| c.get(0)).and_then(|c| c.get("delta")).and_then(
        |d| d.get("content"),
    ).and_then(|x| x.as_str()).unwrap_or("");
    Some(content.to_string())
}

/// The recognized shapes of a plain (unprefixed) JSON frame.
pub enum JsonShape {
    NotJson,
    ErrorObj { etype: String, code: String, message: String },
    StatusStr { status: String },
    StatusBad,
    Other,
}

/// The shape the bytes classify to: an `error` field wins over a `status`
/// field, and the carried strings are the parsed document's own.
pub open spec fn shape_matches(b: Seq<u8>, s: JsonShape) -> bool {
    match s {
        JsonShape::NotJson => !json_parses(b),
        JsonShape::ErrorObj { etype, code, message } => error_fields_of(b) == Some(
            (etype@, code@, message@),
        ),
        JsonShape::StatusStr { status } => json_parses(b) && error_fields_of(b) is None
            && status_field_of(b) == Some(Some(status@)),
        JsonShape::StatusBad => json_parses(b) && error_fields_of(b) is None && status_field_of(
            b,
        ) == Some(None::<Seq<char>>),
        JsonShape::Other => json_parses(b) && error_fields_of(b) is None && status_field_of(
            b,
        ) is None,
    }
}

/// The event or error each plain-frame shape decodes to.
pub open spec fn event_of_shape_spec(s: JsonShape) -> Result<ResponseEvent, DecodeError> {
    match s {
        JsonShape::NotJson => Err(DecodeError::NotJson),
        JsonShape::ErrorObj { etype, code, message } => Err(
            DecodeError::Backend { etype, code, message },
        ),
        JsonShape::StatusStr { status } => Ok(ResponseEvent::Status { text: status }),
        JsonShape::StatusBad => Err(DecodeError::StatusNotString),
        JsonShape::Other => Err(DecodeError::UnknownFormat),
    }
}

/// Maps a classified plain frame to its event, exactly as
/// `event_of_shape_spec` says, whatever the classification was.
pub fn event_of_shape(s: JsonShape) -> (r: Result<ResponseEvent, DecodeError>)
    ensures
        r == event_of_shape_spec(s),
{
    match s {
        JsonShape::NotJson => Err(DecodeError::NotJson),
        JsonShape::ErrorObj { etype, code, message } => Err(
            DecodeError::Backend { etype, code, message },
        ),
        JsonShape::StatusStr { status } => Ok(ResponseEvent::Status { text: status }),
        JsonShape::StatusBad => Err(DecodeError::StatusNotString),
        JsonShape::Other => Err(DecodeError::UnknownFormat),
    }
}

/// Classifies a plain JSON frame by its fields: the backend's `error`
/// field wins, then a `status` field, then nothing recognized.
fn classify_plain(v: &Vec<u8>) -> (r: JsonShape)
    ensures
        shape_matches(v@, r),
{
    if !parse_ok(v.as_slice()) {
        return JsonShape::NotJson;
    }
    if let Some((etype, code, message)) = parse_error_fields(v.as_slice()) {
        return JsonShape::ErrorObj { etype, code, message };
    }
    match parse_status_field(v.as_slice()) {
        Some(Some(status)) => JsonShape::StatusStr { status },
        Some(None) => JsonShape::StatusBad,
        None => JsonShape::Other,
    }
}

/// The frame decodes to an error.
pub open spec fn frame_fails(f: Seq<u8>) -> bool {
    if is_sse(f) {
        !is_done_frame(f) && !json_parses(sse_body(f))
    } else {
        !(json_parses(f) && error_fields_of(f) is None && status_field_of(f) is Some
            && status_field_of(f)->Some_0 is Some)
    }
}

/// The error a failing frame decodes to, over the parse of its own bytes.
pub open spec fn error_matches(f: Seq<u8>, e: DecodeError) -> bool {
    match e {
        DecodeError::MalformedData => is_sse(f) && !is_done_frame(f) && !json_parses(sse_body(f)),
        DecodeError::NotJson => !is_sse(f) && !json_parses(f),
        DecodeError::Backend { etype, code, message } => !is_sse(f) && error_fields_of(f) == Some(
            (etype@, code@, message@),
        ),
        DecodeError::StatusNotString => !is_sse(f) && json_parses(f) && error_fields_of(
            f,
        ) is None && status_field_of(f) == Some(None::<Seq<char>>),
        DecodeError::UnknownFormat => !is_sse(f) && json_parses(f) && error_fields_of(f) is None
            && status_field_of(f) is None,
    }
}

/// Decodes one frame.  The result is a function of the frame's bytes
/// alone: every clause below is stated over the frame and the named parse
/// results, so identical frames decode identically in any session.
///
/// The done sentinel decodes to `Done`, and nothing else does.  Any other
/// prefixed frame decodes to a `Message` carrying exactly the body's
/// `choices[0].delta.content` text (empty where absent) when the body
/// parses, and to `MalformedData` otherwise.  An unprefixed frame is a
/// status, a backend error quoted verbatim, or a failure naming why.
pub fn decode(frame: &[u8]) -> (r: Result<ResponseEvent, DecodeError>)
    ensures
        r == Ok::<ResponseEvent, DecodeError>(ResponseEvent::Done) <==> is_done_frame(frame@),
        is_sse(frame@) && !is_done_frame(frame@) && json_parses(sse_body(frame@)) ==> (r is Ok
            && (r->Ok_0 matches ResponseEvent::Message { fragment } && fragment@ == content_of(
            sse_body(frame@),
        ))),
        is_sse(frame@) && !is_done_frame(frame@) && !json_parses(sse_body(frame@)) ==> r == Err::<
            ResponseEvent,
            DecodeError,
        >(DecodeError::MalformedData),
        !is_sse(frame@) ==> ((r matches Ok(ev) ==> (ev matches ResponseEvent::Status { text }
            && json_parses(frame@) && error_fields_of(frame@) is None && status_field_of(frame@)
            == Some(Some(text@)))) && (r matches Err(e) ==> error_matches(frame@, e))),
        r is Err <==> frame_fails(frame@),
        r matches Err(e) ==> error_matches(frame@, e),
{
    let v = slice_to_vec(frame);
    let pfx = sse_prefix_vec();
    if starts_with_vec(&v, &pfx) {
        let body = vec_slice_copy(&v, 6, v.len());
        proof {
            assert(body@ =~= sse_body(frame@));
        }
        let done = done_sentinel_vec();
        if starts_with_vec(&body, &done) {
            return Ok(ResponseEvent::Done);
        }
        match parse_message_content(body.as_slice()) {
            None => Err(DecodeError::MalformedData),
            Some(fragment) => Ok(ResponseEvent::Message { fragment }),
        }
    } else {
        let shape = classify_plain(&v);
        event_of_shape(shape)
    }
}

/// The displayed text of an event: a message's fragment verbatim, a
/// framed status line, nothing for the end of the stream.
pub fn display_text(e: &ResponseEvent) -> (r: String)
    ensures
        match e {
            ResponseEvent::Message { fragment } => r@ == fragment@,
            ResponseEvent::Status { text } => r@ == "<Status from OpenAI API: "@ + text@ + ">"@,
            ResponseEvent::Done => r@ == Seq::<char>::empty(),
        },
{
    match e {
        ResponseEvent::Message { fragment } => {
            let mut s = String::new();
            s.append(fragment.as_str());
            proof {
                assert(s@ =~= fragment@);
            }
            s
        },
        ResponseEvent::Status { text } => {
            let mut s = String::from_str("<Status from OpenAI API: ");
            s.append(text.as_str());
            s.append(">");
            proof {
                assert(s@ =~= "<Status from OpenAI API: "@ + text@ + ">"@);
            }
            s
        },
        ResponseEvent::Done => String::new(),
    }
}

} // verus!
