use aio_core::decoder::decode;
use aio_core::decoder::display_text;
use aio_core::decoder::DecodeError;
use aio_core::decoder::ResponseEvent;

#[test]
fn decode_done_sentinel() {
    assert_eq!(decode(b"data: [DONE]"), Ok(ResponseEvent::Done));
}

#[test]
fn decode_message_content() {
    let r = decode(br#"data: {"choices":[{"delta":{"content":"hi"}}]}"#);
    assert_eq!(r, Ok(ResponseEvent::Message { fragment: "hi".to_string() }));
}

#[test]
fn decode_absent_content_is_empty_fragment() {
    let r = decode(br#"data: {"choices":[{"delta":{}}]}"#);
    assert_eq!(r, Ok(ResponseEvent::Message { fragment: String::new() }));
    let r2 = decode(br#"data: {"object":"x"}"#);
    assert_eq!(r2, Ok(ResponseEvent::Message { fragment: String::new() }));
}

#[test]
fn decode_backend_error_quotes_fields() {
    // The backend's words arrive verbatim in the decode error.
    let r = decode(br#"{"error": {"type": "t", "code": "c", "message": "m"}}"#);
    assert_eq!(
        r,
        Err(DecodeError::Backend {
            etype: "t".to_string(),
            code: "c".to_string(),
            message: "m".to_string(),
        })
    );
}

#[test]
fn decode_backend_error_missing_fields_are_empty() {
    let r = decode(br#"{"error": {"message": "m"}}"#);
    assert_eq!(
        r,
        Err(DecodeError::Backend {
            etype: String::new(),
            code: String::new(),
            message: "m".to_string(),
        })
    );
}

#[test]
fn decode_status() {
    let r = decode(br#"{"status":"loading"}"#);
    assert_eq!(r, Ok(ResponseEvent::Status { text: "loading".to_string() }));
}

#[test]
fn decode_status_not_string() {
    assert_eq!(decode(br#"{"status": 5}"#), Err(DecodeError::StatusNotString));
}

#[test]
fn decode_unknown_format() {
    assert_eq!(decode(br#"{"foo": 1}"#), Err(DecodeError::UnknownFormat));
}

#[test]
fn decode_not_json() {
    assert_eq!(decode(b"plain words"), Err(DecodeError::NotJson));
}

#[test]
fn decode_malformed_data_frame() {
    assert_eq!(decode(b"data: not json"), Err(DecodeError::MalformedData));
}

#[test]
fn display_text_of_events() {
    let m = ResponseEvent::Message { fragment: "abc".to_string() };
    assert_eq!(display_text(&m), "abc");
    let s = ResponseEvent::Status { text: "ok".to_string() };
    assert_eq!(display_text(&s), "<Status from OpenAI API: ok>");
    assert_eq!(display_text(&ResponseEvent::Done), "");
}
