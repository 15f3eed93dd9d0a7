use aio_core::decoder::DecodeError;
use aio_core::session::Session;
use aio_core::stop::StopToken;
use aio_core::token::Token;

fn message_frame(content: &str) -> Vec<u8> {
    let mut f = Vec::new();
    f.extend_from_slice(br#"data: {"choices":[{"delta":{"content":""#);
    f.extend_from_slice(content.as_bytes());
    f.extend_from_slice(br#""}}]}"#);
    f.extend_from_slice(b"\n\n");
    f
}

fn texts(tokens: &[Token]) -> String {
    let mut s = String::new();
    for t in tokens {
        if let Token::Text(v) = t {
            s.push_str(v);
        }
    }
    s
}

#[test]
fn empty_stream_yields_nothing() {
    // Zero chunks: zero events, zero output, no panic.
    let mut s = Session::new();
    let out = s.finish().expect("an empty stream decodes cleanly");
    assert!(out.is_empty());
    assert!(s.blocks().is_empty());
    assert!(s.is_done());
}

#[test]
fn pipeline_renders_header_text() {
    let mut s = Session::new();
    let mut all: Vec<Token> = Vec::new();
    all.extend(s.push_chunk(&message_frame("# Ti")).unwrap());
    all.extend(s.push_chunk(&message_frame("tle")).unwrap());
    all.extend(s.push_chunk(b"data: [DONE]\n\n").unwrap());
    assert!(s.is_done());
    let kinds: Vec<String> = all.iter().map(|t| format!("{:?}", t)).collect();
    assert!(kinds.iter().any(|k| k.contains("HeaderStart(1)")));
    assert_eq!(texts(&all), "Title");
}

#[test]
fn pipeline_collects_code_block() {
    let mut s = Session::new();
    s.push_chunk(&message_frame("```python\\nprint(1)\\n")).unwrap();
    s.push_chunk(&message_frame("```\\n")).unwrap();
    s.finish().unwrap();
    let blocks = s.blocks();
    assert_eq!(blocks.len(), 1);
    assert_eq!(blocks[0].language, "python");
    assert_eq!(blocks[0].code, "print(1)");
}

#[test]
fn pipeline_stops_at_stop_sequence() {
    let mut s = Session::new();
    s.add_stop(StopToken::new("END".to_string()));
    let mut all: Vec<Token> = Vec::new();
    all.extend(s.push_chunk(&message_frame("abcEN")).unwrap());
    assert!(!s.is_done());
    all.extend(s.push_chunk(&message_frame("Dxyz")).unwrap());
    assert!(s.is_done());
    assert_eq!(texts(&all), "abc");
    // Later chunks are ignored after termination.
    let later = s.push_chunk(&message_frame("more")).unwrap();
    assert!(later.is_empty());
}

#[test]
fn pipeline_events_ignore_chunk_boundaries() {
    // Re-chunking the same bytes never changes what comes out.
    let mut total: Vec<u8> = Vec::new();
    total.extend(message_frame("plain "));
    total.extend(message_frame("words"));
    let reference = {
        let mut s = Session::new();
        let mut all = s.push_chunk(&total).unwrap();
        all.extend(s.finish().unwrap());
        format!("{:?}", all)
    };
    for i in 0..=total.len() {
        let mut s = Session::new();
        let mut all = s.push_chunk(&total[..i]).unwrap();
        all.extend(s.push_chunk(&total[i..]).unwrap());
        all.extend(s.finish().unwrap());
        assert_eq!(format!("{:?}", all), reference, "split at {}", i);
    }
}

#[test]
fn decode_error_is_fatal() {
    let mut s = Session::new();
    let r = s.push_chunk(b"not json at all\n\n");
    assert!(matches!(r, Err(DecodeError::NotJson)));
    assert!(s.is_done());
}

#[test]
fn backend_error_reaches_caller() {
    let mut s = Session::new();
    let r = s.push_chunk(br#"{"error": {"type": "t", "code": "c", "message": "m"}}"#);
    assert!(!s.is_done());
    // The frame is still buffered: the error surfaces once it completes.
    let r2 = s.push_chunk(b"\n\n");
    assert!(r.is_ok());
    match r2 {
        Err(DecodeError::Backend { etype, code, message }) => {
            assert_eq!(etype, "t");
            assert_eq!(code, "c");
            assert_eq!(message, "m");
        }
        other => panic!("expected the backend's own error, got {:?}", other),
    }
}

#[test]
fn status_event_is_displayed() {
    let mut s = Session::new();
    let out = s.push_chunk(b"{\"status\":\"warming up\"}\n\n").unwrap();
    assert_eq!(texts(&out), "<Status from OpenAI API: warming up>");
}
