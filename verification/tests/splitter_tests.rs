use aio_core::splitter::FrameSplitter;

fn delim() -> Vec<u8> {
    vec![b'\n', b'\n']
}

fn run_chunks(chunks: &[&[u8]]) -> Vec<Vec<u8>> {
    let mut sp = FrameSplitter::new(delim());
    let mut frames: Vec<Vec<u8>> = Vec::new();
    for c in chunks {
        frames.extend(sp.push(c));
    }
    if let Some(last) = sp.finish() {
        frames.push(last);
    }
    frames
}

#[test]
fn splitter_basic_frames() {
    let frames = run_chunks(&[b"a\n\nb\n\nc"]);
    assert_eq!(frames, vec![b"a".to_vec(), b"b".to_vec(), b"c".to_vec()]);
}

#[test]
fn splitter_delimiter_across_chunks() {
    let mut sp = FrameSplitter::new(delim());
    let first = sp.push(b"a\n");
    assert!(first.is_empty());
    let second = sp.push(b"\nb");
    assert_eq!(second, vec![b"a".to_vec()]);
    assert_eq!(sp.finish(), Some(b"b".to_vec()));
}

#[test]
fn splitter_no_false_split() {
    let frames = run_chunks(&[b"a\n", b"b"]);
    assert_eq!(frames, vec![b"a\nb".to_vec()]);
}

#[test]
fn splitter_consecutive_delimiters_give_empty_frame() {
    let frames = run_chunks(&[b"a\n\n\n\nb"]);
    assert_eq!(frames, vec![b"a".to_vec(), b"".to_vec(), b"b".to_vec()]);
}

#[test]
fn splitter_empty_input_no_frames() {
    let frames = run_chunks(&[]);
    assert!(frames.is_empty());
    let frames2 = run_chunks(&[b""]);
    assert!(frames2.is_empty());
}

#[test]
fn splitter_rechunking_is_invisible() {
    let total: &[u8] = b"first\n\nsecond\n\nthird tail";
    let reference = run_chunks(&[total]);
    for i in 0..=total.len() {
        let (a, b) = total.split_at(i);
        assert_eq!(run_chunks(&[a, b]), reference, "split at {}", i);
    }
}
