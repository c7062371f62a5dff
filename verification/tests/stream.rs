use umber::{StreamBuffer, STREAM_OUTPUT_BUFFER_BYTES};

#[test]
fn buffers_until_full() {
    let mut buf = StreamBuffer::new();
    assert_eq!(buf.len(), 0);
    assert_eq!(buf.flush(), None);
    assert_eq!(buf.push("héllo"), None);
    assert_eq!(buf.len(), 6);
    assert_eq!(buf.flush_if_at_least(7), None);
    assert_eq!(buf.flush_if_full(), None);
    assert_eq!(buf.flush_if_at_least(6), Some("héllo".as_bytes().to_vec()));
    assert_eq!(buf.len(), 0);
}

#[test]
fn hands_out_everything_when_full() {
    let mut buf = StreamBuffer::new();
    assert_eq!(buf.push("ab"), None);
    let big = "x".repeat(STREAM_OUTPUT_BUFFER_BYTES);
    let written = buf.push(&big).expect("full buffer is handed out");
    assert_eq!(written.len(), STREAM_OUTPUT_BUFFER_BYTES + 2);
    assert_eq!(&written[..2], b"ab");
    assert_eq!(buf.len(), 0);
}

#[test]
fn no_byte_is_lost_across_pushes() {
    let mut buf = StreamBuffer::new();
    let mut written = Vec::new();
    let piece = "0123456789".repeat(1000);
    for _ in 0..20 {
        if let Some(w) = buf.push(&piece) {
            written.extend(w);
        }
    }
    if let Some(w) = buf.flush() {
        written.extend(w);
    }
    assert_eq!(written, piece.repeat(20).into_bytes());
}
