use rpm::RPMError;
use rpm::cursor::SeqCursor;

#[test]
fn cursor_reads_concatenation_in_any_chunk_size() {
    let a: &[u8] = b"ab";
    let b: &[u8] = b"cde";
    let c: &[u8] = b"f";
    let expected = b"abcdef".to_vec();
    for chunk in 1..=6usize {
        let mut cur = SeqCursor::new(vec![a, b, c]).expect("fits");
        assert_eq!(cur.len(), 6);
        let mut got: Vec<u8> = Vec::new();
        loop {
            let part = cur.read(chunk);
            if part.is_empty() {
                break;
            }
            got.extend_from_slice(&part);
        }
        assert_eq!(got, expected);
    }
}

#[test]
fn cursor_seek_then_read_returns_suffix() {
    let a: &[u8] = b"ab";
    let b: &[u8] = b"cde";
    let c: &[u8] = b"f";
    let expected = b"abcdef";
    for off in 0..=6usize {
        let mut cur = SeqCursor::new(vec![a, b, c]).expect("fits");
        cur.seek(off).expect("in range");
        let rest = cur.read(100);
        assert_eq!(rest, expected[off..].to_vec());
    }
}

#[test]
fn cursor_seek_past_end_fails_and_read_at_end_is_empty() {
    let a: &[u8] = b"xyz";
    let mut cur = SeqCursor::new(vec![a]).expect("fits");
    assert_eq!(cur.seek(4).unwrap_err(), RPMError::Format);
    cur.seek(3).expect("end is in range");
    assert_eq!(cur.read(5), Vec::<u8>::new());
}

#[test]
fn cursor_read_crosses_segment_boundaries() {
    let a: &[u8] = b"abc";
    let b: &[u8] = b"defgh";
    let mut cur = SeqCursor::new(vec![a, b]).expect("fits");
    assert_eq!(cur.read(2), b"ab".to_vec());
    assert_eq!(cur.read(3), b"cde".to_vec());
    assert_eq!(cur.read(10), b"fgh".to_vec());
}
