use respkv::frame::{decode_frame, FrameError, Value};

fn bulk(s: &[u8]) -> Value {
    Value::Bulk(s.to_vec())
}

#[test]
fn decodes_single_ping() {
    let buf = b"*1\r\n$4\r\nPING\r\n";
    assert_eq!(decode_frame(buf), Ok((vec![bulk(b"PING")], buf.len())));
}

#[test]
fn decodes_set_with_options() {
    let buf = b"*5\r\n$3\r\nSET\r\n$1\r\nk\r\n$2\r\nvv\r\n$2\r\npx\r\n$3\r\n100\r\n";
    let expected = vec![bulk(b"SET"), bulk(b"k"), bulk(b"vv"), bulk(b"px"), bulk(b"100")];
    assert_eq!(decode_frame(buf), Ok((expected, buf.len())));
}

#[test]
fn zero_length_bulk_is_empty_string() {
    let buf = b"*2\r\n$4\r\necho\r\n$0\r\n\r\n";
    assert_eq!(decode_frame(buf), Ok((vec![bulk(b"echo"), bulk(b"")], buf.len())));
}

#[test]
fn zero_length_bulk_still_needs_terminator() {
    assert_eq!(decode_frame(b"*1\r\n$0\r\n"), Err(FrameError::Incomplete));
    assert_eq!(decode_frame(b"*1\r\n$0\r\nxy"), Err(FrameError::Malformed));
}

#[test]
fn bulk_body_may_hold_crlf() {
    let buf = b"*1\r\n$4\r\na\r\nb\r\n";
    assert_eq!(decode_frame(buf), Ok((vec![bulk(b"a\r\nb")], buf.len())));
}

#[test]
fn remainder_is_left_unconsumed() {
    let buf = b"*1\r\n$4\r\nPING\r\n*1\r\n$4\r\nPI";
    assert_eq!(decode_frame(buf), Ok((vec![bulk(b"PING")], 14)));
    assert_eq!(decode_frame(&buf[14..]), Err(FrameError::Incomplete));
}

#[test]
fn every_strict_prefix_is_incomplete() {
    let buf = b"*2\r\n$4\r\nECHO\r\n$11\r\nhello world\r\n";
    for m in 0..buf.len() {
        assert_eq!(decode_frame(&buf[..m]), Err(FrameError::Incomplete), "prefix of {}", m);
    }
    assert!(decode_frame(buf).is_ok());
}

#[test]
fn empty_buffer_is_incomplete() {
    assert_eq!(decode_frame(b""), Err(FrameError::Incomplete));
}

#[test]
fn unknown_top_level_tag_is_malformed() {
    assert_eq!(decode_frame(b"+PING\r\n"), Err(FrameError::Malformed));
    assert_eq!(decode_frame(b"PING\r\n"), Err(FrameError::Malformed));
}

#[test]
fn unknown_nested_tag_is_malformed() {
    assert_eq!(decode_frame(b"*1\r\n:5\r\n"), Err(FrameError::Malformed));
}

#[test]
fn bad_length_fields_are_malformed() {
    assert_eq!(decode_frame(b"*x\r\n"), Err(FrameError::Malformed));
    assert_eq!(decode_frame(b"*01\r\n$4\r\nPING\r\n"), Err(FrameError::Malformed));
    assert_eq!(decode_frame(b"*1\r\n$-1\r\n"), Err(FrameError::Malformed));
    assert_eq!(decode_frame(b"*1x\r\n"), Err(FrameError::Malformed));
    assert_eq!(decode_frame(b"*1\rx"), Err(FrameError::Malformed));
    assert_eq!(decode_frame(b"*99999999999999999999999\r\n"), Err(FrameError::Malformed));
}

#[test]
fn missing_terminator_after_body_is_malformed() {
    assert_eq!(decode_frame(b"*1\r\n$3\r\nabcX\r\n"), Err(FrameError::Malformed));
    assert_eq!(decode_frame(b"*1\r\n$3\r\nabc\rX"), Err(FrameError::Malformed));
}

#[test]
fn empty_array_decodes() {
    assert_eq!(decode_frame(b"*0\r\n"), Ok((vec![], 4)));
}
