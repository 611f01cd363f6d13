//! The wire protocol.
use codecrafters_redis::command::common::CommandError;
use codecrafters_redis::resp::{parse_resp, RespBody};

#[test]
fn parses_array_of_bulk_strings() {
    let req = parse_resp(b"*2\r\n$4\r\nECHO\r\n$3\r\nhey\r\n").unwrap();
    assert_eq!(req.consumed(), 23);
    assert_eq!(
        req.body().into_args().unwrap(),
        vec![b"ECHO".to_vec(), b"hey".to_vec()]
    );
}

#[test]
fn consumed_count_allows_pipelining() {
    let buf = b"*1\r\n$4\r\nPING\r\n*1\r\n$4\r\nPING\r\n";
    let req = parse_resp(buf).unwrap();
    assert_eq!(req.consumed(), 14); // points exactly past the first command

    let second = parse_resp(&buf[req.consumed()..]).unwrap();
    assert_eq!(second.body().into_args().unwrap(), vec![b"PING".to_vec()]);
}

#[test]
fn rejects_non_array_input() {
    assert!(parse_resp(b"PING\r\n").is_none());
    assert!(parse_resp(b"").is_none());
}

#[test]
fn incomplete_frame_is_none() {
    assert!(parse_resp(b"*1\r\n$4\r\nPIN").is_none()); // bulk body truncated
    assert!(parse_resp(b"*2\r\n$4\r\nECHO\r\n$3\r\nhe").is_none()); // second bulk truncated
    assert!(parse_resp(b"*1\r\n$4\r\nPING").is_none()); // missing trailing CRLF
}

#[test]
fn rejects_malformed_array_header() {
    // "\r" not followed by "\n" right after the declared element count.
    assert!(parse_resp(b"*1\rX$4\r\nPING\r\n").is_none());
}

#[test]
fn rejects_malformed_bulk_header() {
    // "\r" not followed by "\n" right after a bulk string's declared length.
    assert!(parse_resp(b"*1\r\n$4\rXPING\r\n").is_none());
}

#[test]
fn rejects_wrong_bytes_where_trailing_crlf_belongs() {
    // Bytes are present (unlike incomplete_frame_is_none's truncated cases),
    // they're just not "\r\n" — this is the one case that actually exercises
    // the trailing-CRLF validate_part_end-false branch, not a too-few-bytes `?`.
    assert!(parse_resp(b"*1\r\n$4\r\nPINGXY").is_none());
}

#[test]
fn rejects_declared_length_that_would_overflow_cursor() {
    // A declared bulk length near usize::MAX must be rejected cleanly via
    // checked_add, not panic (debug builds) or silently wrap (release).
    let huge = usize::MAX.to_string();
    let buf = format!("*1\r\n${huge}\r\nx\r\n").into_bytes();
    assert!(parse_resp(&buf).is_none());
}

#[test]
fn into_args_rejects_non_array() {
    assert!(RespBody::Simple("PONG".into()).into_args().is_none());
}

#[test]
fn into_args_rejects_non_bulk_elements() {
    assert!(RespBody::Array(Some(vec![RespBody::Integer(1)]))
        .into_args()
        .is_none());
}

#[test]
fn encode_simple_string() {
    let mut out = Vec::new();
    RespBody::Simple("PONG".into()).encode(&mut out);
    assert_eq!(out, b"+PONG\r\n");
}

#[test]
fn encode_error() {
    let mut out = Vec::new();
    RespBody::new_error(&CommandError::Unknown("frobnicate".into())).encode(&mut out);
    assert_eq!(out, b"-ERR unknown command 'frobnicate'\r\n");
}

#[test]
fn encode_integer() {
    let mut out = Vec::new();
    RespBody::Integer(42).encode(&mut out);
    assert_eq!(out, b":42\r\n");
}

#[test]
fn encode_bulk_string() {
    let mut out = Vec::new();
    RespBody::Bulk(Some(b"hey".to_vec())).encode(&mut out);
    assert_eq!(out, b"$3\r\nhey\r\n");
}

#[test]
fn encode_null_bulk() {
    let mut out = Vec::new();
    RespBody::Bulk(None).encode(&mut out);
    assert_eq!(out, b"$-1\r\n");
}

#[test]
fn encode_null_array() {
    let mut out = Vec::new();
    RespBody::Array(None).encode(&mut out);
    assert_eq!(out, b"*-1\r\n");
}

#[test]
fn encode_array_of_bulk_strings() {
    let mut out = Vec::new();
    RespBody::Array(Some(vec![
        RespBody::Bulk(Some(b"apple".to_vec())),
        RespBody::Bulk(Some(b"blueberry".to_vec())),
    ]))
    .encode(&mut out);
    assert_eq!(out, b"*2\r\n$5\r\napple\r\n$9\r\nblueberry\r\n");
}
