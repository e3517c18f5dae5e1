use cliproxy_desktop::http::{
    decode_chunked_body, management_request_head, parse_http_response, HttpError, RequestError, Utf8Fault,
};
use cliproxy_desktop::number::IntErrorKind;

#[test]
fn plain_ok_response_gives_body() {
    let r = parse_http_response(b"HTTP/1.1 200 OK\r\nContent-Type: application/json\r\n\r\n{\"a\":1}");
    assert_eq!(r.unwrap(), b"{\"a\":1}".to_vec());
}

#[test]
fn body_may_hold_blank_lines() {
    let r = parse_http_response(b"HTTP/1.1 204 No Content\r\n\r\nx\r\n\r\ny");
    assert_eq!(r.unwrap(), b"x\r\n\r\ny".to_vec());
}

#[test]
fn chunked_response_is_decoded() {
    let r = parse_http_response(
        b"HTTP/1.1 200 OK\r\nTransfer-Encoding: Chunked\r\n\r\n4\r\nWiki\r\n5;ext=1\r\npedia\r\n0\r\n\r\n",
    );
    assert_eq!(r.unwrap(), b"Wikipedia".to_vec());
}

#[test]
fn error_status_keeps_body() {
    match parse_http_response(b"HTTP/1.1 401 Unauthorized\r\n\r\nnope") {
        Err(HttpError::Status(status, body)) => {
            assert_eq!(status, 401);
            assert_eq!(body, b"nope".to_vec());
        }
        _ => panic!("expected a status error"),
    }
}

#[test]
fn malformed_responses_are_refused() {
    assert!(matches!(parse_http_response(b"HTTP/1.1 200 OK\r\n"), Err(HttpError::MalformedResponse)));
    assert!(matches!(parse_http_response(b"\r\n\r\nbody"), Err(HttpError::MissingStatusLine)));
    assert!(matches!(parse_http_response(b"HTTP/1.1\r\n\r\n"), Err(HttpError::InvalidStatus)));
    assert!(matches!(parse_http_response(b"HTTP/1.1 OK\r\n\r\n"), Err(HttpError::InvalidStatus)));
    assert!(matches!(parse_http_response(b"HTTP/1.1 99999 X\r\n\r\n"), Err(HttpError::InvalidStatus)));
    assert!(matches!(parse_http_response(b"\xff 200\r\n\r\n"), Err(HttpError::HeaderNotUtf8(_))));
}

#[test]
fn status_word_may_follow_unicode_spaces() {
    let r = parse_http_response("HTTP/1.1\u{3000}200\u{a0}OK\r\n\r\nok".as_bytes());
    assert_eq!(r.unwrap(), b"ok".to_vec());
}

#[test]
fn chunk_errors_are_reported() {
    assert!(matches!(decode_chunked_body(b""), Err(HttpError::ChunkLineMissing)));
    assert!(matches!(decode_chunked_body(b"4\r\nab"), Err(HttpError::ChunkTruncated)));
    assert!(matches!(
        decode_chunked_body(b"zz\r\nab"),
        Err(HttpError::ChunkSizeInvalid(IntErrorKind::InvalidDigit))
    ));
    assert!(matches!(
        decode_chunked_body(b" \r\n"),
        Err(HttpError::ChunkSizeInvalid(IntErrorKind::Empty))
    ));
    assert!(matches!(decode_chunked_body(b"\xff\r\n"), Err(HttpError::ChunkSizeNotUtf8(_))));
    assert!(matches!(
        decode_chunked_body(b"fffffffffffffffffffff\r\n"),
        Err(HttpError::ChunkSizeInvalid(IntErrorKind::PosOverflow))
    ));
}

#[test]
fn chunked_body_may_end_without_terminator() {
    assert_eq!(decode_chunked_body(b"3\r\nabc").unwrap(), b"abc".to_vec());
    assert_eq!(decode_chunked_body(b"3\r\nabc\r\n").unwrap(), b"abc".to_vec());
    assert_eq!(decode_chunked_body(b" A \r\n0123456789\r\n0\r\n").unwrap(), b"0123456789".to_vec());
    assert_eq!(decode_chunked_body(b"0\r\n").unwrap(), Vec::<u8>::new());
}

#[test]
fn request_head_without_body() {
    let head = management_request_head(8317, "key", "GET", "/v0/management/usage/export", 0).unwrap();
    assert_eq!(
        head,
        "GET /v0/management/usage/export HTTP/1.1\r\nHost: 127.0.0.1:8317\r\nAuthorization: Bearer key\r\nAccept: application/json\r\nConnection: close\r\n\r\n"
    );
}

#[test]
fn request_head_with_body() {
    let head = management_request_head(80, "k", "POST", "/x", 42).unwrap();
    assert_eq!(
        head,
        "POST /x HTTP/1.1\r\nHost: 127.0.0.1:80\r\nAuthorization: Bearer k\r\nAccept: application/json\r\nConnection: close\r\nContent-Type: application/json\r\nContent-Length: 42\r\n\r\n"
    );
}

#[test]
fn key_with_line_break_is_refused() {
    assert_eq!(management_request_head(1, "a\nb", "GET", "/", 0), Err(RequestError::KeyHasLineBreak));
    assert_eq!(management_request_head(1, "a\rb", "GET", "/", 0), Err(RequestError::KeyHasLineBreak));
}

#[test]
fn encoded_chunks_decode_to_their_data() {
    let mut body = Vec::new();
    let chunks: [&[u8]; 3] = [b"hello ", &[b'x'; 300], b"!"];
    for chunk in chunks.iter() {
        body.extend_from_slice(format!("{:x}\r\n", chunk.len()).as_bytes());
        body.extend_from_slice(chunk);
        body.extend_from_slice(b"\r\n");
    }
    body.extend_from_slice(b"0\r\n\r\n");
    let expected: Vec<u8> = chunks.concat();
    assert_eq!(decode_chunked_body(&body).unwrap(), expected);
}

#[test]
fn utf8_errors_say_where_decoding_failed() {
    assert!(matches!(
        parse_http_response(b"\xff 200\r\n\r\n"),
        Err(HttpError::HeaderNotUtf8(Utf8Fault { valid_up_to: 0, error_len: Some(1) }))
    ));
    assert!(matches!(
        parse_http_response(b"HTTP/1.1 200 OK\xe2\x82\r\n\r\n"),
        Err(HttpError::HeaderNotUtf8(Utf8Fault { valid_up_to: 15, error_len: None }))
    ));
    assert!(matches!(
        decode_chunked_body(b"1a\xc3(\r\n"),
        Err(HttpError::ChunkSizeNotUtf8(Utf8Fault { valid_up_to: 2, error_len: Some(1) }))
    ));
}
