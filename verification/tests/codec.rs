use mikufans_bvc_server::err::Error;
use mikufans_bvc_server::method::Method;
use mikufans_bvc_server::request::head_complete;
use mikufans_bvc_server::request::parse_request;
use mikufans_bvc_server::response::Response;

#[test]
fn parse_simple_request() {
    let head = b"GET /resource/mikufans/x HTTP/1.1\r\nHost: localhost\r\nRange: bytes=0-9\r\n\r\n";
    let req = parse_request(head).unwrap().unwrap();
    assert_eq!(req.method, Method::Get);
    assert_eq!(req.target, b"/resource/mikufans/x".to_vec());
    assert_eq!(req.path, b"/resource/mikufans/x".to_vec());
    assert_eq!(req.headers.get(b"host"), Some(&b"localhost".to_vec()));
    assert_eq!(req.headers.get(b"range"), Some(&b"bytes=0-9".to_vec()));
    assert_eq!(req.headers.get(b"absent"), None);
}

#[test]
fn parse_header_names_case_insensitive_and_overwritten() {
    let head = b"GET / HTTP/1.1\r\nX-Thing: one\r\nx-thing: two\r\n\r\n";
    let req = parse_request(head).unwrap().unwrap();
    assert_eq!(req.headers.len(), 1);
    assert_eq!(req.headers.get(b"x-thing"), Some(&b"two".to_vec()));
}

#[test]
fn parse_trims_header_value_whitespace() {
    let head = b"GET / HTTP/1.1\r\nHost:   spaced.example \t\r\n\r\n";
    let req = parse_request(head).unwrap().unwrap();
    assert_eq!(req.headers.get(b"host"), Some(&b"spaced.example".to_vec()));
}

#[test]
fn parse_path_drops_query() {
    let head = b"GET /a/b?q=1 HTTP/1.1\r\n\r\n";
    let req = parse_request(head).unwrap().unwrap();
    assert_eq!(req.target, b"/a/b?q=1".to_vec());
    assert_eq!(req.path, b"/a/b".to_vec());
}

#[test]
fn parse_empty_stream_is_no_request() {
    assert!(matches!(parse_request(b""), Ok(None)));
}

#[test]
fn parse_two_tokens_is_request_line_error() {
    let head = b"GET /x\r\n\r\n";
    assert_eq!(parse_request(head).unwrap_err(), Error::RequestLineMalformed);
}

#[test]
fn parse_one_token_is_target_error() {
    let head = b"GET\r\n\r\n";
    assert_eq!(parse_request(head).unwrap_err(), Error::RequestTargetInvalid);
}

#[test]
fn parse_unknown_method_is_method_error() {
    let head = b"FROB / HTTP/1.1\r\n\r\n";
    assert_eq!(parse_request(head).unwrap_err(), Error::RequestMethodInvalid);
}

#[test]
fn parse_bad_target_is_target_error() {
    let head = b"GET /%zz HTTP/1.1\r\n\r\n";
    assert_eq!(parse_request(head).unwrap_err(), Error::RequestTargetInvalid);
}

#[test]
fn parse_old_version_is_version_error() {
    let head = b"GET / HTTP/1.0\r\n\r\n";
    assert_eq!(parse_request(head).unwrap_err(), Error::HttpVersionUnsupported);
}

#[test]
fn parse_header_without_colon_is_header_error() {
    let head = b"GET / HTTP/1.1\r\nnocolonhere\r\n\r\n";
    assert_eq!(parse_request(head).unwrap_err(), Error::HeaderMalformed);
}

#[test]
fn parse_truncated_head_is_header_error() {
    let head = b"GET / HTTP/1.1\r\nHost: x\r\n";
    assert_eq!(parse_request(head).unwrap_err(), Error::HeaderMalformed);
}

#[test]
fn head_complete_waits_for_blank_line() {
    assert!(!head_complete(b"GET / HTTP/1.1\r\n"));
    assert!(!head_complete(b"GET / HTTP/1.1\r\nHost: x\r\n"));
    assert!(head_complete(b"GET / HTTP/1.1\r\n\r\n"));
    assert!(head_complete(b"GET / HTTP/1.1\r\nHost: x\r\n\r\n"));
    assert!(head_complete(b"GET / HTTP/1.1\n\n"));
    assert!(!head_complete(b""));
}

#[test]
fn encode_default_response() {
    let r = Response::default();
    let bytes = r.encode();
    let expect = b"HTTP/1.1 200\r\nserver: mikufans_bvc_server\r\ncontent-type: application/octet-stream\r\nconnection: keep-alive\r\n\r\n".to_vec();
    assert_eq!(bytes, expect);
}

#[test]
fn encode_body_sets_content_length() {
    let r = Response::default().with_body(b"hello".to_vec());
    let bytes = r.encode();
    let expect = b"HTTP/1.1 200\r\nserver: mikufans_bvc_server\r\ncontent-type: application/octet-stream\r\nconnection: keep-alive\r\ncontent-length: 5\r\n\r\nhello".to_vec();
    assert_eq!(bytes, expect);
}

#[test]
fn encode_overwrites_stale_content_length_in_place() {
    let mut r = Response::default();
    r.set_header(b"content-length".to_vec(), b"999".to_vec());
    let r = r.with_body(b"ab".to_vec());
    let bytes = r.encode();
    let expect = b"HTTP/1.1 200\r\nserver: mikufans_bvc_server\r\ncontent-type: application/octet-stream\r\nconnection: keep-alive\r\ncontent-length: 2\r\n\r\nab".to_vec();
    assert_eq!(bytes, expect);
}

#[test]
fn decode_reads_a_raw_message_back() {
    let raw = b"HTTP/1.1 206\r\nserver: mikufans_bvc_server\r\ncontent-length: 2\r\n\r\nok";
    let d = mikufans_bvc_server::response::decode_response(raw).unwrap();
    assert_eq!(d.status, 206);
    assert_eq!(d.headers.get(b"server"), Some(&b"mikufans_bvc_server".to_vec()));
    assert_eq!(d.headers.get(b"content-length"), Some(&b"2".to_vec()));
    assert_eq!(d.body, b"ok".to_vec());
}

#[test]
fn decode_rejects_garbage() {
    assert!(mikufans_bvc_server::response::decode_response(b"").is_none());
    assert!(mikufans_bvc_server::response::decode_response(b"HTTP/1.1 200\r\n").is_none());
    assert!(mikufans_bvc_server::response::decode_response(b"FTP/9 200\r\n\r\n").is_none());
    assert!(mikufans_bvc_server::response::decode_response(b"HTTP/1.1 abc\r\n\r\n").is_none());
}

/// Encoding a response with a byte body and decoding the bytes again
/// reproduces status, headers (with the derived content-length) and body.
#[test]
fn encode_decode_roundtrip() {
    let mut r = Response::default();
    r.set_status(206);
    r.set_header(b"x-extra".to_vec(), b"some value".to_vec());
    let r = r.with_body(b"body bytes \r\n with crlf inside".to_vec());
    let encoded = r.encode();
    let d = mikufans_bvc_server::response::decode_response(&encoded).unwrap();
    assert_eq!(d.status, 206);
    assert_eq!(d.headers.get(b"server"), Some(&b"mikufans_bvc_server".to_vec()));
    assert_eq!(d.headers.get(b"content-type"), Some(&b"application/octet-stream".to_vec()));
    assert_eq!(d.headers.get(b"connection"), Some(&b"keep-alive".to_vec()));
    assert_eq!(d.headers.get(b"x-extra"), Some(&b"some value".to_vec()));
    assert_eq!(d.headers.get(b"content-length"), Some(&b"30".to_vec()));
    assert_eq!(d.headers.len(), 5);
    assert_eq!(d.body, b"body bytes \r\n with crlf inside".to_vec());
}

#[test]
fn bad_request_response_encodes_as_400() {
    let r = Response::status(400);
    let bytes = r.encode();
    assert!(bytes.starts_with(b"HTTP/1.1 400\r\n"));
}

#[test]
fn headers_mut_edits_in_place() {
    let mut r = Response::default();
    r.headers_mut().insert(b"x-tag".to_vec(), b"v1".to_vec());
    r.headers_mut().insert(b"x-tag".to_vec(), b"v2".to_vec());
    assert_eq!(r.headers.get(b"x-tag"), Some(&b"v2".to_vec()));
    assert_eq!(r.headers.len(), 4);
}
