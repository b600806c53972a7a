use webserv::http::method::Method;
use webserv::http::parser::{parse_request, error_status_for, ParseResult};
use webserv::http::response::Response;
use webserv::http::serializer::serialize_response;
use webserv::http::status::{StatusCode, map_status};

#[test]
fn parse_simple_get() {
    let wire = b"GET /index.html HTTP/1.1\r\nHost: a\r\n\r\n";
    match parse_request(wire, 1 << 20) {
        ParseResult::Complete(req, used) => {
            assert!(matches!(req.method, Method::Get));
            assert_eq!(req.path, "/index.html");
            assert_eq!(req.headers.get("Host").unwrap(), "a");
            assert!(req.body.is_empty());
            assert_eq!(req.content_length, None);
            assert!(req.keep_alive);
            assert_eq!(used, wire.len());
        },
        _ => panic!("expected a complete request"),
    }
}

#[test]
fn parse_incomplete_head() {
    let wire = b"GET / HTTP/1.1\r\nHost: a\r\n";
    assert!(matches!(parse_request(wire, 1 << 20), ParseResult::Incomplete));
}

#[test]
fn parse_fixed_body_and_connection_close() {
    let wire = b"POST /x HTTP/1.1\r\nHost: a\r\nContent-Length: 5\r\nConnection: close\r\n\r\nHELLO";
    match parse_request(wire, 1 << 20) {
        ParseResult::Complete(req, used) => {
            assert!(matches!(req.method, Method::Post));
            assert_eq!(req.body, b"HELLO".to_vec());
            assert_eq!(req.content_length, Some(5));
            assert!(!req.keep_alive);
            assert_eq!(used, wire.len());
        },
        _ => panic!("expected a complete request"),
    }
}

#[test]
fn parse_body_over_limit_is_rejected() {
    // an 11-byte body against a 10-byte limit
    let wire = b"POST /x HTTP/1.1\r\nHost: a\r\nContent-Length: 11\r\n\r\nHELLOWORLD!";
    match parse_request(wire, 10) {
        ParseResult::Error(e) => {
            assert_eq!(e, "body too large");
            assert!(matches!(error_status_for(&e), StatusCode::PayloadTooLarge));
        },
        _ => panic!("expected the body-too-large error"),
    }
}

#[test]
fn parse_unsupported_method_and_version() {
    match parse_request(b"PUT / HTTP/1.1\r\n\r\n", 100) {
        ParseResult::Error(e) => {
            assert_eq!(e, "unsupported method");
            assert!(matches!(error_status_for(&e), StatusCode::BadRequest));
        },
        _ => panic!("expected an error"),
    }
    match parse_request(b"GET / SPDY/9\r\n\r\n", 100) {
        ParseResult::Error(e) => assert_eq!(e, "unsupported version"),
        _ => panic!("expected an error"),
    }
}

#[test]
fn parse_chunked_body() {
    let wire = b"POST /up HTTP/1.1\r\nTransfer-Encoding: chunked\r\n\r\n4\r\nWiki\r\n5\r\npedia\r\n0\r\n\r\n";
    match parse_request(wire, 1 << 20) {
        ParseResult::Complete(req, used) => {
            assert_eq!(req.body, b"Wikipedia".to_vec());
            assert_eq!(req.content_length, None);
            assert_eq!(used, wire.len());
        },
        _ => panic!("expected a complete request"),
    }
}

#[test]
fn parse_chunked_consumes_exactly_its_own_bytes() {
    // a pipelined request after the zero chunk's line break is left
    // for the next parse
    let first = b"POST /up HTTP/1.1\r\nTransfer-Encoding: chunked\r\n\r\n4\r\nWiki\r\n0\r\n\r\n";
    let mut wire = first.to_vec();
    wire.extend_from_slice(b"GET /b HTTP/1.1\r\nHost: h\r\n\r\n");
    match parse_request(&wire, 1 << 20) {
        ParseResult::Complete(req, used) => {
            assert_eq!(req.body, b"Wiki".to_vec());
            assert_eq!(used, first.len());
            match parse_request(&wire[used..], 1 << 20) {
                ParseResult::Complete(req2, used2) => {
                    assert_eq!(req2.path, "/b");
                    assert_eq!(used + used2, wire.len());
                },
                _ => panic!("expected the pipelined request"),
            }
        },
        _ => panic!("expected a complete request"),
    }
}

#[test]
fn parse_chunked_with_trailers() {
    let wire = b"POST /up HTTP/1.1\r\nTransfer-Encoding: chunked\r\n\r\n4\r\nWiki\r\n0\r\nX-Sum: 1\r\n\r\n";
    match parse_request(wire, 1 << 20) {
        ParseResult::Complete(req, used) => {
            assert_eq!(req.body, b"Wiki".to_vec());
            // the trailer block is consumed and discarded
            assert_eq!(used, wire.len());
            assert!(req.headers.get("X-Sum").is_none());
        },
        _ => panic!("expected a complete request"),
    }
}

#[test]
fn parse_chunked_over_limit() {
    let wire = b"POST /up HTTP/1.1\r\nTransfer-Encoding: chunked\r\n\r\nb\r\nHELLOWORLD!\r\n0\r\n\r\n";
    match parse_request(wire, 10) {
        ParseResult::Error(e) => assert_eq!(e, "body too large"),
        _ => panic!("expected the body-too-large error"),
    }
}

#[test]
fn parse_pipelined_requests_leave_the_second() {
    let wire = b"GET /a HTTP/1.1\r\nHost: h\r\n\r\nGET /b HTTP/1.1\r\nHost: h\r\n\r\n";
    match parse_request(wire, 100) {
        ParseResult::Complete(req, used) => {
            assert_eq!(req.path, "/a");
            // exactly the first request is consumed
            match parse_request(&wire[used..], 100) {
                ParseResult::Complete(req2, used2) => {
                    assert_eq!(req2.path, "/b");
                    assert_eq!(used + used2, wire.len());
                },
                _ => panic!("expected the second request"),
            }
        },
        _ => panic!("expected the first request"),
    }
}

#[test]
fn serialize_simple_ok_response() {
    let mut resp = Response::new(StatusCode::Okay);
    resp.body = b"HI".to_vec();
    resp.headers.insert(
        "Content-Type".to_string(),
        "text/html; charset=utf-8".to_string(),
    );
    let bytes = serialize_response(&resp, true);
    let expected = b"HTTP/1.1 200 OK\r\nContent-Length: 2\r\nConnection: keep-alive\r\nContent-Type: text/html; charset=utf-8\r\n\r\nHI";
    assert_eq!(bytes, expected.to_vec());
}

#[test]
fn serialize_close_and_own_headers() {
    let mut resp = Response::new(StatusCode::NotFound);
    resp.headers.insert("Content-Length".to_string(), "0".to_string());
    let bytes = serialize_response(&resp, false);
    let text = String::from_utf8(bytes).unwrap();
    // the handler's own Content-Length is kept, not doubled
    assert_eq!(text.matches("Content-Length").count(), 1);
    assert_eq!(text.matches("Connection: close").count(), 1);
    assert!(text.starts_with("HTTP/1.1 404 Not Found\r\n"));
}

#[test]
fn header_insert_replaces_in_place() {
    let mut resp = Response::new(StatusCode::Okay);
    resp.headers.insert("A".to_string(), "1".to_string());
    resp.headers.insert("B".to_string(), "2".to_string());
    resp.headers.insert("A".to_string(), "3".to_string());
    assert_eq!(resp.headers.len(), 2);
    assert_eq!(resp.headers.get("A").unwrap(), "3");
    assert_eq!(resp.headers.get("B").unwrap(), "2");
    assert!(resp.headers.get("C").is_none());
    assert!(resp.headers.contains_key("A"));
    assert!(!resp.headers.contains_key("a"));
}

#[test]
fn set_cookie_header() {
    let mut resp = Response::new(StatusCode::Okay);
    resp.set_cookie("sid=1");
    assert_eq!(resp.headers.get("Set-Cookie").unwrap(), "sid=1");
}

#[test]
fn method_parse_and_status_tables() {
    assert!(matches!(Method::parse("GET"), Some(Method::Get)));
    assert!(matches!(Method::parse("POST"), Some(Method::Post)));
    assert!(matches!(Method::parse("DELETE"), Some(Method::Delete)));
    assert!(Method::parse("get").is_none());
    assert_eq!(StatusCode::Okay.as_u16(), 200);
    assert_eq!(StatusCode::PayloadTooLarge.as_u16(), 413);
    assert_eq!(StatusCode::PayloadTooLarge.reason(), "Payload Too Large");
    assert!(matches!(map_status(404), StatusCode::NotFound));
    assert!(matches!(map_status(999), StatusCode::InternalServerError));
    assert!(matches!(map_status(303), StatusCode::SeeOther));
}
