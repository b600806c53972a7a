use webserv::config::ast::Addr;
use webserv::conn::{Connection, ConnState, WriteStep};
use webserv::handler::error_page::error_response_with;
use webserv::http::parser::{parse_request, error_status_for, ParseResult};
use webserv::http::serializer::serialize_response;
use webserv::http::status::StatusCode;
use webserv::manager::ServerManager;

fn addr(port: u16) -> Addr {
    Addr { host: "0.0.0.0".to_string(), port }
}

#[test]
fn connection_lifecycle_keep_alive_pipeline() {
    // two pipelined requests: the response drains in two pieces and the
    // connection returns to reading with the second request intact
    let mut c = Connection::new(7, addr(80), 75_000, 1_000);
    assert!(matches!(c.state, ConnState::Reading));
    c.append_read(b"GET /a HTTP/1.1\r\n\r\nGET /b HTTP/1.1\r\n\r\n");
    let used = match parse_request(&c.read_buf, 1 << 20) {
        ParseResult::Complete(req, used) => {
            assert!(req.keep_alive);
            used
        },
        _ => panic!("expected a complete request"),
    };
    c.queue_response(b"HTTP/1.1 200 OK\r\n\r\n".to_vec(), used, true);
    assert!(matches!(c.state, ConnState::Writing));
    assert_eq!(c.read_buf, b"GET /b HTTP/1.1\r\n\r\n".to_vec());
    // partial-write idempotence on concrete pieces: two writes hand out
    // exactly the queued bytes in order
    let whole = c.write_buf.clone();
    let first = c.write_buf[..5].to_vec();
    assert!(matches!(c.after_write(5), WriteStep::MoreToWrite));
    let second = c.write_buf.clone();
    let mut joined = first;
    joined.extend_from_slice(&second);
    assert_eq!(joined, whole);
    let n = c.write_buf.len();
    assert!(matches!(c.after_write(n), WriteStep::BackToReading));
    assert!(matches!(c.state, ConnState::Reading));
    assert_eq!(c.read_buf, b"GET /b HTTP/1.1\r\n\r\n".to_vec());
}

#[test]
fn connection_without_keep_alive_closes_after_drain() {
    let mut c = Connection::new(8, addr(80), 75_000, 0);
    c.queue_response(b"bye".to_vec(), 0, false);
    let n = c.write_buf.len();
    assert!(matches!(c.after_write(n), WriteStep::CloseNow));
    assert!(matches!(c.state, ConnState::Closing));
}

#[test]
fn idle_timeout_is_swept() {
    // a silent connection is reported once its timeout elapses
    let mut mgr = ServerManager::new();
    mgr.add_listener(3);
    mgr.insert(9, Connection::new(9, addr(80), 5_000, 1_000));
    mgr.insert(10, Connection::new(10, addr(80), 60_000, 1_000));
    assert_eq!(mgr.sweep_timeouts(2_000), Vec::<i32>::new());
    let swept = mgr.sweep_timeouts(6_500);
    assert_eq!(swept, vec![9]);
    // touching resets the clock
    let i = mgr.index_of(9).unwrap();
    mgr.conns[i].touch(6_400);
    assert_eq!(mgr.sweep_timeouts(6_500), Vec::<i32>::new());
}

#[test]
fn manager_resolves_event_descriptors() {
    let mut mgr = ServerManager::new();
    mgr.insert(5, Connection::new(5, addr(80), 75_000, 0));
    assert_eq!(mgr.get_conn_fd(5), Some(5));
    assert_eq!(mgr.get_conn_fd(6), None);
    assert!(mgr.index_of(6).is_none());
}

#[test]
fn manager_cgi_lifecycle() {
    // start: pipes join the index and the registration model
    let mut mgr = ServerManager::new();
    mgr.insert(5, Connection::new(5, addr(80), 75_000, 0));
    mgr.start_cgi(5, 42, Some(8), 9, b"DATA".to_vec());
    assert_eq!(mgr.get_conn_fd(9), Some(5));
    assert_eq!(mgr.get_conn_fd(8), Some(5));
    assert!(mgr.registered.contains(&8) && mgr.registered.contains(&9));
    match &mgr.conns[0].state {
        ConnState::Cgi { pid, input, output, data, pending } => {
            assert_eq!(*pid, 42);
            assert_eq!(*input, Some(8));
            assert_eq!(*output, 9);
            assert!(data.is_empty());
            assert_eq!(pending, &b"DATA".to_vec());
        },
        _ => panic!("expected the CGI state"),
    }
    // body drains toward the child in pieces
    mgr.cgi_input_written(5, 2);
    match &mgr.conns[0].state {
        ConnState::Cgi { pending, .. } => assert_eq!(pending, &b"TA".to_vec()),
        _ => panic!("expected the CGI state"),
    }
    // closing the child's stdin withdraws the input pipe
    mgr.cgi_input_done(5);
    assert_eq!(mgr.get_conn_fd(8), None);
    assert!(!mgr.registered.contains(&8));
    match &mgr.conns[0].state {
        ConnState::Cgi { input, pending, .. } => {
            assert_eq!(*input, None);
            assert!(pending.is_empty());
        },
        _ => panic!("expected the CGI state"),
    }
    // child output accumulates
    mgr.cgi_output_data(5, b"Status: 200 OK");
    // finishing turns to writing with the response queued and no pipes
    mgr.finish_cgi(5, b"HTTP/1.1 200 OK\r\n\r\n".to_vec());
    assert_eq!(mgr.get_conn_fd(9), None);
    assert!(!mgr.registered.contains(&9));
    assert!(matches!(mgr.conns[0].state, ConnState::Writing));
    assert_eq!(mgr.conns[0].write_buf, b"HTTP/1.1 200 OK\r\n\r\n".to_vec());
    // and the connection itself can close
    mgr.close_conn(5);
    assert!(mgr.index_of(5).is_none());
    assert!(!mgr.registered.contains(&5));
}

#[test]
fn manager_cgi_abort_cleans_pipes() {
    let mut mgr = ServerManager::new();
    mgr.insert(6, Connection::new(6, addr(80), 75_000, 0));
    mgr.start_cgi(6, 43, None, 11, Vec::new());
    let (pid, output, input) = mgr.abort_cgi(6).unwrap();
    assert_eq!((pid, output, input), (43, 11, None));
    assert_eq!(mgr.get_conn_fd(11), None);
    assert!(matches!(mgr.conns[0].state, ConnState::Closing));
    mgr.close_conn(6);
    assert!(mgr.index_of(6).is_none());
}

#[test]
fn oversize_body_becomes_413_with_close() {
    // config limit 10, declared body 11: the parser rejects, the status
    // maps to 413, and the serialized response announces closing
    let wire = b"POST /x HTTP/1.1\r\nHost: a\r\nContent-Length: 11\r\n\r\nHELLOWORLD!";
    let status = match parse_request(wire, 10) {
        ParseResult::Error(e) => error_status_for(&e),
        _ => panic!("expected an error"),
    };
    assert!(matches!(status, StatusCode::PayloadTooLarge));
    let resp = error_response_with(status, None);
    let bytes = serialize_response(&resp, false);
    let text = String::from_utf8(bytes).unwrap();
    assert!(text.starts_with("HTTP/1.1 413 Payload Too Large\r\n"));
    assert_eq!(text.matches("Connection: close").count(), 1);
}

#[test]
fn numeric_text_round_trips() {
    assert_eq!(webserv::num::parse_dec_u64(b"8080"), Some(8080));
    assert_eq!(webserv::num::parse_dec_u64(b""), None);
    assert_eq!(webserv::num::parse_dec_u64(b"12a"), None);
    assert_eq!(webserv::num::parse_dec_u64(b"99999999999999999999999"), None);
    assert_eq!(webserv::num::parse_hex_usize(b"1A"), Some(26));
    assert_eq!(webserv::num::parse_hex_usize(b"ff"), Some(255));
    assert_eq!(webserv::num::parse_hex_usize(b"g"), None);
    assert_eq!(webserv::num::u64_to_dec(0), b"0".to_vec());
    assert_eq!(webserv::num::u64_to_dec(41007), b"41007".to_vec());
    assert_eq!(webserv::num::u64_to_dec_string(413), "413");
}

#[test]
fn search_and_trim_helpers() {
    assert_eq!(webserv::search::find_bytes(b"abcabc", b"ca"), Some(2));
    assert_eq!(webserv::search::find_bytes(b"abc", b"x"), None);
    assert_eq!(webserv::search::find_bytes(b"abc", b""), Some(0));
    assert!(webserv::search::bytes_eq(b"ab", b"ab"));
    assert!(!webserv::search::bytes_eq(b"ab", b"aB"));
    assert!(webserv::search::bytes_start_with(b"abc", b"ab"));
    assert_eq!(webserv::text::trim_bytes(b"  x y\t\r\n"), b"x y".to_vec());
    assert!(webserv::text::bytes_eq_nocase(b"ChUnKeD", b"chunked"));
    assert!(!webserv::text::bytes_eq_nocase(b"close", b"closed"));
}
