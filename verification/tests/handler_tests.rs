use webserv::handler::cgi::{split_path_query, script_candidate, build_env, parse_cgi_output, has_cgi_extension};
use webserv::handler::error_page::{builtin_error_body, custom_error_path, error_response_with, default_message};
use webserv::handler::static_file::{safe_join, mime_for, static_response};
use webserv::handler::upload::{parse_multipart, upload_plan, upload_success_response};
use webserv::http::headers::Headers;
use webserv::http::method::Method;
use webserv::http::request::Request;
use webserv::http::status::StatusCode;

fn get_request(path: &str) -> Request {
    Request {
        method: Method::Get,
        path: path.to_string(),
        headers: Headers::new(),
        body: Vec::new(),
        content_length: None,
        keep_alive: true,
    }
}

#[test]
fn safe_join_rejects_parent_components() {
    assert!(safe_join("/root", "/a/../b").is_none());
    assert!(safe_join("/root", "/..").is_none());
    assert!(safe_join("/root", "..").is_none());
    assert_eq!(safe_join("/root", "/a/b.txt").unwrap(), "/root/a/b.txt");
    // empty and current-directory components vanish
    assert_eq!(safe_join("/root", "//a//.//b").unwrap(), "/root/a/b");
    assert_eq!(safe_join("/root", "").unwrap(), "/root/");
}

#[test]
fn mime_by_extension() {
    assert_eq!(mime_for("/www/a.html"), "text/html; charset=utf-8");
    assert_eq!(mime_for("a.css"), "text/css");
    assert_eq!(mime_for("x/y.svg"), "image/svg+xml");
    assert_eq!(mime_for("noext"), "application/octet-stream");
    assert_eq!(mime_for("dir.d/noext"), "application/octet-stream");
}

#[test]
fn autoindex_listing_rows() {
    let entries = vec![("a.txt".to_string(), false), ("sub".to_string(), true)];
    let r = webserv::handler::static_file::autoindex_page("/dir/", &entries);
    let text = String::from_utf8(r.body).unwrap();
    assert_eq!(
        text,
        "<html><head><title>Index of /dir/</title></head><body><h1>Index of /dir/</h1><hr><ul>\
         <li><a href=\"/dir/a.txt\">a.txt</a></li><li><a href=\"/dir/sub/\">sub/</a></li>\
         </ul><hr></body></html>"
    );
}

#[test]
fn static_response_is_typed() {
    let r = static_response("/www/index.html", b"HI".to_vec());
    assert!(matches!(r.status, StatusCode::Okay));
    assert_eq!(r.body, b"HI".to_vec());
    assert_eq!(r.headers.get("Content-Type").unwrap(), "text/html; charset=utf-8");
}

#[test]
fn split_path_and_query() {
    let (p, q) = split_path_query("/cgi-bin/echo.py?x=1");
    assert_eq!(p, "/cgi-bin/echo.py");
    assert_eq!(q, "x=1");
    let (p2, q2) = split_path_query("/plain");
    assert_eq!(p2, "/plain");
    assert_eq!(q2, "");
}

#[test]
fn script_candidate_needs_cgi_prefix() {
    assert_eq!(
        script_candidate("/root", "/cgi-bin/echo.py").unwrap(),
        "/root/cgi-bin/echo.py"
    );
    assert!(script_candidate("/root", "/static/echo.py").is_none());
    // the prefix is a path component, not a byte prefix
    assert!(script_candidate("/root", "/cgi-binX/echo.py").is_none());
    assert_eq!(script_candidate("/root", "/cgi-bin").unwrap(), "/root/cgi-bin");
}

#[test]
fn cgi_extension_is_checked() {
    assert!(has_cgi_extension("/root/cgi-bin/echo.py", ".py"));
    assert!(has_cgi_extension("/root/cgi-bin/echo.py", "py"));
    assert!(!has_cgi_extension("/root/cgi-bin/echo.sh", ".py"));
    assert!(!has_cgi_extension("/root/cgi-bin/echopy", "py"));
    assert!(!has_cgi_extension(".py", ".py"));
}

#[test]
fn cgi_environment_lines() {
    let mut req = get_request("/cgi-bin/echo.py?x=1");
    req.headers.insert("Content-Type".to_string(), "text/plain".to_string());
    req.content_length = Some(3);
    let env = build_env(&req, "/root/cgi-bin/echo.py", "x=1");
    assert_eq!(env[0], "REQUEST_METHOD=GET");
    assert_eq!(env[1], "QUERY_STRING=x=1");
    assert_eq!(env[2], "SERVER_PROTOCOL=HTTP/1.1");
    assert_eq!(env[3], "GATEWAY_INTERFACE=CGI/1.1");
    assert_eq!(env[4], "CONTENT_LENGTH=3");
    assert_eq!(env[5], "CONTENT_TYPE=text/plain");
    assert_eq!(env[6], "PATH_INFO=/root/cgi-bin/echo.py");
}

#[test]
fn cgi_output_with_status_line() {
    let out = b"Status: 200 OK\r\nContent-Type: text/plain\r\n\r\nx=1";
    let resp = parse_cgi_output(out);
    assert!(matches!(resp.status, StatusCode::Okay));
    assert_eq!(resp.headers.get("Content-Type").unwrap(), "text/plain");
    assert!(resp.headers.get("Status").is_none());
    assert_eq!(resp.body, b"x=1".to_vec());
}

#[test]
fn cgi_output_drops_framing_headers() {
    // a script's own Content-Length or Connection would break the
    // serializer's exactly-once guarantee; both are dropped
    let out = b"Content-Length: 999\r\nconnection: keep-alive\r\nX-Own: 1\r\n\r\nhi";
    let resp = parse_cgi_output(out);
    assert!(resp.headers.get("Content-Length").is_none());
    assert!(resp.headers.get("Connection").is_none());
    assert_eq!(resp.headers.get("X-Own").unwrap(), "1");
    let bytes = webserv::http::serializer::serialize_response(&resp, true);
    let text = String::from_utf8(bytes).unwrap();
    assert_eq!(text.matches("Content-Length").count(), 1);
    assert!(text.contains("Content-Length: 2\r\n"));
}

#[test]
fn cgi_output_unknown_status_maps_to_500() {
    let out = b"Status: 299 Odd\n\nbody";
    let resp = parse_cgi_output(out);
    assert!(matches!(resp.status, StatusCode::InternalServerError));
    assert_eq!(resp.body, b"body".to_vec());
}

#[test]
fn cgi_output_without_blank_line_is_all_body() {
    let out = b"no separators here";
    let resp = parse_cgi_output(out);
    assert!(matches!(resp.status, StatusCode::Okay));
    assert_eq!(resp.headers.len(), 0);
    assert_eq!(resp.body, b"no separators here".to_vec());
}

fn multipart_body() -> Vec<u8> {
    let mut b = Vec::new();
    b.extend_from_slice(b"--XYZ\r\n");
    b.extend_from_slice(b"Content-Disposition: form-data; name=\"file\"; filename=\"../evil/up.txt\"\r\n");
    b.extend_from_slice(b"Content-Type: text/plain\r\n");
    b.extend_from_slice(b"\r\n");
    b.extend_from_slice(b"DATA");
    b.extend_from_slice(b"\r\n--XYZ--");
    b
}

#[test]
fn multipart_first_file_part() {
    let body = multipart_body();
    let (name, data) = parse_multipart("--XYZ", &body).unwrap();
    assert_eq!(name, "../evil/up.txt");
    assert_eq!(data, b"DATA".to_vec());
}

#[test]
fn upload_plan_sanitizes_and_checks() {
    let mut req = get_request("/upload");
    req.method = Method::Post;
    req.headers.insert(
        "Content-Type".to_string(),
        "multipart/form-data; boundary=XYZ".to_string(),
    );
    req.body = multipart_body();
    let srv = webserv::config::parser::parse_config("server { listen 80; }", ".")
        .unwrap()
        .servers
        .remove(0);
    let (name, data) = upload_plan(&srv, &req).unwrap();
    // directory parts are stripped from the stored name
    assert_eq!(name, "up.txt");
    assert_eq!(data, b"DATA".to_vec());

    let mut get_req = get_request("/upload");
    get_req.headers.insert(
        "Content-Type".to_string(),
        "multipart/form-data; boundary=XYZ".to_string(),
    );
    assert!(matches!(
        upload_plan(&srv, &get_req),
        Err(StatusCode::MethodNotAllowed)
    ));

    let srv_small = webserv::config::parser::parse_config(
        "server { listen 80; client_max_body_size 3; }",
        ".",
    )
    .unwrap()
    .servers
    .remove(0);
    let mut post_req = get_request("/upload");
    post_req.method = Method::Post;
    post_req.body = b"0123456789".to_vec();
    assert!(matches!(
        upload_plan(&srv_small, &post_req),
        Err(StatusCode::PayloadTooLarge)
    ));
}

#[test]
fn upload_success_is_see_other() {
    let r = upload_success_response();
    assert!(matches!(r.status, StatusCode::SeeOther));
    assert_eq!(r.headers.get("Location").unwrap(), "/upload.html");
}

#[test]
fn error_pages() {
    assert_eq!(default_message(404), "Not Found");
    assert_eq!(default_message(418), "Unknown Error");
    let body = builtin_error_body(StatusCode::NotFound);
    let text = String::from_utf8(body).unwrap();
    assert_eq!(
        text,
        "<html><head><title>404 Not Found</title></head><body><h1>404 Not Found</h1><p>Not Found</p></body></html>"
    );
    let srv = webserv::config::parser::parse_config(
        "server { listen 80; error_page 404 /e/404.html; }",
        ".",
    )
    .unwrap()
    .servers
    .remove(0);
    assert_eq!(custom_error_path(&srv, 404).unwrap(), "/e/404.html");
    assert!(custom_error_path(&srv, 500).is_none());

    let from_file = error_response_with(StatusCode::Forbidden, Some(b"deny".to_vec()));
    assert!(matches!(from_file.status, StatusCode::Forbidden));
    assert_eq!(from_file.body, b"deny".to_vec());
    assert_eq!(
        from_file.headers.get("Content-Type").unwrap(),
        "text/html; charset=utf-8"
    );
    let synthesized = error_response_with(StatusCode::Forbidden, None);
    assert!(String::from_utf8(synthesized.body).unwrap().contains("403"));
}
