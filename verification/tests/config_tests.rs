use webserv::config::parser::parse_config;

#[test]
fn test_simple_config() {
    let config_str = r#"
        server {
            listen 8080;
            server_name localhost;
            root /var/www/html;
            index index.html;
        }
    "#;
    let config = parse_config(config_str, ".").unwrap();
    assert_eq!(config.servers.len(), 1);
    let s = &config.servers[0];
    assert_eq!(s.listen[0].port, 8080);
    assert_eq!(s.server_names[0], "localhost");
}

#[test]
fn test_multiple_servers() {
    let config_str = r#"
        server {
            listen 8000;
        }
        server {
            listen 9000;
        }
    "#;
    let config = parse_config(config_str, ".").unwrap();
    assert_eq!(config.servers.len(), 2);
}

#[test]
fn test_comments() {
    let config_str = r#"
        # This is a comment
        server {
            listen 8080; # Inline comment
        }
    "#;
    let config = parse_config(config_str, ".").unwrap();
    assert_eq!(config.servers.len(), 1);
}

#[test]
fn test_location_block() {
    let config_str = r#"
        server {
            listen 8080;
            location / {
                root /www;
                methods GET POST;
                autoindex on;
            }
        }
    "#;
    let config = parse_config(config_str, ".").unwrap();
    let s = &config.servers[0];
    assert_eq!(s.locations.len(), 1);
    let loc = &s.locations[0];
    assert_eq!(loc.path, "/");
    assert_eq!(loc.autoindex, Some(true));
}

#[test]
fn test_full_server_block() {
    let config_str = r#"
        server {
            listen 127.0.0.1:8081;
            server_name a b;
            root www;
            index index.html index.htm;
            error_page 404 /err/404.html;
            client_max_body_size 1024;
            keep_alive_timeout 5;
            location /cgi-bin {
                cgi .py /usr/bin/python3;
                body_limit 64;
            }
            location /old {
                redirect http://example.test/new;
                methods DELETE;
            }
        }
    "#;
    let config = parse_config(config_str, "/base").unwrap();
    let s = &config.servers[0];
    assert_eq!(s.listen[0].host, "127.0.0.1");
    assert_eq!(s.listen[0].port, 8081);
    assert_eq!(s.server_names, vec!["a".to_string(), "b".to_string()]);
    assert_eq!(s.root.as_deref(), Some("/base/www"));
    assert_eq!(s.index.len(), 2);
    assert_eq!(s.errors[0].code, 404);
    assert_eq!(s.errors[0].path, "/err/404.html");
    assert_eq!(s.client_max_body_size, Some(1024));
    assert_eq!(s.keep_alive_timeout, Some(5));
    assert_eq!(s.locations.len(), 2);
    let cgi_loc = &s.locations[0];
    let cgi = cgi_loc.cgi.as_ref().unwrap();
    assert_eq!(cgi.extension, ".py");
    assert_eq!(cgi.interpreter, "/usr/bin/python3");
    assert_eq!(cgi_loc.body_limit, Some(64));
    // a location without its own root inherits the server root
    assert_eq!(cgi_loc.root.as_deref(), Some("/base/www"));
    assert_eq!(s.locations[1].redirect.as_deref(), Some("http://example.test/new"));
    assert_eq!(
        s.locations[1].methods,
        Some(vec![webserv::config::ast::HttpMethod::Delete])
    );
}

#[test]
fn test_no_servers_is_rejected() {
    let err = parse_config("# empty\n", ".").unwrap_err();
    assert_eq!(err, "No servers defined");
}

#[test]
fn test_missing_listen_is_rejected() {
    let err = parse_config("server { }", ".").unwrap_err();
    assert_eq!(err, "Server #0 missing listen directive");
    let err2 = parse_config("server { listen 80; } server { }", ".").unwrap_err();
    assert_eq!(err2, "Server #1 missing listen directive");
}

#[test]
fn test_listen_rejects_names_and_bad_ports() {
    let err = parse_config("server { listen localhost:80; }", ".").unwrap_err();
    assert_eq!(err, "Invalid listen address: localhost:80");
    let err2 = parse_config("server { listen 70000; }", ".").unwrap_err();
    assert_eq!(err2, "Invalid listen address: 0.0.0.0:70000");
    let err3 = parse_config("server { listen 01.2.3.4:80; }", ".").unwrap_err();
    assert_eq!(err3, "Invalid listen address: 01.2.3.4:80");
    let err4 = parse_config("server { listen 1.2.3.456:80; }", ".").unwrap_err();
    assert_eq!(err4, "Invalid listen address: 1.2.3.456:80");
    let cfg = parse_config("server { listen [::1]:8080; }", ".").unwrap();
    assert_eq!(cfg.servers[0].listen[0].host, "[::1]");
    assert_eq!(cfg.servers[0].listen[0].port, 8080);
}

#[test]
fn test_unterminated_string_is_rejected() {
    let err = parse_config("server { listen 80; root \"www", ".").unwrap_err();
    assert_eq!(err, "Unterminated string literal");
}

#[test]
fn test_quoted_strings_and_ports() {
    let config = parse_config("server { listen \"9090\"; root \"spaced dir\"; }", "/b").unwrap();
    let s = &config.servers[0];
    assert_eq!(s.listen[0].host, "0.0.0.0");
    assert_eq!(s.listen[0].port, 9090);
    assert_eq!(s.root.as_deref(), Some("/b/spaced dir"));
}

#[test]
fn test_find_server_by_host_and_addr() {
    let config_str = r#"
        server { listen 80; server_name alpha; }
        server { listen 80; server_name beta; }
        server { listen 81; }
    "#;
    let config = parse_config(config_str, ".").unwrap();
    let addr = webserv::config::ast::Addr { host: "0.0.0.0".to_string(), port: 80 };
    let host = "beta:80".to_string();
    let srv = config.find_server(&addr, Some(&host));
    assert_eq!(srv.server_names[0], "beta");
    // no matching name: first server on the address
    let other = "gamma".to_string();
    let srv2 = config.find_server(&addr, Some(&other));
    assert_eq!(srv2.server_names[0], "alpha");
    // no matching address at all: the first server
    let addr9 = webserv::config::ast::Addr { host: "0.0.0.0".to_string(), port: 9999 };
    let srv3 = config.find_server(&addr9, None);
    assert_eq!(srv3.server_names[0], "alpha");
}

#[test]
fn test_find_location_longest_prefix() {
    let config_str = r#"
        server {
            listen 80;
            location / { autoindex off; }
            location /img { autoindex on; }
        }
    "#;
    let config = parse_config(config_str, ".").unwrap();
    let s = &config.servers[0];
    let loc = s.find_location("/img/x.png").unwrap();
    assert_eq!(loc.path, "/img");
    let loc2 = s.find_location("/other").unwrap();
    assert_eq!(loc2.path, "/");
    assert!(s.find_location("img-without-slash").is_none());
}
