use httpcore::cgi::{CGIExecutor, CgiOutcome};
use httpcore::config::{Config, LoggingConfig, ServerConfig, ServerError};
use httpcore::conn::Connection;
use httpcore::handlers::{handle_static, ErrorPages};
use httpcore::parser::HttpParser;
use httpcore::router::{Dispatch, HandlerKind, Router};
use httpcore::table::Table;

fn demo_router() -> Router {
    let mut router = Router::new();
    router.register("GET", "/", HandlerKind::Root);
    router.register("GET", "/health", HandlerKind::Health);
    router.register("GET", "/inspect", HandlerKind::Inspect);
    router.register("GET", "/form-test", HandlerKind::FormTest);
    router.register("POST", "/form-test", HandlerKind::FormTest);
    router.register("GET", "/api/users", HandlerKind::Users);
    router.register("POST", "/api/users", HandlerKind::Users);
    router.register("GET", "/download", HandlerKind::Download);
    router.register("GET", "/login", HandlerKind::Login);
    router.register("GET", "/static", HandlerKind::StaticDemo);
    router.register("GET", "/api/", HandlerKind::ApiCatchAll);
    router.register("POST", "/api/", HandlerKind::ApiCatchAll);
    router
}

#[test]
fn health_check_scenario() {
    let req = HttpParser::parse(b"GET /health HTTP/1.1\r\nHost: x\r\n\r\n").unwrap();
    let router = demo_router();
    match router.handle(&req) {
        Dispatch::Response(resp) => {
            assert_eq!(resp.status, 200);
            assert_eq!(resp.headers.get("Content-Type").unwrap(), "application/json");
            assert_eq!(
                resp.body,
                b"{\"status\": \"healthy\", \"timestamp\": \"2025-12-09T20:00:00Z\"}"
            );
        }
        _ => panic!("health must answer directly"),
    }
}

#[test]
fn exact_match_beats_prefix_route() {
    let req = HttpParser::parse(b"GET /api/users HTTP/1.1\r\n\r\n").unwrap();
    let router = demo_router();
    match router.handle(&req) {
        Dispatch::Response(resp) => {
            let text = String::from_utf8(resp.body).unwrap();
            // the exact users route answered, never the catch-all
            assert_eq!(text, "{\"path\": \"/api/users\", \"method\": \"GET\"}");
        }
        _ => panic!("users must answer directly"),
    }
}

#[test]
fn prefix_route_catches_other_api_paths() {
    let req = HttpParser::parse(b"GET /api/posts HTTP/1.1\r\n\r\n").unwrap();
    let router = demo_router();
    match router.handle(&req) {
        Dispatch::Response(resp) => {
            let text = String::from_utf8(resp.body).unwrap();
            assert!(text.contains("API endpoint"));
            assert!(text.contains("/api/posts"));
        }
        _ => panic!("catch-all must answer directly"),
    }
}

#[test]
fn root_route_is_never_a_prefix_match() {
    let mut router = Router::new();
    router.register("GET", "/", HandlerKind::Root);
    router.register("GET", "/api/", HandlerKind::ApiCatchAll);
    let req = HttpParser::parse(b"GET /nothing-here HTTP/1.1\r\n\r\n").unwrap();
    match router.handle(&req) {
        Dispatch::Response(resp) => {
            assert_eq!(resp.status, 404);
            assert_eq!(resp.status_text, "Not Found");
        }
        _ => panic!("an unmatched path must fall through to the not-found answer"),
    }
    // while the root path itself still matches exactly
    let root = HttpParser::parse(b"GET / HTTP/1.1\r\n\r\n").unwrap();
    match router.handle(&root) {
        Dispatch::Response(resp) => assert_eq!(resp.status, 200),
        _ => panic!("the root route must answer directly"),
    }
}

#[test]
fn inspect_echoes_the_request_line() {
    let req = HttpParser::parse(b"GET /inspect?name=test HTTP/1.1\r\nHost: h\r\n\r\n").unwrap();
    let router = demo_router();
    match router.handle(&req) {
        Dispatch::Response(resp) => {
            assert_eq!(resp.status, 200);
            assert_eq!(resp.headers.get("X-Inspector").unwrap(), "true");
            let text = String::from_utf8(resp.body).unwrap();
            assert!(text.contains("<tr><td>Method:</td><td>GET</td></tr>"));
            assert!(text.contains("<tr><td>Path:</td><td>/inspect</td></tr>"));
            assert!(text.contains("<tr><td>name:</td><td>test</td></tr>"));
        }
        _ => panic!("inspect must answer directly"),
    }
}

#[test]
fn form_test_lists_parsed_fields() {
    let req = HttpParser::parse(
        b"POST /form-test HTTP/1.1\r\nContent-Type: application/x-www-form-urlencoded\r\n\r\na=1&b=two",
    )
    .unwrap();
    let router = demo_router();
    match router.handle(&req) {
        Dispatch::Response(resp) => {
            assert_eq!(resp.headers.get("X-Form-Parser").unwrap(), "enabled");
            let text = String::from_utf8(resp.body).unwrap();
            assert!(text.contains("<tr><td>a:</td><td><code>1</code></td></tr>"));
            assert!(text.contains("<tr><td>b:</td><td><code>two</code></td></tr>"));
        }
        _ => panic!("the form demo must answer directly"),
    }
}

#[test]
fn download_is_chunked_and_login_sets_cookies() {
    let router = demo_router();
    let dl = HttpParser::parse(b"GET /download HTTP/1.1\r\n\r\n").unwrap();
    match router.handle(&dl) {
        Dispatch::Response(resp) => {
            assert!(resp.is_chunked);
            assert_eq!(resp.headers.get("Transfer-Encoding").unwrap(), "chunked");
            assert!(resp.headers.get("Content-Length").is_none());
        }
        _ => panic!("the download demo must answer directly"),
    }
    let login = HttpParser::parse(b"GET /login HTTP/1.1\r\n\r\n").unwrap();
    match router.handle(&login) {
        Dispatch::Response(resp) => {
            // the later cookie write wins the single Set-Cookie slot
            assert_eq!(
                resp.headers.get("Set-Cookie").unwrap(),
                "preferences=theme=dark&lang=en; Max-Age=2592000; Path=/; HttpOnly"
            );
        }
        _ => panic!("the login demo must answer directly"),
    }
}

#[test]
fn cgi_path_bypasses_routes() {
    let req = HttpParser::parse(b"GET /cgi-bin/test.cgi HTTP/1.1\r\n\r\n").unwrap();
    let router = demo_router();
    match router.handle(&req) {
        Dispatch::Cgi(script) => assert_eq!(script, "cgi-bin/test.cgi"),
        _ => panic!("a cgi path must go to the bridge"),
    }
}

#[test]
fn static_route_asks_for_the_file() {
    let req = HttpParser::parse(b"GET /static HTTP/1.1\r\n\r\n").unwrap();
    let router = demo_router();
    match router.handle(&req) {
        Dispatch::StaticFile(path) => assert_eq!(path, "static/example.html"),
        _ => panic!("the static demo must ask for its file"),
    }
}

#[test]
fn static_handler_serves_bytes_or_not_found() {
    let req = HttpParser::parse(b"GET /static HTTP/1.1\r\n\r\n").unwrap();
    let served = handle_static(&req, Some(b"<p>hi</p>".to_vec()));
    assert_eq!(served.status, 200);
    assert_eq!(served.body, b"<p>hi</p>");
    assert_eq!(served.headers.get("Content-Type").unwrap(), "text/html");
    let missing = handle_static(&req, None);
    assert_eq!(missing.status, 404);
}

#[test]
fn cgi_environment_entries() {
    let req = HttpParser::parse(
        b"GET /cgi-bin/test.cgi?x=1 HTTP/1.1\r\nHost: h\r\nX-Trace-Id: t1\r\n\r\n",
    )
    .unwrap();
    let inherited: Table<String> = Table::new();
    let env = CGIExecutor::build_cgi_env(&req, "127.0.0.1", &inherited);
    assert_eq!(env.get("REQUEST_METHOD").unwrap(), "GET");
    assert_eq!(env.get("SCRIPT_NAME").unwrap(), "/cgi-bin/test.cgi");
    assert_eq!(env.get("PATH_INFO").unwrap(), "/cgi-bin/test.cgi");
    assert_eq!(env.get("QUERY_STRING").unwrap(), "x=1");
    assert_eq!(env.get("CONTENT_LENGTH").unwrap(), "0");
    assert_eq!(env.get("CONTENT_TYPE").unwrap(), "text/plain");
    assert_eq!(env.get("GATEWAY_INTERFACE").unwrap(), "CGI/1.1");
    assert_eq!(env.get("REMOTE_ADDR").unwrap(), "127.0.0.1");
    assert_eq!(env.get("SERVER_PROTOCOL").unwrap(), "HTTP/1.1");
    assert_eq!(env.get("HTTP_HOST").unwrap(), "h");
    assert_eq!(env.get("HTTP_X_TRACE_ID").unwrap(), "t1");
}

#[test]
fn cgi_environment_passthrough() {
    let req = HttpParser::parse(b"GET /cgi-bin/a HTTP/1.1\r\n\r\n").unwrap();
    let mut inherited: Table<String> = Table::new();
    inherited.insert("PATH".to_string(), "/usr/bin".to_string());
    inherited.insert("SHELL".to_string(), "/bin/sh".to_string());
    inherited.insert("HOME".to_string(), "/root".to_string());
    let env = CGIExecutor::build_cgi_env(&req, "::1", &inherited);
    assert_eq!(env.get("PATH").unwrap(), "/usr/bin");
    assert_eq!(env.get("HOME").unwrap(), "/root");
    assert!(env.get("SHELL").is_none());
}

#[test]
fn cgi_response_with_status_line() {
    let resp = CGIExecutor::parse_cgi_response("Status: 200 OK\r\n\r\nHello");
    assert_eq!(resp.status, 200);
    assert_eq!(resp.status_text, "OK");
    assert_eq!(resp.body, b"Hello");
    assert_eq!(resp.headers.get("Content-Type").unwrap(), "text/html");
}

#[test]
fn cgi_response_with_headers_and_lf_separator() {
    let resp = CGIExecutor::parse_cgi_response(
        "Status: 404 Missing Thing\nContent-Type: text/plain\nX-S: v\n\nnope",
    );
    assert_eq!(resp.status, 404);
    assert_eq!(resp.status_text, "Missing Thing");
    assert_eq!(resp.headers.get("Content-Type").unwrap(), "text/plain");
    assert_eq!(resp.headers.get("X-S").unwrap(), "v");
    assert_eq!(resp.body, b"nope");
}

#[test]
fn cgi_response_without_headers_is_all_body() {
    let resp = CGIExecutor::parse_cgi_response("just text");
    assert_eq!(resp.status, 200);
    assert_eq!(resp.status_text, "OK");
    assert_eq!(resp.body, b"just text");
}

#[test]
fn cgi_stdin_carries_the_body_only_for_writes() {
    let post = HttpParser::parse(
        b"POST /cgi-bin/a HTTP/1.1\r\nContent-Type: text/plain\r\n\r\npayload",
    )
    .unwrap();
    assert_eq!(CGIExecutor::body_for_stdin(&post).unwrap(), b"payload");
    let get = HttpParser::parse(b"GET /cgi-bin/a HTTP/1.1\r\n\r\n").unwrap();
    assert!(CGIExecutor::body_for_stdin(&get).is_none());
}

#[test]
fn cgi_outcomes() {
    let ok = httpcore::cgi::cgi_result_response(
        "cgi-bin/a.cgi",
        CgiOutcome::Output(b"Status: 201 Made\r\n\r\nyes".to_vec()),
    );
    assert_eq!(ok.status, 201);
    assert_eq!(ok.body, b"yes");
    let missing = httpcore::cgi::cgi_result_response("cgi-bin/a.cgi", CgiOutcome::Missing);
    assert_eq!(missing.status, 404);
    assert_eq!(missing.body, b"CGI script not found");
    let failed = httpcore::cgi::cgi_result_response(
        "cgi-bin/a.cgi",
        CgiOutcome::SpawnFailed("permission denied".to_string()),
    );
    assert_eq!(failed.status, 500);
    let text = String::from_utf8(failed.body).unwrap();
    assert!(text.contains("permission denied"));
    assert!(text.contains("cgi-bin/a.cgi"));
}

#[test]
fn partial_read_dispatches_once() {
    let mut conn = Connection::new();
    conn.feed(b"GET /health HTTP/1.1\r\nHost:");
    assert!(conn.request.is_none());
    conn.feed(b" x\r\n\r\n");
    let req = conn.request.as_ref().expect("the second read completes the request");
    assert_eq!(req.method, "GET");
    assert_eq!(req.path, "/health");
    // further bytes do not re-parse: the parsed request stays as it is
    conn.feed(b"GET /other HTTP/1.1\r\n\r\n");
    assert_eq!(conn.request.as_ref().unwrap().path, "/health");
    conn.reset();
    assert!(conn.request.is_none());
    assert!(conn.buffer.is_empty());
}

#[test]
fn config_validation() {
    let mut cfg = Config {
        server: ServerConfig {
            host: "127.0.0.1".to_string(),
            port: 8080,
            timeout_ms: 100,
            max_events: 64,
        },
        logging: LoggingConfig { level: "info".to_string(), file: "server.log".to_string() },
    };
    assert!(cfg.validate().is_ok());
    cfg.server.port = 0;
    match cfg.validate() {
        Err(ServerError::InvalidConfig(msg)) => assert_eq!(msg, "Port cannot be 0"),
        _ => panic!("a zero port must be refused"),
    }
    cfg.server.port = 1;
    cfg.server.max_events = 0;
    match cfg.validate() {
        Err(ServerError::InvalidConfig(msg)) => assert_eq!(msg, "max_events cannot be 0"),
        _ => panic!("a zero event capacity must be refused"),
    }
    cfg.server.max_events = 1;
    cfg.server.timeout_ms = -1;
    match cfg.validate() {
        Err(ServerError::InvalidConfig(msg)) => assert_eq!(msg, "timeout_ms cannot be negative"),
        _ => panic!("a negative timeout must be refused"),
    }
}

#[test]
fn error_pages_are_html() {
    assert!(ErrorPages::not_found().contains("404"));
    assert!(ErrorPages::bad_request().contains("400"));
    assert!(ErrorPages::internal_error().contains("500"));
    assert!(ErrorPages::method_not_allowed().contains("405"));
}

#[test]
fn cgi_script_path_strips_every_prefix() {
    assert_eq!(Router::cgi_script_path("/cgi-bin/test.cgi"), "cgi-bin/test.cgi");
    assert_eq!(Router::cgi_script_path("/cgi-bin//cgi-bin/x"), "cgi-bin/x");
}
