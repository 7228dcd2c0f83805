use httpcore::multipart::{self};
use httpcore::parser::HttpParser;
use httpcore::builder::ResponseBuilder;
use httpcore::response::HttpResponse;

#[test]
fn parse_health_request() {
    let req = HttpParser::parse(b"GET /health HTTP/1.1\r\nHost: x\r\n\r\n").unwrap();
    assert_eq!(req.method, "GET");
    assert_eq!(req.path, "/health");
    assert_eq!(req.version, "HTTP/1.1");
    assert_eq!(req.query_string, None);
    assert_eq!(req.headers.get("Host").unwrap(), "x");
    assert!(req.body.is_empty());
}

#[test]
fn parse_incomplete_request_line() {
    assert!(HttpParser::parse(b"GET").is_none());
    assert!(HttpParser::parse(b"").is_none());
    assert!(HttpParser::parse(b"GET /x\r\n").is_none());
}

#[test]
fn parse_waits_for_the_header_terminator() {
    // a full request line and a started header, but no blank line yet
    assert!(HttpParser::parse(b"GET /health HTTP/1.1\r\nHost: x").is_none());
    assert!(HttpParser::parse(b"GET /health HTTP/1.1\r\nHost: x\r\n").is_none());
    assert!(HttpParser::parse(b"GET /health HTTP/1.1\r\n").is_none());
    // the blank line completes it
    assert!(HttpParser::parse(b"GET /health HTTP/1.1\r\nHost: x\r\n\r\n").is_some());
}

#[test]
fn parse_query_parameters() {
    let req = HttpParser::parse(b"GET /inspect?name=John%20Doe&age=30&flag HTTP/1.1\r\n\r\n")
        .unwrap();
    assert_eq!(req.path, "/inspect");
    assert_eq!(req.query_string.as_deref(), Some("name=John%20Doe&age=30&flag"));
    assert_eq!(req.query_params.get("name").unwrap(), "John Doe");
    assert_eq!(req.query_params.get("age").unwrap(), "30");
    assert_eq!(req.query_params.get("flag").unwrap(), "");
}

#[test]
fn parse_cookie_header() {
    let req = HttpParser::parse(
        b"GET / HTTP/1.1\r\nCookie: session_id=abc123; user_id = 42\r\n\r\n",
    )
    .unwrap();
    assert_eq!(req.cookies.get("session_id").unwrap(), "abc123");
    assert_eq!(req.cookies.get("user_id").unwrap(), "42");
}

#[test]
fn parse_duplicate_header_last_wins() {
    let req = HttpParser::parse(b"GET / HTTP/1.1\r\nX-A: one\r\nX-A: two\r\n\r\n").unwrap();
    assert_eq!(req.headers.get("X-A").unwrap(), "two");
    assert_eq!(req.headers.len(), 1);
}

#[test]
fn url_decode_basics() {
    assert_eq!(HttpParser::url_decode("a%20b+c"), "a b c");
    assert_eq!(HttpParser::url_decode("a%40b.com"), "a@b.com");
    assert_eq!(HttpParser::url_decode("plain"), "plain");
    // a malformed escape is dropped and decoding continues
    assert_eq!(HttpParser::url_decode("x%zzy"), "xy");
    // a truncated escape at the end is dropped whole
    assert_eq!(HttpParser::url_decode("x%2"), "x");
}

#[test]
fn url_decode_unescaped_is_identity() {
    let s = "alpha-beta_gamma.delta~0123";
    assert_eq!(HttpParser::url_decode(s), s);
    let twice = HttpParser::url_decode(&HttpParser::url_decode(s));
    assert_eq!(twice, s);
}

#[test]
fn chunked_body_decodes() {
    let out = HttpParser::decode_chunked(b"4\r\nWiki\r\n5\r\npedia\r\n0\r\n\r\n");
    assert_eq!(out, b"Wikipedia");
}

#[test]
fn chunked_malformed_size_line_is_skipped() {
    let out = HttpParser::decode_chunked(b"zz\r\n4\r\nWiki\r\n0\r\n\r\n");
    assert_eq!(out, b"Wiki");
}

#[test]
fn chunked_request_body() {
    let req = HttpParser::parse(
        b"POST /form-test HTTP/1.1\r\nTransfer-Encoding: chunked\r\n\r\n4\r\nWiki\r\n5\r\npedia\r\n0\r\n\r\n",
    )
    .unwrap();
    assert_eq!(req.body, b"Wikipedia");
}

#[test]
fn chunked_encode_then_decode_round_trip() {
    // carriage returns in the body survive; only line feeds are excluded
    let body: Vec<u8> = (0..3000u32).map(|i| (i % 251) as u8).map(|b| if b == 10 { 13 } else { b }).collect();
    let resp = ResponseBuilder::new()
        .status(200, "OK")
        .body_bytes(body.clone())
        .chunked(true)
        .build();
    let wire = resp.to_bytes();
    // cut the serialized response at the blank line and decode the chunked tail
    let sep = wire.windows(4).position(|w| w == b"\r\n\r\n").unwrap();
    let decoded = HttpParser::decode_chunked(&wire[sep + 4..]);
    assert_eq!(decoded, body);
}

#[test]
fn urlencoded_form_fields() {
    let (fields, files) = HttpParser::parse_form_data(
        "application/x-www-form-urlencoded",
        b"username=john&email=a%40b.com",
    );
    assert_eq!(fields.get("username").unwrap(), "john");
    assert_eq!(fields.get("email").unwrap(), "a@b.com");
    assert_eq!(files.len(), 0);
}

#[test]
fn urlencoded_form_via_parse() {
    let req = HttpParser::parse(
        b"POST /form-test HTTP/1.1\r\nContent-Type: application/x-www-form-urlencoded\r\n\r\nusername=john&email=a%40b.com",
    )
    .unwrap();
    assert_eq!(req.form_fields.get("username").unwrap(), "john");
    assert_eq!(req.form_fields.get("email").unwrap(), "a@b.com");
}

#[test]
fn multipart_field_and_file() {
    let body = b"--XbOuNd\r\nContent-Disposition: form-data; name=\"title\"\r\n\r\nhello world\r\n--XbOuNd\r\nContent-Disposition: form-data; name=\"upload\"; filename=\"a.txt\"\r\nContent-Type: text/plain\r\n\r\nfile bytes\r\n--XbOuNd--\r\n";
    let (fields, files) = HttpParser::parse_form_data(
        "multipart/form-data; boundary=XbOuNd",
        body,
    );
    assert_eq!(fields.get("title").unwrap(), "hello world");
    let f = files.get("upload").unwrap();
    assert_eq!(f.filename, "a.txt");
    assert_eq!(f.content_type, "text/plain");
    assert_eq!(f.data, b"file bytes");
}

#[test]
fn form_data_other_content_type_is_empty() {
    let (fields, files) = HttpParser::parse_form_data("text/plain", b"a=b");
    assert_eq!(fields.len(), 0);
    assert_eq!(files.len(), 0);
}

#[test]
fn response_new_serializes() {
    let resp = HttpResponse::new(200, "OK", "hi");
    let wire = resp.to_bytes();
    let text = String::from_utf8(wire).unwrap();
    assert!(text.starts_with("HTTP/1.1 200 OK\r\n"));
    assert!(text.contains("Content-Type: text/html\r\n"));
    assert!(text.contains("Content-Length: 2\r\n"));
    assert!(text.ends_with("\r\n\r\nhi"));
}

#[test]
fn builder_sets_status_headers_and_body() {
    let resp = ResponseBuilder::new()
        .status(201, "Created")
        .content_type("application/json")
        .header("X-Custom", "yes")
        .body_text("{}")
        .build();
    assert_eq!(resp.status, 201);
    assert_eq!(resp.status_text, "Created");
    assert_eq!(resp.headers.get("Content-Type").unwrap(), "application/json");
    assert_eq!(resp.headers.get("X-Custom").unwrap(), "yes");
    assert_eq!(resp.headers.get("Content-Length").unwrap(), "2");
    assert_eq!(resp.body, b"{}");
}

#[test]
fn builder_chunked_drops_content_length() {
    let resp = ResponseBuilder::new()
        .body_text("abc")
        .chunked(true)
        .build();
    assert!(resp.is_chunked);
    assert_eq!(resp.headers.get("Transfer-Encoding").unwrap(), "chunked");
    assert!(resp.headers.get("Content-Length").is_none());
}

#[test]
fn builder_cookie_with_options() {
    let resp = ResponseBuilder::new()
        .cookie_with_options("sid", "42", Some(3600), "/", true)
        .build();
    assert_eq!(
        resp.headers.get("Set-Cookie").unwrap(),
        "sid=42; Max-Age=3600; Path=/; HttpOnly"
    );
}

#[test]
fn builder_plain_cookie_written_on_build() {
    let resp = ResponseBuilder::new().cookie("a", "1").cookie("b", "2").build();
    // plain cookies share the single Set-Cookie header; the last write wins
    assert_eq!(resp.headers.get("Set-Cookie").unwrap(), "b=2");
}

#[test]
fn content_type_by_extension() {
    assert_eq!(ResponseBuilder::get_content_type("x.html"), "text/html");
    assert_eq!(ResponseBuilder::get_content_type("x.css"), "text/css");
    assert_eq!(ResponseBuilder::get_content_type("x.js"), "application/javascript");
    assert_eq!(ResponseBuilder::get_content_type("x.png"), "image/png");
    assert_eq!(ResponseBuilder::get_content_type("x.jpeg"), "image/jpeg");
    assert_eq!(ResponseBuilder::get_content_type("x.bin"), "application/octet-stream");
}

#[test]
fn multipart_stops_at_closing_boundary() {
    let body = b"--B\r\nContent-Disposition: form-data; name=\"a\"\r\n\r\n1\r\n--B--\r\nContent-Disposition: form-data; name=\"late\"\r\n\r\n2\r\n";
    let (fields, _files) = HttpParser::parse_form_data("multipart/form-data; boundary=B", body);
    assert_eq!(fields.get("a").unwrap(), "1");
    assert!(fields.get("late").is_none());
}

#[test]
fn multipart_module_is_reachable() {
    // the split helper is part of the public surface
    let parts = multipart::split_marker_bytes(b"a--b--c", b"--");
    let views: Vec<&[u8]> = parts.iter().map(|p| p.as_slice()).collect();
    assert_eq!(views, vec![b"a".as_slice(), b"b".as_slice(), b"c".as_slice()]);
}
