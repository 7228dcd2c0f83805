//! The built-in request handlers and the error pages.  Each contract fixes
//! the response envelope — status, reason text, the exact header list,
//! cookies and chunked mode — and the body where it carries data; the pure
//! page texts are presentation content.
use crate::builder::ResponseBuilder;
use crate::request::HttpRequest;
use crate::response::{HttpResponse, RespView};
use crate::table::{lemma_lookup_at, lemma_remove_missing, lemma_update_missing, update_entry};
use crate::text::{dec_rep, latin1};
use vstd::prelude::*;
use vstd::string::StringExecFns;
use vstd::string::StringSliceAdditionalSpecFns;
use vstd::utf8::encode_utf8;

verus! {

/// Encoding a non-empty character sequence yields at least one byte.
pub proof fn lemma_encode_nonempty(s: Seq<char>)
    requires
        s.len() > 0,
    ensures
        encode_utf8(s).len() > 0,
{
    vstd::utf8::char_is_scalar(s[0]);
    assert(vstd::utf8::encode_scalar(s[0] as u32).len() >= 1);
}

/// The header names the handlers write are pairwise distinct.
proof fn lemma_header_keys()
    ensures
        "Content-Type"@ != "Content-Length"@,
        "Content-Type"@ != "Cache-Control"@,
        "Content-Type"@ != "Set-Cookie"@,
        "Content-Type"@ != "X-API-Version"@,
        "Content-Type"@ != "X-Inspector"@,
        "Content-Type"@ != "X-Form-Parser"@,
        "Content-Type"@ != "Transfer-Encoding"@,
        "Content-Type"@ != "X-Session-Demo"@,
        "Content-Length"@ != "Cache-Control"@,
        "Content-Length"@ != "Set-Cookie"@,
        "Content-Length"@ != "X-API-Version"@,
        "Content-Length"@ != "X-Inspector"@,
        "Content-Length"@ != "X-Form-Parser"@,
        "Content-Length"@ != "Transfer-Encoding"@,
        "Content-Length"@ != "X-Session-Demo"@,
        "Cache-Control"@ != "Set-Cookie"@,
        "Cache-Control"@ != "X-API-Version"@,
        "Set-Cookie"@ != "X-API-Version"@,
        "Set-Cookie"@ != "X-Session-Demo"@,
        "Set-Cookie"@ != "X-Inspector"@,
        "Set-Cookie"@ != "X-Form-Parser"@,
        "Transfer-Encoding"@ != "Cache-Control"@,
        "X-Inspector"@ != "Content-Length"@,
{
    reveal_strlit("Content-Type");
    reveal_strlit("Content-Length");
    reveal_strlit("Cache-Control");
    reveal_strlit("Set-Cookie");
    reveal_strlit("X-API-Version");
    reveal_strlit("X-Inspector");
    reveal_strlit("X-Form-Parser");
    reveal_strlit("Transfer-Encoding");
    reveal_strlit("X-Session-Demo");
    assert("Content-Type"@.len() == 12);
    assert("Content-Length"@.len() == 14);
    assert("Cache-Control"@.len() == 13);
    assert("Set-Cookie"@.len() == 10);
    assert("X-API-Version"@.len() == 13);
    assert("X-Inspector"@.len() == 11);
    assert("X-Form-Parser"@.len() == 13);
    assert("Transfer-Encoding"@.len() == 17);
    assert("X-Session-Demo"@.len() == 14);
    assert("Cache-Control"@[0] == 'C' && "X-API-Version"@[0] == 'X' && "X-Form-Parser"@[0] == 'X');
    assert("X-API-Version"@[2] == 'A' && "X-Form-Parser"@[2] == 'F');
    assert("Content-Length"@[0] == 'C' && "X-Session-Demo"@[0] == 'X');
}

/// The response carries the given status line, is not chunked, and its
/// headers are exactly a content type followed by the computed content
/// length.
pub open spec fn page_resp(
    resp: RespView,
    status: u16,
    status_text: Seq<char>,
    content_type: Seq<char>,
) -> bool {
    &&& resp.status == status
    &&& resp.status_text == status_text
    &&& resp.is_chunked == false
    &&& resp.headers == seq![
        ("Content-Type"@, content_type),
        ("Content-Length"@, latin1(dec_rep(resp.body.len() as int))),
    ]
}

/// Like [`page_resp`] with one extra header written between the two.
pub open spec fn page_resp_extra(
    resp: RespView,
    status: u16,
    status_text: Seq<char>,
    content_type: Seq<char>,
    extra_key: Seq<char>,
    extra_val: Seq<char>,
) -> bool {
    &&& resp.status == status
    &&& resp.status_text == status_text
    &&& resp.is_chunked == false
    &&& resp.headers == seq![
        ("Content-Type"@, content_type),
        (extra_key, extra_val),
        ("Content-Length"@, latin1(dec_rep(resp.body.len() as int))),
    ]
}

/// The landing page: a fixed HTML overview of the routes.
pub fn handle_root(_req: &HttpRequest) -> (r: HttpResponse)
    ensures
        page_resp(r@, 200, "OK"@, "text/html; charset=utf-8"@),
        r@.body.len() > 0,
{
    let html =
        "<!DOCTYPE html>\n<html>\n<head>\n<title>Localhost Server</title>\n</head>\n<body>\n<h1>Welcome to Localhost Server</h1>\n<p>An HTTP server with a readiness-driven event loop and a hand-written HTTP parser.</p>\n<h2>Available Endpoints</h2>\n<ul>\n<li><code>GET /health</code> - server health in JSON</li>\n<li><code>GET /api/users</code> - user data with session cookie</li>\n<li><code>GET /inspect</code> - echo of the parsed request</li>\n<li><code>GET/POST /form-test</code> - form parsing demo</li>\n<li><code>GET /download</code> - chunked transfer demo</li>\n<li><code>GET /login</code> - cookie options demo</li>\n<li><code>GET /static</code> - static file serving</li>\n<li><code>GET /api/*</code> - catch-all API endpoint</li>\n</ul>\n</body>\n</html>";
    let r = ResponseBuilder::new().status(200, "OK").content_type(
        "text/html; charset=utf-8",
    ).body_text(html).build();
    proof {
        lemma_header_keys();
        let h0 = update_entry(
            Seq::<(Seq<char>, Seq<char>)>::empty(),
            "Content-Type"@,
            "text/html; charset=utf-8"@,
        );
        assert(h0 =~= seq![("Content-Type"@, "text/html; charset=utf-8"@)]);
        lemma_lookup_at(h0, "Content-Length"@, 1);
        lemma_update_missing(h0, "Content-Length"@, latin1(dec_rep(r@.body.len() as int)));
        assert(r@.headers =~= seq![
            ("Content-Type"@, "text/html; charset=utf-8"@),
            ("Content-Length"@, latin1(dec_rep(r@.body.len() as int))),
        ]);
        assert(html@.len() > 0) by {
            reveal_strlit(
                "<!DOCTYPE html>\n<html>\n<head>\n<title>Localhost Server</title>\n</head>\n<body>\n<h1>Welcome to Localhost Server</h1>\n<p>An HTTP server with a readiness-driven event loop and a hand-written HTTP parser.</p>\n<h2>Available Endpoints</h2>\n<ul>\n<li><code>GET /health</code> - server health in JSON</li>\n<li><code>GET /api/users</code> - user data with session cookie</li>\n<li><code>GET /inspect</code> - echo of the parsed request</li>\n<li><code>GET/POST /form-test</code> - form parsing demo</li>\n<li><code>GET /download</code> - chunked transfer demo</li>\n<li><code>GET /login</code> - cookie options demo</li>\n<li><code>GET /static</code> - static file serving</li>\n<li><code>GET /api/*</code> - catch-all API endpoint</li>\n</ul>\n</body>\n</html>",
            );
        }
        lemma_encode_nonempty(html@);
    }
    r
}

/// The health check: a JSON body reporting a healthy status, marked
/// uncacheable.
pub fn handle_health(_req: &HttpRequest) -> (r: HttpResponse)
    ensures
        page_resp_extra(r@, 200, "OK"@, "application/json"@, "Cache-Control"@, "no-cache"@),
        r@.body == "{\"status\": \"healthy\", \"timestamp\": \"2025-12-09T20:00:00Z\"}".spec_bytes(),
{
    let r = ResponseBuilder::new().status(200, "OK").content_type("application/json").body_text(
        "{\"status\": \"healthy\", \"timestamp\": \"2025-12-09T20:00:00Z\"}",
    ).header("Cache-Control", "no-cache").build();
    proof {
        lemma_header_keys();
        let h0 = update_entry(
            Seq::<(Seq<char>, Seq<char>)>::empty(),
            "Content-Type"@,
            "application/json"@,
        );
        assert(h0 =~= seq![("Content-Type"@, "application/json"@)]);
        lemma_update_missing(h0, "Cache-Control"@, "no-cache"@);
        let h1 = h0.push(("Cache-Control"@, "no-cache"@));
        lemma_lookup_at(h1, "Content-Length"@, 2);
        lemma_update_missing(h1, "Content-Length"@, latin1(dec_rep(r@.body.len() as int)));
        assert(r@.headers =~= seq![
            ("Content-Type"@, "application/json"@),
            ("Cache-Control"@, "no-cache"@),
            ("Content-Length"@, latin1(dec_rep(r@.body.len() as int))),
        ]);
    }
    r
}

/// The body the users endpoint answers with: a small JSON object naming the
/// request's path and method.
pub open spec fn users_body(path: Seq<char>, method: Seq<char>) -> Seq<char> {
    "{\"path\": \""@ + path + "\", \"method\": \""@ + method + "\"}"@
}

/// The users endpoint: echoes path and method as JSON and sets a session
/// cookie scoped to the API.
pub fn handle_users(req: &HttpRequest) -> (r: HttpResponse)
    ensures
        r@.status == 200,
        r@.status_text == "OK"@,
        r@.is_chunked == false,
        r@.body == encode_utf8(users_body(req@.path, req@.method)),
        r@.headers == seq![
            ("Content-Type"@, "application/json"@),
            (
                "Set-Cookie"@,
                "user_session=session_12345; Max-Age=3600; Path=/api; HttpOnly"@,
            ),
            ("Content-Length"@, latin1(dec_rep(r@.body.len() as int))),
        ],
{
    let mut body = String::new();
    body.append("{\"path\": \"");
    body.append(req.path.as_str());
    body.append("\", \"method\": \"");
    body.append(req.method.as_str());
    body.append("\"}");
    proof {
        assert(body@ =~= users_body(req@.path, req@.method));
    }
    let r = ResponseBuilder::new().status(200, "OK").content_type("application/json").body_text(
        body.as_str(),
    ).cookie_with_options("user_session", "session_12345", Some(3600), "/api", true).build();
    proof {
        lemma_header_keys();
        let h0 = update_entry(
            Seq::<(Seq<char>, Seq<char>)>::empty(),
            "Content-Type"@,
            "application/json"@,
        );
        assert(h0 =~= seq![("Content-Type"@, "application/json"@)]);
        let ck = "user_session"@ + "="@ + "session_12345"@ + ("; Max-Age="@ + latin1(
            dec_rep(3600),
        )) + "; Path="@ + "/api"@ + "; HttpOnly"@;
        assert(ck =~= "user_session=session_12345; Max-Age=3600; Path=/api; HttpOnly"@) by {
            reveal_strlit("user_session");
            reveal_strlit("=");
            reveal_strlit("session_12345");
            reveal_strlit("; Max-Age=");
            reveal_strlit("; Path=");
            reveal_strlit("/api");
            reveal_strlit("; HttpOnly");
            reveal_strlit("user_session=session_12345; Max-Age=3600; Path=/api; HttpOnly");
            reveal_with_fuel(dec_rep, 5);
            assert(dec_rep(3600) =~= seq![51u8, 54u8, 48u8, 48u8]);
            assert(latin1(dec_rep(3600)) =~= seq!['3', '6', '0', '0']);
        }
        lemma_update_missing(h0, "Set-Cookie"@, ck);
        let h1 = h0.push(("Set-Cookie"@, ck));
        lemma_lookup_at(h1, "Content-Length"@, 2);
        lemma_update_missing(h1, "Content-Length"@, latin1(dec_rep(r@.body.len() as int)));
        assert(r@.headers =~= seq![
            ("Content-Type"@, "application/json"@),
            (
                "Set-Cookie"@,
                "user_session=session_12345; Max-Age=3600; Path=/api; HttpOnly"@,
            ),
            ("Content-Length"@, latin1(dec_rep(r@.body.len() as int))),
        ]);
    }
    r
}

/// The body of the catch-all API endpoint.
pub open spec fn api_body(path: Seq<char>, method: Seq<char>) -> Seq<char> {
    "{\"message\": \"API endpoint\", \"path\": \""@ + path + "\", \"method\": \""@ + method
        + "\", \"timestamp\": \"2025-12-09T20:00:00Z\"}"@
}

/// The catch-all API endpoint: echoes path and method as JSON under an API
/// version header.
pub fn handle_api_catch_all(req: &HttpRequest) -> (r: HttpResponse)
    ensures
        page_resp_extra(r@, 200, "OK"@, "application/json"@, "X-API-Version"@, "1.0"@),
        r@.body == encode_utf8(api_body(req@.path, req@.method)),
{
    let mut body = String::new();
    body.append("{\"message\": \"API endpoint\", \"path\": \"");
    body.append(req.path.as_str());
    body.append("\", \"method\": \"");
    body.append(req.method.as_str());
    body.append("\", \"timestamp\": \"2025-12-09T20:00:00Z\"}");
    proof {
        assert(body@ =~= api_body(req@.path, req@.method));
    }
    let r = ResponseBuilder::new().status(200, "OK").content_type("application/json").body_text(
        body.as_str(),
    ).header("X-API-Version", "1.0").build();
    proof {
        lemma_header_keys();
        let h0 = update_entry(
            Seq::<(Seq<char>, Seq<char>)>::empty(),
            "Content-Type"@,
            "application/json"@,
        );
        assert(h0 =~= seq![("Content-Type"@, "application/json"@)]);
        lemma_update_missing(h0, "X-API-Version"@, "1.0"@);
        let h1 = h0.push(("X-API-Version"@, "1.0"@));
        lemma_lookup_at(h1, "Content-Length"@, 2);
        lemma_update_missing(h1, "Content-Length"@, latin1(dec_rep(r@.body.len() as int)));
        assert(r@.headers =~= seq![
            ("Content-Type"@, "application/json"@),
            ("X-API-Version"@, "1.0"@),
            ("Content-Length"@, latin1(dec_rep(r@.body.len() as int))),
        ]);
    }
    r
}

/// One table row per entry: `<tr><td>key:</td><td>value</td></tr>`.
pub open spec fn tr_rows(pairs: Seq<(Seq<char>, Seq<char>)>) -> Seq<char>
    decreases pairs.len(),
{
    if pairs.len() == 0 {
        Seq::<char>::empty()
    } else {
        "<tr><td>"@ + pairs[0].0 + ":</td><td>"@ + pairs[0].1 + "</td></tr>"@ + tr_rows(
            pairs.drop_first(),
        )
    }
}

/// The inspector page: the request line as a table, then the headers,
/// cookies and query parameters, each section shown only when it has
/// entries (the latter two say so when empty).
pub open spec fn inspect_body(req: crate::request::ReqView) -> Seq<char> {
    "<!DOCTYPE html>\n<html>\n<head><title>Request Inspector</title></head>\n<body>\n<h1>Request Inspector</h1>\n"@
        + "<div class=\"section\">\n<h2>Request Line</h2>\n<table>\n"@ + "<tr><td>Method:</td><td>"@
        + req.method + "</td></tr>\n<tr><td>Path:</td><td>"@ + req.path
        + "</td></tr>\n<tr><td>Query String:</td><td>"@ + (match req.query_string {
        Some(q) => q,
        None => "(none)"@,
    }) + "</td></tr>\n<tr><td>HTTP Version:</td><td>"@ + req.version
        + "</td></tr>\n</table>\n</div>\n"@ + (if req.headers.len() > 0 {
        "<div class=\"section\">\n<h2>Headers</h2>\n<table>"@ + tr_rows(req.headers)
            + "</table></div>"@
    } else {
        Seq::<char>::empty()
    }) + (if req.cookies.len() > 0 {
        "<div class=\"section\">\n<h2>Cookies</h2>\n<table>"@ + tr_rows(req.cookies)
            + "</table></div>"@
    } else {
        "<div class=\"section\">\n<h2>Cookies</h2>\n<p>(no cookies)</p>\n</div>"@
    }) + (if req.query_params.len() > 0 {
        "<div class=\"section\">\n<h2>Query Parameters</h2>\n<table>"@ + tr_rows(
            req.query_params,
        ) + "</table></div>"@
    } else {
        "<div class=\"section\">\n<h2>Query Parameters</h2>\n<p>(no query parameters)</p>\n</div>"@
    }) + "</body>\n</html>"@
}

/// Writes one table row per entry of the table.
fn append_rows(body: &mut String, table: &crate::table::Table<String>)
    ensures
        final(body)@ == old(body)@ + tr_rows(table@),
{
    let ghost tv = table@;
    let ghost base = body@;
    let mut i: usize = 0;
    proof {
        assert(tv.skip(0) =~= tv);
    }
    while i < table.len()
        invariant
            i <= tv.len(),
            tv == table@,
            base + tr_rows(tv) == body@ + tr_rows(tv.skip(i as int)),
        decreases tv.len() - i,
    {
        let ghost before = body@;
        body.append("<tr><td>");
        body.append(table.key_at(i).as_str());
        body.append(":</td><td>");
        body.append(table.val_at(i).as_str());
        body.append("</td></tr>");
        proof {
            let suf = tv.skip(i as int);
            assert(suf[0] == tv[i as int]);
            assert(suf.drop_first() =~= tv.skip(i + 1));
            assert(body@ =~= before + ("<tr><td>"@ + tv[i as int].0 + ":</td><td>"@
                + tv[i as int].1 + "</td></tr>"@));
            assert(before + tr_rows(suf) =~= body@ + tr_rows(tv.skip(i + 1)));
        }
        i = i + 1;
    }
    proof {
        assert(tv.skip(tv.len() as int) =~= Seq::<(Seq<char>, Seq<char>)>::empty());
        assert(body@ =~= base + tr_rows(tv));
    }
}

/// The request inspector: an HTML echo of the request line, headers,
/// cookies and query parameters.
pub fn handle_inspect(req: &HttpRequest) -> (r: HttpResponse)
    ensures
        page_resp_extra(
            r@,
            200,
            "OK"@,
            "text/html; charset=utf-8"@,
            "X-Inspector"@,
            "true"@,
        ),
        r@.body == encode_utf8(inspect_body(req@)),
        r@.body.len() > 0,
{
    let mut body = String::new();
    body.append(
        "<!DOCTYPE html>\n<html>\n<head><title>Request Inspector</title></head>\n<body>\n<h1>Request Inspector</h1>\n",
    );
    body.append("<div class=\"section\">\n<h2>Request Line</h2>\n<table>\n");
    body.append("<tr><td>Method:</td><td>");
    body.append(req.method.as_str());
    body.append("</td></tr>\n<tr><td>Path:</td><td>");
    body.append(req.path.as_str());
    body.append("</td></tr>\n<tr><td>Query String:</td><td>");
    match &req.query_string {
        Some(qs) => {
            body.append(qs.as_str());
        },
        None => {
            body.append("(none)");
        },
    }
    body.append("</td></tr>\n<tr><td>HTTP Version:</td><td>");
    body.append(req.version.as_str());
    body.append("</td></tr>\n</table>\n</div>\n");
    if !req.headers.is_empty() {
        body.append("<div class=\"section\">\n<h2>Headers</h2>\n<table>");
        append_rows(&mut body, &req.headers);
        body.append("</table></div>");
    }
    if !req.cookies.is_empty() {
        body.append("<div class=\"section\">\n<h2>Cookies</h2>\n<table>");
        append_rows(&mut body, &req.cookies);
        body.append("</table></div>");
    } else {
        body.append("<div class=\"section\">\n<h2>Cookies</h2>\n<p>(no cookies)</p>\n</div>");
    }
    if !req.query_params.is_empty() {
        body.append("<div class=\"section\">\n<h2>Query Parameters</h2>\n<table>");
        append_rows(&mut body, &req.query_params);
        body.append("</table></div>");
    } else {
        body.append(
            "<div class=\"section\">\n<h2>Query Parameters</h2>\n<p>(no query parameters)</p>\n</div>",
        );
    }
    body.append("</body>\n</html>");
    proof {
        assert(body@.len() > 0) by {
            reveal_strlit("</body>\n</html>");
        }
        assert(body@ =~= inspect_body(req@));
    }
    let r = ResponseBuilder::new().status(200, "OK").content_type(
        "text/html; charset=utf-8",
    ).body_text(body.as_str()).header("X-Inspector", "true").build();
    proof {
        lemma_header_keys();
        let h0 = update_entry(
            Seq::<(Seq<char>, Seq<char>)>::empty(),
            "Content-Type"@,
            "text/html; charset=utf-8"@,
        );
        assert(h0 =~= seq![("Content-Type"@, "text/html; charset=utf-8"@)]);
        lemma_update_missing(h0, "X-Inspector"@, "true"@);
        let h1 = h0.push(("X-Inspector"@, "true"@));
        lemma_lookup_at(h1, "Content-Length"@, 2);
        lemma_update_missing(h1, "Content-Length"@, latin1(dec_rep(r@.body.len() as int)));
        assert(r@.headers =~= seq![
            ("Content-Type"@, "text/html; charset=utf-8"@),
            ("X-Inspector"@, "true"@),
            ("Content-Length"@, latin1(dec_rep(r@.body.len() as int))),
        ]);
        lemma_encode_nonempty(body@);
    }
    r
}

/// One row per form field: the value set in code.
pub open spec fn code_rows(pairs: Seq<(Seq<char>, Seq<char>)>) -> Seq<char>
    decreases pairs.len(),
{
    if pairs.len() == 0 {
        Seq::<char>::empty()
    } else {
        "<tr><td>"@ + pairs[0].0 + ":</td><td><code>"@ + pairs[0].1 + "</code></td></tr>"@
            + code_rows(pairs.drop_first())
    }
}

/// One row per uploaded file: its name, size and declared type.
pub open spec fn file_rows(pairs: Seq<(Seq<char>, crate::request::FileView)>) -> Seq<char>
    decreases pairs.len(),
{
    if pairs.len() == 0 {
        Seq::<char>::empty()
    } else {
        "<tr><td>"@ + pairs[0].0 + ":</td><td><code>"@ + pairs[0].1.filename + "</code> ("@
            + latin1(dec_rep(pairs[0].1.data.len() as int)) + " bytes, type: "@
            + pairs[0].1.content_type + ")</td></tr>"@ + file_rows(pairs.drop_first())
    }
}

/// The form demo page: the request line, the parsed fields and files when
/// there are any, and the two test forms.
pub open spec fn form_test_body(req: crate::request::ReqView) -> Seq<char> {
    "<!DOCTYPE html>\n<html>\n<head><title>Form Parser Test</title></head>\n<body>\n<div class=\"container\">\n<h1>HTTP Parser Features Demo</h1>"@
        + "\n<div class=\"section\">\n<h2>Current Request Info</h2>\n<table>\n<tr><td>Method:</td><td>"@
        + req.method + "</td></tr>\n<tr><td>Path:</td><td>"@ + req.path
        + "</td></tr>\n<tr><td>HTTP Version:</td><td>"@ + req.version
        + "</td></tr>\n</table>\n</div>"@ + (if req.form_fields.len() > 0 {
        "\n<div class=\"section\">\n<h2>Form Fields Parsed</h2>\n<table>"@ + code_rows(
            req.form_fields,
        ) + "</table></div>"@
    } else {
        Seq::<char>::empty()
    }) + (if req.form_files.len() > 0 {
        "\n<div class=\"section\">\n<h2>Files Uploaded</h2>\n<table>"@ + file_rows(
            req.form_files,
        ) + "</table></div>"@
    } else {
        Seq::<char>::empty()
    })
        + "\n<div class=\"form-section\">\n<h2>Test URL-Encoded Form</h2>\n<form method=\"POST\" action=\"/form-test\" enctype=\"application/x-www-form-urlencoded\">\n<label>Username:</label><input type=\"text\" name=\"username\" value=\"john_doe\">\n<label>Email:</label><input type=\"email\" name=\"email\" value=\"john@example.com\">\n<button type=\"submit\">Submit Form (URL-Encoded)</button>\n</form>\n</div>\n<div class=\"form-section\">\n<h2>Test Multipart Form</h2>\n<form method=\"POST\" action=\"/form-test\" enctype=\"multipart/form-data\">\n<label>Name:</label><input type=\"text\" name=\"name\" value=\"John Doe\">\n<label>File:</label><input type=\"file\" name=\"upload\">\n<button type=\"submit\">Submit Form (Multipart)</button>\n</form>\n</div>\n</div>"@
        + "\n</body>\n</html>"@
}

/// Writes one field row per entry of the table.
fn append_code_rows(body: &mut String, table: &crate::table::Table<String>)
    ensures
        final(body)@ == old(body)@ + code_rows(table@),
{
    let ghost tv = table@;
    let ghost base = body@;
    let mut i: usize = 0;
    proof {
        assert(tv.skip(0) =~= tv);
    }
    while i < table.len()
        invariant
            i <= tv.len(),
            tv == table@,
            base + code_rows(tv) == body@ + code_rows(tv.skip(i as int)),
        decreases tv.len() - i,
    {
        let ghost before = body@;
        body.append("<tr><td>");
        body.append(table.key_at(i).as_str());
        body.append(":</td><td><code>");
        body.append(table.val_at(i).as_str());
        body.append("</code></td></tr>");
        proof {
            let suf = tv.skip(i as int);
            assert(suf[0] == tv[i as int]);
            assert(suf.drop_first() =~= tv.skip(i + 1));
            assert(body@ =~= before + ("<tr><td>"@ + tv[i as int].0 + ":</td><td><code>"@
                + tv[i as int].1 + "</code></td></tr>"@));
            assert(before + code_rows(suf) =~= body@ + code_rows(tv.skip(i + 1)));
        }
        i = i + 1;
    }
    proof {
        assert(tv.skip(tv.len() as int) =~= Seq::<(Seq<char>, Seq<char>)>::empty());
        assert(body@ =~= base + code_rows(tv));
    }
}

/// Writes one file row per entry of the table.
fn append_file_rows(body: &mut String, table: &crate::table::Table<crate::request::FormFile>)
    ensures
        final(body)@ == old(body)@ + file_rows(table@),
{
    let ghost tv = table@;
    let ghost base = body@;
    let mut i: usize = 0;
    proof {
        assert(tv.skip(0) =~= tv);
    }
    while i < table.len()
        invariant
            i <= tv.len(),
            tv == table@,
            base + file_rows(tv) == body@ + file_rows(tv.skip(i as int)),
        decreases tv.len() - i,
    {
        let ghost before = body@;
        body.append("<tr><td>");
        body.append(table.key_at(i).as_str());
        body.append(":</td><td><code>");
        let file = table.val_at(i);
        body.append(file.filename.as_str());
        body.append("</code> (");
        let digits = crate::text::dec_string(file.data.len());
        body.append(digits.as_str());
        body.append(" bytes, type: ");
        body.append(file.content_type.as_str());
        body.append(")</td></tr>");
        proof {
            let suf = tv.skip(i as int);
            assert(suf[0] == tv[i as int]);
            assert(suf.drop_first() =~= tv.skip(i + 1));
            assert(body@ =~= before + ("<tr><td>"@ + tv[i as int].0 + ":</td><td><code>"@
                + tv[i as int].1.filename + "</code> ("@ + latin1(
                dec_rep(tv[i as int].1.data.len() as int),
            ) + " bytes, type: "@ + tv[i as int].1.content_type + ")</td></tr>"@));
            assert(before + file_rows(suf) =~= body@ + file_rows(tv.skip(i + 1)));
        }
        i = i + 1;
    }
    proof {
        assert(tv.skip(tv.len() as int) =~= Seq::<(Seq<char>, crate::request::FileView)>::empty());
        assert(body@ =~= base + file_rows(tv));
    }
}

/// The form demo: shows parsed fields and uploaded files, and serves the
/// test forms.
pub fn handle_form_test(req: &HttpRequest) -> (r: HttpResponse)
    ensures
        page_resp_extra(
            r@,
            200,
            "OK"@,
            "text/html; charset=utf-8"@,
            "X-Form-Parser"@,
            "enabled"@,
        ),
        r@.body == encode_utf8(form_test_body(req@)),
        r@.body.len() > 0,
{
    let mut body = String::new();
    body.append(
        "<!DOCTYPE html>\n<html>\n<head><title>Form Parser Test</title></head>\n<body>\n<div class=\"container\">\n<h1>HTTP Parser Features Demo</h1>",
    );
    body.append(
        "\n<div class=\"section\">\n<h2>Current Request Info</h2>\n<table>\n<tr><td>Method:</td><td>",
    );
    body.append(req.method.as_str());
    body.append("</td></tr>\n<tr><td>Path:</td><td>");
    body.append(req.path.as_str());
    body.append("</td></tr>\n<tr><td>HTTP Version:</td><td>");
    body.append(req.version.as_str());
    body.append("</td></tr>\n</table>\n</div>");
    if !req.form_fields.is_empty() {
        body.append("\n<div class=\"section\">\n<h2>Form Fields Parsed</h2>\n<table>");
        append_code_rows(&mut body, &req.form_fields);
        body.append("</table></div>");
    }
    if !req.form_files.is_empty() {
        body.append("\n<div class=\"section\">\n<h2>Files Uploaded</h2>\n<table>");
        append_file_rows(&mut body, &req.form_files);
        body.append("</table></div>");
    }
    body.append(
        "\n<div class=\"form-section\">\n<h2>Test URL-Encoded Form</h2>\n<form method=\"POST\" action=\"/form-test\" enctype=\"application/x-www-form-urlencoded\">\n<label>Username:</label><input type=\"text\" name=\"username\" value=\"john_doe\">\n<label>Email:</label><input type=\"email\" name=\"email\" value=\"john@example.com\">\n<button type=\"submit\">Submit Form (URL-Encoded)</button>\n</form>\n</div>\n<div class=\"form-section\">\n<h2>Test Multipart Form</h2>\n<form method=\"POST\" action=\"/form-test\" enctype=\"multipart/form-data\">\n<label>Name:</label><input type=\"text\" name=\"name\" value=\"John Doe\">\n<label>File:</label><input type=\"file\" name=\"upload\">\n<button type=\"submit\">Submit Form (Multipart)</button>\n</form>\n</div>\n</div>",
    );
    body.append("\n</body>\n</html>");
    proof {
        assert(body@.len() > 0) by {
            reveal_strlit("\n</body>\n</html>");
        }
        assert(body@ =~= form_test_body(req@));
    }
    let r = ResponseBuilder::new().status(200, "OK").content_type(
        "text/html; charset=utf-8",
    ).body_text(body.as_str()).header("X-Form-Parser", "enabled").build();
    proof {
        lemma_header_keys();
        let h0 = update_entry(
            Seq::<(Seq<char>, Seq<char>)>::empty(),
            "Content-Type"@,
            "text/html; charset=utf-8"@,
        );
        assert(h0 =~= seq![("Content-Type"@, "text/html; charset=utf-8"@)]);
        lemma_update_missing(h0, "X-Form-Parser"@, "enabled"@);
        let h1 = h0.push(("X-Form-Parser"@, "enabled"@));
        lemma_lookup_at(h1, "Content-Length"@, 2);
        lemma_update_missing(h1, "Content-Length"@, latin1(dec_rep(r@.body.len() as int)));
        assert(r@.headers =~= seq![
            ("Content-Type"@, "text/html; charset=utf-8"@),
            ("X-Form-Parser"@, "enabled"@),
            ("Content-Length"@, latin1(dec_rep(r@.body.len() as int))),
        ]);
        lemma_encode_nonempty(body@);
    }
    r
}

/// The chunked-transfer demo: a fixed page streamed with chunked encoding
/// and marked uncacheable.
pub fn handle_download(_req: &HttpRequest) -> (r: HttpResponse)
    ensures
        r@.status == 200,
        r@.status_text == "OK"@,
        r@.is_chunked == true,
        r@.headers == seq![
            ("Content-Type"@, "text/html; charset=utf-8"@),
            ("Transfer-Encoding"@, "chunked"@),
            ("Cache-Control"@, "no-store"@),
        ],
        r@.body.len() > 0,
{
    let large_content =
        "<!DOCTYPE html>\n<html>\n<head><title>Chunked Response Demo</title></head>\n<body>\n<div class=\"container\">\n<h1>Chunked Transfer Encoding Demo</h1>\n<p>This response was sent using <strong>Transfer-Encoding: chunked</strong>, allowing the server to stream large content without knowing the total size in advance.</p>\n<h2>How It Works</h2>\n<p>With chunked encoding enabled, the response body is sent as a series of chunks: a size in hex, then that many bytes, ended by a zero-size chunk.</p>\n<h2>Use Cases</h2>\n<ul>\n<li>Server-sent events</li>\n<li>Large file downloads</li>\n<li>API responses generated on the fly</li>\n</ul>\n</body>\n</html>";
    let r = ResponseBuilder::new().status(200, "OK").content_type(
        "text/html; charset=utf-8",
    ).body_text(large_content).chunked(true).header("Cache-Control", "no-store").build();
    proof {
        lemma_header_keys();
        let h0 = update_entry(
            Seq::<(Seq<char>, Seq<char>)>::empty(),
            "Content-Type"@,
            "text/html; charset=utf-8"@,
        );
        assert(h0 =~= seq![("Content-Type"@, "text/html; charset=utf-8"@)]);
        lemma_update_missing(h0, "Transfer-Encoding"@, "chunked"@);
        let h1 = h0.push(("Transfer-Encoding"@, "chunked"@));
        lemma_remove_missing(h1, "Content-Length"@);
        lemma_update_missing(h1, "Cache-Control"@, "no-store"@);
        let h2 = h1.push(("Cache-Control"@, "no-store"@));
        assert(r@.headers =~= seq![
            ("Content-Type"@, "text/html; charset=utf-8"@),
            ("Transfer-Encoding"@, "chunked"@),
            ("Cache-Control"@, "no-store"@),
        ]);
        assert(large_content@.len() > 0) by {
            reveal_strlit(
                "<!DOCTYPE html>\n<html>\n<head><title>Chunked Response Demo</title></head>\n<body>\n<div class=\"container\">\n<h1>Chunked Transfer Encoding Demo</h1>\n<p>This response was sent using <strong>Transfer-Encoding: chunked</strong>, allowing the server to stream large content without knowing the total size in advance.</p>\n<h2>How It Works</h2>\n<p>With chunked encoding enabled, the response body is sent as a series of chunks: a size in hex, then that many bytes, ended by a zero-size chunk.</p>\n<h2>Use Cases</h2>\n<ul>\n<li>Server-sent events</li>\n<li>Large file downloads</li>\n<li>API responses generated on the fly</li>\n</ul>\n</body>\n</html>",
            );
        }
        lemma_encode_nonempty(large_content@);
    }
    r
}

/// The session demo: a fixed page that sets a session cookie and a
/// preferences cookie, each with attributes; the later `Set-Cookie` write
/// overwrites the earlier one.
pub fn handle_login(_req: &HttpRequest) -> (r: HttpResponse)
    ensures
        r@.status == 200,
        r@.status_text == "OK"@,
        r@.is_chunked == false,
        r@.headers == seq![
            ("Content-Type"@, "text/html; charset=utf-8"@),
            (
                "Set-Cookie"@,
                "preferences=theme=dark&lang=en; Max-Age=2592000; Path=/; HttpOnly"@,
            ),
            ("X-Session-Demo"@, "true"@),
            ("Content-Length"@, latin1(dec_rep(r@.body.len() as int))),
        ],
        r@.body.len() > 0,
{
    let html =
        "<!DOCTYPE html>\n<html>\n<head><title>Session Management Demo</title></head>\n<body>\n<div class=\"container\">\n<h1>Session Management Demo</h1>\n<p>This response sets a session cookie and a preferences cookie, each with Max-Age, Path and HttpOnly attributes.</p>\n<ul>\n<li><strong>HttpOnly:</strong> keeps scripts away from the cookie</li>\n<li><strong>Max-Age:</strong> lifetime in seconds</li>\n<li><strong>Path:</strong> the cookie's scope</li>\n</ul>\n</body>\n</html>";
    let r = ResponseBuilder::new().status(200, "OK").content_type(
        "text/html; charset=utf-8",
    ).body_text(html).cookie_with_options(
        "user_session",
        "session_12345",
        Some(3600),
        "/",
        true,
    ).cookie_with_options(
        "preferences",
        "theme=dark&lang=en",
        Some(2592000),
        "/",
        true,
    ).header("X-Session-Demo", "true").build();
    proof {
        lemma_header_keys();
        let h0 = update_entry(
            Seq::<(Seq<char>, Seq<char>)>::empty(),
            "Content-Type"@,
            "text/html; charset=utf-8"@,
        );
        assert(h0 =~= seq![("Content-Type"@, "text/html; charset=utf-8"@)]);
        let ck1 = "user_session"@ + "="@ + "session_12345"@ + ("; Max-Age="@ + latin1(
            dec_rep(3600),
        )) + "; Path="@ + "/"@ + "; HttpOnly"@;
        lemma_update_missing(h0, "Set-Cookie"@, ck1);
        let h1 = h0.push(("Set-Cookie"@, ck1));
        let ck2 = "preferences"@ + "="@ + "theme=dark&lang=en"@ + ("; Max-Age="@ + latin1(
            dec_rep(2592000),
        )) + "; Path="@ + "/"@ + "; HttpOnly"@;
        assert(ck2 =~= "preferences=theme=dark&lang=en; Max-Age=2592000; Path=/; HttpOnly"@) by {
            reveal_strlit("preferences");
            reveal_strlit("=");
            reveal_strlit("theme=dark&lang=en");
            reveal_strlit("; Max-Age=");
            reveal_strlit("; Path=");
            reveal_strlit("/");
            reveal_strlit("; HttpOnly");
            reveal_strlit("preferences=theme=dark&lang=en; Max-Age=2592000; Path=/; HttpOnly");
            reveal_with_fuel(dec_rep, 8);
            assert(dec_rep(2592000) =~= seq![50u8, 53u8, 57u8, 50u8, 48u8, 48u8, 48u8]);
            assert(latin1(dec_rep(2592000)) =~= seq!['2', '5', '9', '2', '0', '0', '0']);
        }
        // the second cookie overwrites the first in place
        assert(h1.len() == 2);
        assert(h1[0] == ("Content-Type"@, "text/html; charset=utf-8"@));
        assert(h1.drop_first() =~= seq![("Set-Cookie"@, ck1)]);
        let inner = update_entry(seq![("Set-Cookie"@, ck1)], "Set-Cookie"@, ck2);
        assert(seq![("Set-Cookie"@, ck1)].drop_first() =~= Seq::<(Seq<char>, Seq<char>)>::empty());
        assert(inner =~= seq![("Set-Cookie"@, ck2)]);
        assert(update_entry(h1, "Set-Cookie"@, ck2) == seq![h1[0]] + inner);
        assert(update_entry(h1, "Set-Cookie"@, ck2) =~= seq![
            ("Content-Type"@, "text/html; charset=utf-8"@),
            ("Set-Cookie"@, ck2),
        ]);
        let h2 = seq![("Content-Type"@, "text/html; charset=utf-8"@), ("Set-Cookie"@, ck2)];
        lemma_update_missing(h2, "X-Session-Demo"@, "true"@);
        let h3 = h2.push(("X-Session-Demo"@, "true"@));
        lemma_lookup_at(h3, "Content-Length"@, 3);
        lemma_update_missing(h3, "Content-Length"@, latin1(dec_rep(r@.body.len() as int)));
        assert(r@.headers =~= seq![
            ("Content-Type"@, "text/html; charset=utf-8"@),
            ("Set-Cookie"@, ck2),
            ("X-Session-Demo"@, "true"@),
            ("Content-Length"@, latin1(dec_rep(r@.body.len() as int))),
        ]);
        assert(html@.len() > 0) by {
            reveal_strlit(
                "<!DOCTYPE html>\n<html>\n<head><title>Session Management Demo</title></head>\n<body>\n<div class=\"container\">\n<h1>Session Management Demo</h1>\n<p>This response sets a session cookie and a preferences cookie, each with Max-Age, Path and HttpOnly attributes.</p>\n<ul>\n<li><strong>HttpOnly:</strong> keeps scripts away from the cookie</li>\n<li><strong>Max-Age:</strong> lifetime in seconds</li>\n<li><strong>Path:</strong> the cookie's scope</li>\n</ul>\n</body>\n</html>",
            );
        }
        lemma_encode_nonempty(html@);
    }
    r
}

/// The static-file demo: serves the bytes the caller read from the demo
/// file, typed by its extension, or the not-found page when the file was
/// missing.  Reading the file itself is the caller's concern.
pub fn handle_static(_req: &HttpRequest, file_data: Option<Vec<u8>>) -> (r: HttpResponse)
    ensures
        match file_data {
            Some(data) => {
                &&& r@.status == 200
                &&& r@.status_text == "OK"@
                &&& r@.is_chunked == false
                &&& r@.body == data@
                &&& r@.headers == seq![
                    ("Content-Type"@, "text/html"@),
                    ("Cache-Control"@, "public, max-age=3600"@),
                    ("Content-Length"@, latin1(dec_rep(data@.len() as int))),
                ]
            },
            None => {
                &&& page_resp(r@, 404, "Not Found"@, "text/html; charset=utf-8"@)
                &&& r@.body.len() > 0
            },
        },
{
    match file_data {
        Some(data) => {
            let content_type = ResponseBuilder::get_content_type("static/example.html");
            proof {
                assert(content_type@ == "text/html"@) by {
                    reveal_strlit("static/example.html");
                    reveal_strlit(".html");
                    assert(vstd::utf8::is_ascii_chars("static/example.html"@));
                    vstd::utf8::is_ascii_chars_encode_utf8("static/example.html"@);
                    assert(vstd::utf8::is_ascii_chars(".html"@));
                    vstd::utf8::is_ascii_chars_encode_utf8(".html"@);
                    let p = "static/example.html".spec_bytes();
                    let q = ".html".spec_bytes();
                    assert(p.len() == 19 && q.len() == 5);
                    assert(p.skip(14) =~= q);
                }
            }
            let ghost dv = data@;
            let r = ResponseBuilder::new().body_bytes(data).content_type(
                content_type.as_str(),
            ).status(200, "OK").header("Cache-Control", "public, max-age=3600").build();
            proof {
                lemma_header_keys();
                let h0 = update_entry(
                    Seq::<(Seq<char>, Seq<char>)>::empty(),
                    "Content-Type"@,
                    "text/html"@,
                );
                assert(h0 =~= seq![("Content-Type"@, "text/html"@)]);
                lemma_update_missing(h0, "Cache-Control"@, "public, max-age=3600"@);
                let h1 = h0.push(("Cache-Control"@, "public, max-age=3600"@));
                lemma_lookup_at(h1, "Content-Length"@, 2);
                lemma_update_missing(h1, "Content-Length"@, latin1(dec_rep(dv.len() as int)));
                assert(r@.headers =~= seq![
                    ("Content-Type"@, "text/html"@),
                    ("Cache-Control"@, "public, max-age=3600"@),
                    ("Content-Length"@, latin1(dec_rep(dv.len() as int))),
                ]);
            }
            r
        },
        None => {
            let page = ErrorPages::not_found();
            let r = ResponseBuilder::new().status(404, "Not Found").content_type(
                "text/html; charset=utf-8",
            ).body_text(page.as_str()).build();
            proof {
                lemma_header_keys();
                let h0 = update_entry(
                    Seq::<(Seq<char>, Seq<char>)>::empty(),
                    "Content-Type"@,
                    "text/html; charset=utf-8"@,
                );
                assert(h0 =~= seq![("Content-Type"@, "text/html; charset=utf-8"@)]);
                lemma_lookup_at(h0, "Content-Length"@, 1);
                lemma_update_missing(
                    h0,
                    "Content-Length"@,
                    latin1(dec_rep(r@.body.len() as int)),
                );
                assert(r@.headers =~= seq![
                    ("Content-Type"@, "text/html; charset=utf-8"@),
                    ("Content-Length"@, latin1(dec_rep(r@.body.len() as int))),
                ]);
                lemma_encode_nonempty(page@);
            }
            r
        },
    }
}

/// The fixed error pages.  Their markup is presentation content; each is
/// some non-empty HTML document.
pub struct ErrorPages;

impl ErrorPages {
    /// The page for a missing resource.
    pub fn not_found() -> (r: String)
        ensures
            r@.len() > 0,
    {
        let page =
            "<!DOCTYPE html>\n<html lang=\"en\">\n<head>\n<meta charset=\"UTF-8\">\n<title>404 Not Found</title>\n</head>\n<body>\n<div class=\"container\">\n<h1>404</h1>\n<p>The page you're looking for doesn't exist.</p>\n<p>It might have been removed or the URL might be incorrect.</p>\n<a href=\"/\">Go Home</a>\n<div class=\"error-details\">\n<strong>Error Details:</strong><br>\nResource not found on this server.\n</div>\n</div>\n</body>\n</html>";
        proof {
            reveal_strlit(
                "<!DOCTYPE html>\n<html lang=\"en\">\n<head>\n<meta charset=\"UTF-8\">\n<title>404 Not Found</title>\n</head>\n<body>\n<div class=\"container\">\n<h1>404</h1>\n<p>The page you're looking for doesn't exist.</p>\n<p>It might have been removed or the URL might be incorrect.</p>\n<a href=\"/\">Go Home</a>\n<div class=\"error-details\">\n<strong>Error Details:</strong><br>\nResource not found on this server.\n</div>\n</div>\n</body>\n</html>",
            );
        }
        page.to_owned()
    }

    /// The page for a malformed request.
    pub fn bad_request() -> (r: String)
        ensures
            r@.len() > 0,
    {
        let page =
            "<!DOCTYPE html>\n<html lang=\"en\">\n<head>\n<meta charset=\"UTF-8\">\n<title>400 Bad Request</title>\n</head>\n<body>\n<div class=\"container\">\n<h1>400</h1>\n<p>Bad Request</p>\n<p>The server cannot process your request due to a client error.</p>\n<a href=\"/\">Go Home</a>\n</div>\n</body>\n</html>";
        proof {
            reveal_strlit(
                "<!DOCTYPE html>\n<html lang=\"en\">\n<head>\n<meta charset=\"UTF-8\">\n<title>400 Bad Request</title>\n</head>\n<body>\n<div class=\"container\">\n<h1>400</h1>\n<p>Bad Request</p>\n<p>The server cannot process your request due to a client error.</p>\n<a href=\"/\">Go Home</a>\n</div>\n</body>\n</html>",
            );
        }
        page.to_owned()
    }

    /// The page for a server-side failure.
    pub fn internal_error() -> (r: String)
        ensures
            r@.len() > 0,
    {
        let page =
            "<!DOCTYPE html>\n<html lang=\"en\">\n<head>\n<meta charset=\"UTF-8\">\n<title>500 Internal Server Error</title>\n</head>\n<body>\n<div class=\"container\">\n<h1>500</h1>\n<p>Internal Server Error</p>\n<p>Something went wrong on our end. Please try again later.</p>\n<a href=\"/\">Go Home</a>\n</div>\n</body>\n</html>";
        proof {
            reveal_strlit(
                "<!DOCTYPE html>\n<html lang=\"en\">\n<head>\n<meta charset=\"UTF-8\">\n<title>500 Internal Server Error</title>\n</head>\n<body>\n<div class=\"container\">\n<h1>500</h1>\n<p>Internal Server Error</p>\n<p>Something went wrong on our end. Please try again later.</p>\n<a href=\"/\">Go Home</a>\n</div>\n</body>\n</html>",
            );
        }
        page.to_owned()
    }

    /// The page for a method the resource does not support.
    pub fn method_not_allowed() -> (r: String)
        ensures
            r@.len() > 0,
    {
        let page =
            "<!DOCTYPE html>\n<html lang=\"en\">\n<head>\n<meta charset=\"UTF-8\">\n<title>405 Method Not Allowed</title>\n</head>\n<body>\n<div class=\"container\">\n<h1>405</h1>\n<p>Method Not Allowed</p>\n<p>The HTTP method used is not supported for this resource.</p>\n<a href=\"/\">Go Home</a>\n</div>\n</body>\n</html>";
        proof {
            reveal_strlit(
                "<!DOCTYPE html>\n<html lang=\"en\">\n<head>\n<meta charset=\"UTF-8\">\n<title>405 Method Not Allowed</title>\n</head>\n<body>\n<div class=\"container\">\n<h1>405</h1>\n<p>Method Not Allowed</p>\n<p>The HTTP method used is not supported for this resource.</p>\n<a href=\"/\">Go Home</a>\n</div>\n</body>\n</html>",
            );
        }
        page.to_owned()
    }
}

} // verus!
