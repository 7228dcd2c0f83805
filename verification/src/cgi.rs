//! The CGI bridge's pure halves: building the process environment from a
//! request, and reading a script's output back into a response.  Spawning
//! the process itself is the caller's concern; its outcome comes back in
//! through [`CgiOutcome`].
use crate::request::{HttpRequest, ReqView};
use crate::response::{HttpResponse, RespView};
use crate::table::{fold_table, lookup, update_entry, Table};
use crate::text::{
    bytes_to_string, dec_rep, dec_string, find_byte, find_from, find_sub, find_sub_from, latin1,
    lines_of, parse_uint, parse_uint_s, split_lines, starts_with_bytes, starts_with_s, trim_bytes,
    trim_s,
};
use vstd::prelude::*;
use vstd::string::StringExecFns;
use vstd::string::StringSliceAdditionalSpecFns;

verus! {

/// One character of a header name turned into its CGI environment form:
/// upper-cased, with dashes as underscores.
pub open spec fn cgi_key_char(c: char) -> char {
    if 97 <= (c as int) && (c as int) <= 122 {
        (((c as u8) - 32) as char)
    } else if c == '-' {
        '_'
    } else {
        c
    }
}

/// The environment name for a request header.
pub open spec fn cgi_key(k: Seq<char>) -> Seq<char> {
    "HTTP_"@ + k.map_values(|c: char| cgi_key_char(c))
}

/// The `HTTP_*` pairs the request headers contribute, in header order.
pub open spec fn cgi_header_pairs(headers: Seq<(Seq<char>, Seq<char>)>) -> Seq<
    (Seq<char>, Seq<char>),
> {
    headers.map_values(|p: (Seq<char>, Seq<char>)| (cgi_key(p.0), p.1))
}

/// The passthrough pairs: entries of the host environment named `PATH`,
/// `HOME` or `USER`, in their given order.
pub open spec fn fold_inherit(
    env: Seq<(Seq<char>, Seq<char>)>,
    pairs: Seq<(Seq<char>, Seq<char>)>,
) -> Seq<(Seq<char>, Seq<char>)>
    decreases pairs.len(),
{
    if pairs.len() == 0 {
        env
    } else {
        let next = if pairs[0].0 == "PATH"@ || pairs[0].0 == "HOME"@ || pairs[0].0 == "USER"@ {
            update_entry(env, pairs[0].0, pairs[0].1)
        } else {
            env
        };
        fold_inherit(next, pairs.drop_first())
    }
}

/// The CGI/1.1 environment for a request: the standard variables, one
/// `HTTP_*` entry per request header, and the inherited `PATH`, `HOME` and
/// `USER` of the host process.
pub open spec fn cgi_env_spec(
    req: ReqView,
    client_ip: Seq<char>,
    inherited: Seq<(Seq<char>, Seq<char>)>,
) -> Seq<(Seq<char>, Seq<char>)> {
    let e0 = Seq::<(Seq<char>, Seq<char>)>::empty();
    let e1 = update_entry(e0, "REQUEST_METHOD"@, req.method);
    let e2 = update_entry(e1, "SCRIPT_NAME"@, req.path);
    let e3 = update_entry(e2, "PATH_INFO"@, req.path);
    let e4 = update_entry(
        e3,
        "QUERY_STRING"@,
        match req.query_string {
            Some(q) => q,
            None => Seq::<char>::empty(),
        },
    );
    let e5 = update_entry(e4, "CONTENT_LENGTH"@, latin1(dec_rep(req.body.len() as int)));
    let e6 = update_entry(
        e5,
        "CONTENT_TYPE"@,
        match lookup(req.headers, "Content-Type"@) {
            Some(ct) => ct,
            None => "text/plain"@,
        },
    );
    let e7 = update_entry(e6, "SERVER_NAME"@, "localhost"@);
    let e8 = update_entry(e7, "SERVER_PORT"@, "8000"@);
    let e9 = update_entry(e8, "SERVER_PROTOCOL"@, req.version);
    let e10 = update_entry(e9, "SERVER_SOFTWARE"@, "localhost-http-server/1.0"@);
    let e11 = update_entry(e10, "REMOTE_ADDR"@, client_ip);
    let e12 = update_entry(e11, "REMOTE_HOST"@, client_ip);
    let e13 = fold_table(e12, cgi_header_pairs(req.headers));
    let e14 = update_entry(e13, "GATEWAY_INTERFACE"@, "CGI/1.1"@);
    fold_inherit(e14, inherited)
}

impl CGIExecutor {
    /// The bytes piped to a spawned script's input: the request body for a
    /// `POST` or `PUT` request, and nothing for any other method.
    pub fn body_for_stdin<'a>(request: &'a HttpRequest) -> (r: Option<&'a Vec<u8>>)
        ensures
            match r {
                Some(b) => (request@.method == "POST"@ || request@.method == "PUT"@) && b@
                    == request@.body,
                None => request@.method != "POST"@ && request@.method != "PUT"@,
            },
    {
        if crate::text::str_eq(request.method.as_str(), "POST") || crate::text::str_eq(
            request.method.as_str(),
            "PUT",
        ) {
            Some(&request.body)
        } else {
            None
        }
    }
}

/// What the world reports back about one CGI invocation.
pub enum CgiOutcome {
    /// The script ran; these are its output bytes.
    Output(Vec<u8>),
    /// The script could not be spawned; the text describes the failure.
    SpawnFailed(String),
    /// No script exists at the path.
    Missing,
}

/// `Status:` prefixes stripped from the front of a CGI status line, as
/// `trim_start_matches` strips them.
pub open spec fn strip_status_rep(l: Seq<u8>) -> Seq<u8>
    decreases l.len() when "Status:".spec_bytes().len() >= 1
{
    if starts_with_s(l, "Status:".spec_bytes()) && "Status:".spec_bytes().len() >= 1 {
        strip_status_rep(l.skip("Status:".spec_bytes().len() as int))
    } else {
        l
    }
}

/// The state while reading CGI header lines.
pub ghost struct CgiScan {
    pub status: u16,
    pub text: Seq<char>,
    pub headers: Seq<(Seq<char>, Seq<char>)>,
}

/// Reads the CGI header lines from `i` on: a `Status:` line sets the code
/// (and the text when one follows the code), any other line with a colon
/// becomes a header, everything else is skipped.
pub open spec fn cgi_scan(lines: Seq<Seq<u8>>, i: int, st: CgiScan) -> CgiScan
    decreases lines.len() - i when 0 <= i
{
    if i >= lines.len() {
        st
    } else {
        let l = lines[i];
        let next = if l.len() == 0 {
            st
        } else if starts_with_s(l, "Status:".spec_bytes()) {
            let sl = trim_s(strip_status_rep(l));
            let first = match find_from(sl, 32, 0) {
                Some(sp) => sl.take(sp),
                None => sl,
            };
            match parse_uint_s(first, 10, 65535) {
                Some(code) => CgiScan {
                    status: code as u16,
                    text: match find_from(sl, 32, 0) {
                        Some(sp) => latin1(sl.skip(sp + 1)),
                        None => st.text,
                    },
                    headers: st.headers,
                },
                None => st,
            }
        } else {
            match find_from(l, 58, 0) {
                Some(cp) => CgiScan {
                    status: st.status,
                    text: st.text,
                    headers: update_entry(
                        st.headers,
                        latin1(trim_s(l.take(cp))),
                        latin1(trim_s(l.skip(cp + 1))),
                    ),
                },
                None => st,
            }
        };
        cgi_scan(lines, i + 1, next)
    }
}

/// The header block and body a CGI output splits into: at the first
/// CRLF-CRLF, else at the first LF-LF, else the whole output is body under
/// an implied `Status: 200 OK`.
pub open spec fn cgi_split(out: Seq<u8>) -> (Seq<u8>, Seq<u8>) {
    match find_sub_from(out, "\r\n\r\n".spec_bytes(), 0) {
        Some(p) => (out.take(p), out.skip(p + 4)),
        None => match find_sub_from(out, "\n\n".spec_bytes(), 0) {
            Some(p) => (out.take(p), out.skip(p + 2)),
            None => ("Status: 200 OK".spec_bytes(), out),
        },
    }
}

/// The response a CGI output denotes: scanned headers over a default of
/// `200 OK`, a `text/html` content type unless the script set one, and the
/// remaining bytes as body.
pub open spec fn cgi_response_spec(out: Seq<u8>) -> RespView {
    let hdr = cgi_split(out).0;
    let body = cgi_split(out).1;
    let st = cgi_scan(
        lines_of(hdr),
        0,
        CgiScan { status: 200, text: "OK"@, headers: Seq::empty() },
    );
    let headers = if lookup(st.headers, "Content-Type"@) is None {
        update_entry(st.headers, "Content-Type"@, "text/html"@)
    } else {
        st.headers
    };
    RespView {
        status: st.status,
        status_text: st.text,
        headers,
        body,
        is_chunked: false,
    }
}

/// Reads a CGI script's output bytes into a response.
fn parse_cgi_bytes(out: &[u8]) -> (r: HttpResponse)
    ensures
        r@ == cgi_response_spec(out@),
        r.headers.wf(),
{
    let olen = out.len();
    proof {
        assert("\r\n\r\n".spec_bytes().len() == 4) by {
            reveal_strlit("\r\n\r\n");
            assert(vstd::utf8::is_ascii_chars("\r\n\r\n"@));
            vstd::utf8::is_ascii_chars_encode_utf8("\r\n\r\n"@);
        }
        assert("\n\n".spec_bytes().len() == 2) by {
            reveal_strlit("\n\n");
            assert(vstd::utf8::is_ascii_chars("\n\n"@));
            vstd::utf8::is_ascii_chars_encode_utf8("\n\n"@);
        }
    }
    let (hdr, body): (&[u8], Vec<u8>) = match find_sub(out, "\r\n\r\n".as_bytes(), 0) {
        Some(p) => {
            proof {
                assert(out@.subrange(0, p as int) =~= out@.take(p as int));
                assert(out@.subrange(p + 4, olen as int) =~= out@.skip(p + 4));
            }
            (
                vstd::slice::slice_subrange(out, 0, p),
                vstd::slice::slice_to_vec(vstd::slice::slice_subrange(out, p + 4, olen)),
            )
        },
        None => match find_sub(out, "\n\n".as_bytes(), 0) {
            Some(p) => {
                proof {
                    assert(out@.subrange(0, p as int) =~= out@.take(p as int));
                    assert(out@.subrange(p + 2, olen as int) =~= out@.skip(p + 2));
                }
                (
                    vstd::slice::slice_subrange(out, 0, p),
                    vstd::slice::slice_to_vec(vstd::slice::slice_subrange(out, p + 2, olen)),
                )
            },
            None => ("Status: 200 OK".as_bytes(), vstd::slice::slice_to_vec(out)),
        },
    };
    let ghost hv = cgi_split(out@).0;
    proof {
        assert(hdr@ == hv);
        assert(body@ == cgi_split(out@).1);
    }
    let lines = split_lines(hdr);
    let ghost lv = lines_of(hv);
    let mut status_code: u16 = 200;
    let mut status_text: String = "OK".to_owned();
    let mut headers: Table<String> = Table::new();
    let ghost st0 = CgiScan { status: 200, text: "OK"@, headers: Seq::empty() };
    let mut i: usize = 0;
    proof {
        assert("Status:".spec_bytes().len() == 7) by {
            reveal_strlit("Status:");
            assert(vstd::utf8::is_ascii_chars("Status:"@));
            vstd::utf8::is_ascii_chars_encode_utf8("Status:"@);
        }
    }
    while i < lines.len()
        invariant
            i <= lv.len(),
            lines.deep_view() == lv,
            headers.wf(),
            "Status:".spec_bytes().len() == 7,
            cgi_scan(lv, 0, st0) == cgi_scan(
                lv,
                i as int,
                CgiScan { status: status_code, text: status_text@, headers: headers@ },
            ),
        decreases lv.len() - i,
    {
        let ghost cur = CgiScan { status: status_code, text: status_text@, headers: headers@ };
        let line = &lines[i];
        let llen = line.len();
        proof {
            assert(line@ =~= lv[i as int]);
        }
        if llen == 0 {
        } else if starts_with_bytes(line.as_slice(), "Status:".as_bytes()) {
            // strip every leading `Status:` and trim
            let mut rest: &[u8] = line.as_slice();
            let ghost r0 = rest@;
            loop
                invariant
                    strip_status_rep(lv[i as int]) == strip_status_rep(rest@),
                    "Status:".spec_bytes().len() == 7,
                ensures
                    strip_status_rep(lv[i as int]) == strip_status_rep(rest@),
                    !starts_with_s(rest@, "Status:".spec_bytes()),
                decreases rest@.len(),
            {
                if starts_with_bytes(rest, "Status:".as_bytes()) {
                    let ghost before = rest@;
                    rest = vstd::slice::slice_subrange(rest, 7, rest.len());
                    proof {
                        assert(rest@ =~= before.skip(7));
                    }
                } else {
                    break ;
                }
            }
            proof {
                assert(strip_status_rep(rest@) == rest@);
            }
            let sl = trim_bytes(rest);
            let sllen = sl.len();
            match find_byte(sl, 32) {
                Some(sp) => {
                    proof {
                        assert(sl@.subrange(0, sp as int) =~= sl@.take(sp as int));
                        assert(sl@.subrange(sp + 1, sl@.len() as int) =~= sl@.skip(sp + 1));
                    }
                    match parse_uint(vstd::slice::slice_subrange(sl, 0, sp), 10, 65535) {
                        Some(code) => {
                            status_code = code as u16;
                            status_text = bytes_to_string(
                                vstd::slice::slice_subrange(sl, sp + 1, sllen),
                            );
                        },
                        None => {
                        },
                    }
                },
                None => {
                    match parse_uint(sl, 10, 65535) {
                        Some(code) => {
                            status_code = code as u16;
                        },
                        None => {
                        },
                    }
                },
            }
        } else {
            match find_byte(line.as_slice(), 58) {
                Some(cp) => {
                    proof {
                        assert(line@.subrange(0, cp as int) =~= line@.take(cp as int));
                        assert(line@.subrange(cp + 1, line@.len() as int) =~= line@.skip(cp + 1));
                    }
                    let key = bytes_to_string(
                        trim_bytes(vstd::slice::slice_subrange(line.as_slice(), 0, cp)),
                    );
                    let value = bytes_to_string(
                        trim_bytes(vstd::slice::slice_subrange(line.as_slice(), cp + 1, llen)),
                    );
                    headers.insert(key, value);
                },
                None => {
                },
            }
        }
        i = i + 1;
    }
    if !headers.contains_key("Content-Type") {
        headers.insert("Content-Type".to_owned(), "text/html".to_owned());
    }
    HttpResponse { status: status_code, status_text, headers, body, is_chunked: false }
}

/// The body of the synthesized failure page for a script that would not
/// run.
pub open spec fn cgi_error_page(err: Seq<char>, script: Seq<char>) -> Seq<char> {
    "<!DOCTYPE html>\n<html>\n<head><title>CGI Error</title></head>\n<body>\n<div class=\"error\">\n<h1>CGI Execution Error</h1>\n<p><strong>Error:</strong> <code>"@
        + err + "</code></p>\n<p>Failed to execute CGI script at <code>"@ + script
        + "</code></p>\n</div>\n</body>\n</html>"@
}

/// Turns one CGI invocation's outcome into the response the server sends:
/// the script's own output parsed as a response; a not-found answer for a
/// missing script; a synthesized server-error page naming the script when
/// spawning failed.
pub fn cgi_result_response(script_path: &str, outcome: CgiOutcome) -> (r: HttpResponse)
    ensures
        match outcome {
            CgiOutcome::Output(o) => r@ == cgi_response_spec(o@),
            CgiOutcome::Missing => {
                &&& r@.status == 404
                &&& r@.status_text == "Not Found"@
                &&& r@.body == "CGI script not found".spec_bytes()
                &&& r@.is_chunked == false
            },
            CgiOutcome::SpawnFailed(e) => {
                &&& r@.status == 500
                &&& r@.status_text == "Internal Server Error"@
                &&& r@.body == vstd::utf8::encode_utf8(cgi_error_page(e@, script_path@))
                &&& r@.is_chunked == false
            },
        },
        r.headers.wf(),
{
    match outcome {
        CgiOutcome::Output(o) => parse_cgi_bytes(o.as_slice()),
        CgiOutcome::Missing => HttpResponse::new(404, "Not Found", "CGI script not found"),
        CgiOutcome::SpawnFailed(e) => {
            let mut page = String::new();
            page.append(
                "<!DOCTYPE html>\n<html>\n<head><title>CGI Error</title></head>\n<body>\n<div class=\"error\">\n<h1>CGI Execution Error</h1>\n<p><strong>Error:</strong> <code>",
            );
            page.append(e.as_str());
            page.append("</code></p>\n<p>Failed to execute CGI script at <code>");
            page.append(script_path);
            page.append("</code></p>\n</div>\n</body>\n</html>");
            proof {
                assert(page@ =~= cgi_error_page(e@, script_path@));
            }
            let r = crate::builder::ResponseBuilder::new().status(
                500,
                "Internal Server Error",
            ).content_type("text/html; charset=utf-8").body_text(page.as_str()).build();
            r
        },
    }
}

/// The CGI executor: the request-to-environment and output-to-response
/// translations of the bridge.
pub struct CGIExecutor;

impl CGIExecutor {
    /// Reads a script's output text into a response.
    pub fn parse_cgi_response(output: &str) -> (r: HttpResponse)
        ensures
            r@ == cgi_response_spec(output.spec_bytes()),
            r.headers.wf(),
    {
        parse_cgi_bytes(output.as_bytes())
    }

    /// Builds the CGI/1.1 environment for a request.  The `inherited` table
    /// carries the host process variables eligible for passthrough.
    /// `SERVER_NAME` and `SERVER_PORT` are fixed to `localhost` and `8000`,
    /// the values the server has always announced, even when the settings
    /// record binds another host or port.
    pub fn build_cgi_env(
        request: &HttpRequest,
        client_ip: &str,
        inherited: &Table<String>,
    ) -> (r: Table<String>)
        ensures
            r@ == cgi_env_spec(request@, client_ip@, inherited@),
            r.wf(),
    {
        let mut env: Table<String> = Table::new();
        env.insert("REQUEST_METHOD".to_owned(), request.method.clone());
        env.insert("SCRIPT_NAME".to_owned(), request.path.clone());
        env.insert("PATH_INFO".to_owned(), request.path.clone());
        match &request.query_string {
            Some(q) => {
                env.insert("QUERY_STRING".to_owned(), q.clone());
            },
            None => {
                env.insert("QUERY_STRING".to_owned(), String::new());
            },
        }
        env.insert("CONTENT_LENGTH".to_owned(), dec_string(request.body.len()));
        match request.headers.get("Content-Type") {
            Some(ct) => {
                env.insert("CONTENT_TYPE".to_owned(), ct.clone());
            },
            None => {
                env.insert("CONTENT_TYPE".to_owned(), "text/plain".to_owned());
            },
        }
        env.insert("SERVER_NAME".to_owned(), "localhost".to_owned());
        env.insert("SERVER_PORT".to_owned(), "8000".to_owned());
        env.insert("SERVER_PROTOCOL".to_owned(), request.version.clone());
        env.insert("SERVER_SOFTWARE".to_owned(), "localhost-http-server/1.0".to_owned());
        env.insert("REMOTE_ADDR".to_owned(), client_ip.to_owned());
        env.insert("REMOTE_HOST".to_owned(), client_ip.to_owned());
        // one HTTP_* entry per request header
        let ghost base = env@;
        let ghost mapped = cgi_header_pairs(request.headers@);
        let mut i: usize = 0;
        proof {
            assert(mapped.skip(0) =~= mapped);
        }
        while i < request.headers.len()
            invariant
                i <= mapped.len(),
                mapped == cgi_header_pairs(request.headers@),
                mapped.len() == request.headers@.len(),
                env.wf(),
                fold_table(base, mapped) == fold_table(env@, mapped.skip(i as int)),
            decreases mapped.len() - i,
        {
            let ghost suf = mapped.skip(i as int);
            proof {
                assert(suf[0] == mapped[i as int]);
                assert(suf.drop_first() =~= mapped.skip(i + 1));
                assert(mapped[i as int] == (
                    cgi_key(request.headers@[i as int].0),
                    request.headers@[i as int].1,
                ));
            }
            let key = request.headers.key_at(i);
            let value = request.headers.val_at(i);
            let klen = key.unicode_len();
            let mut cgi_name = "HTTP_".to_owned();
            let mut k: usize = 0;
            while k < klen
                invariant
                    k <= klen,
                    klen == key@.len(),
                    cgi_name@ == "HTTP_"@ + key@.take(k as int).map_values(
                        |c: char| cgi_key_char(c),
                    ),
                decreases klen - k,
            {
                let c = key.as_str().get_char(k);
                let t: char = if 'a' <= c && c <= 'z' {
                    ((c as u8) - 32) as char
                } else if c == '-' {
                    '_'
                } else {
                    c
                };
                proof {
                    lemma_char_code(c);
                    assert(t == cgi_key_char(key@[k as int]));
                }
                cgi_name.push(t);
                proof {
                    assert(key@.take(k + 1) =~= key@.take(k as int).push(key@[k as int]));
                    assert(key@.take(k + 1).map_values(|c: char| cgi_key_char(c)) =~= key@.take(
                        k as int,
                    ).map_values(|c: char| cgi_key_char(c)).push(cgi_key_char(key@[k as int])));
                    assert(cgi_name@ =~= "HTTP_"@ + key@.take(k + 1).map_values(
                        |c: char| cgi_key_char(c),
                    ));
                }
                k = k + 1;
            }
            proof {
                assert(key@.take(klen as int) =~= key@);
                assert(cgi_name@ == cgi_key(request.headers@[i as int].0));
            }
            env.insert(cgi_name, value.clone());
            i = i + 1;
        }
        proof {
            assert(mapped.skip(mapped.len() as int) =~= Seq::<(Seq<char>, Seq<char>)>::empty());
        }
        env.insert("GATEWAY_INTERFACE".to_owned(), "CGI/1.1".to_owned());
        // passthrough of the host's PATH, HOME and USER
        let ghost base2 = env@;
        let ghost inh = inherited@;
        let mut j: usize = 0;
        proof {
            assert(inh.skip(0) =~= inh);
        }
        while j < inherited.len()
            invariant
                j <= inh.len(),
                inh == inherited@,
                env.wf(),
                fold_inherit(base2, inh) == fold_inherit(env@, inh.skip(j as int)),
            decreases inh.len() - j,
        {
            let ghost suf = inh.skip(j as int);
            proof {
                assert(suf[0] == inh[j as int]);
                assert(suf.drop_first() =~= inh.skip(j + 1));
            }
            let key = inherited.key_at(j);
            let ks = key.as_str();
            if crate::text::str_eq(ks, "PATH") || crate::text::str_eq(ks, "HOME")
                || crate::text::str_eq(ks, "USER") {
                env.insert(key.clone(), inherited.val_at(j).clone());
            }
            j = j + 1;
        }
        proof {
            assert(inh.skip(inh.len() as int) =~= Seq::<(Seq<char>, Seq<char>)>::empty());
        }
        env
    }
}

/// The code of a lower-case letter stays in range under the upper-casing
/// arithmetic.
proof fn lemma_char_code(c: char)
    ensures
        ('a' <= c && c <= 'z') == (97 <= (c as int) && (c as int) <= 122),
        97 <= (c as int) && (c as int) <= 122 ==> ((c as u8) as int) == (c as int),
{
}

} // verus!
