//! A fluent accumulator for responses: status, headers, body, cookies,
//! chunked mode, and content-type lookup by file extension.
use crate::response::HttpResponse;
use crate::table::{lookup, remove_entry, update_entry, Table};
use crate::text::{dec_rep, dec_string, ends_with_bytes, ends_with_s, latin1};
use vstd::prelude::*;
use vstd::string::StringExecFns;
use vstd::string::StringSliceAdditionalSpecFns;

verus! {

/// A response under construction.
pub struct ResponseBuilder {
    pub status: u16,
    pub status_text: String,
    pub headers: Table<String>,
    pub body: Vec<u8>,
    pub cookies: Vec<(String, String)>,
    pub is_chunked: bool,
}

/// The mathematical image of a [`ResponseBuilder`].
pub ghost struct BuilderView {
    pub status: u16,
    pub status_text: Seq<char>,
    pub headers: Seq<(Seq<char>, Seq<char>)>,
    pub body: Seq<u8>,
    pub cookies: Seq<(Seq<char>, Seq<char>)>,
    pub is_chunked: bool,
}

impl View for ResponseBuilder {
    type V = BuilderView;

    open spec fn view(&self) -> BuilderView {
        BuilderView {
            status: self.status,
            status_text: self.status_text@,
            headers: self.headers@,
            body: self.body@,
            cookies: self.cookies@.map_values(|p: (String, String)| (p.0@, p.1@)),
            is_chunked: self.is_chunked,
        }
    }
}

/// The `Set-Cookie` text one plain cookie contributes: `name=value`.
pub open spec fn plain_cookie(name: Seq<char>, value: Seq<char>) -> Seq<char> {
    name + "="@ + value
}

/// Each accumulated cookie written into the single `Set-Cookie` header, in
/// order; a later cookie overwrites an earlier one.
pub open spec fn apply_cookies(
    headers: Seq<(Seq<char>, Seq<char>)>,
    cookies: Seq<(Seq<char>, Seq<char>)>,
) -> Seq<(Seq<char>, Seq<char>)>
    decreases cookies.len(),
{
    if cookies.len() == 0 {
        headers
    } else {
        apply_cookies(
            update_entry(headers, "Set-Cookie"@, plain_cookie(cookies[0].0, cookies[0].1)),
            cookies.drop_first(),
        )
    }
}

/// What finishing a builder yields: the content length is filled in for a
/// plain response that has not set one, then the cookies are written.
pub open spec fn build_spec(b: BuilderView) -> crate::response::RespView {
    let h1 = if !b.is_chunked && lookup(b.headers, "Content-Length"@) is None {
        update_entry(b.headers, "Content-Length"@, latin1(dec_rep(b.body.len() as int)))
    } else {
        b.headers
    };
    crate::response::RespView {
        status: b.status,
        status_text: b.status_text,
        headers: apply_cookies(h1, b.cookies),
        body: b.body,
        is_chunked: b.is_chunked,
    }
}

/// The content type a path's extension declares.
pub open spec fn content_type_spec(path: Seq<u8>) -> Seq<char> {
    if ends_with_s(path, ".html".spec_bytes()) {
        "text/html"@
    } else if ends_with_s(path, ".css".spec_bytes()) {
        "text/css"@
    } else if ends_with_s(path, ".js".spec_bytes()) {
        "application/javascript"@
    } else if ends_with_s(path, ".json".spec_bytes()) {
        "application/json"@
    } else if ends_with_s(path, ".png".spec_bytes()) {
        "image/png"@
    } else if ends_with_s(path, ".jpg".spec_bytes()) || ends_with_s(path, ".jpeg".spec_bytes()) {
        "image/jpeg"@
    } else if ends_with_s(path, ".gif".spec_bytes()) {
        "image/gif"@
    } else if ends_with_s(path, ".svg".spec_bytes()) {
        "image/svg+xml"@
    } else if ends_with_s(path, ".pdf".spec_bytes()) {
        "application/pdf"@
    } else if ends_with_s(path, ".txt".spec_bytes()) {
        "text/plain"@
    } else if ends_with_s(path, ".xml".spec_bytes()) {
        "application/xml"@
    } else if ends_with_s(path, ".woff".spec_bytes()) {
        "font/woff"@
    } else if ends_with_s(path, ".woff2".spec_bytes()) {
        "font/woff2"@
    } else {
        "application/octet-stream"@
    }
}

impl ResponseBuilder {
    /// A fresh builder: status 200 OK, no headers, empty body.
    pub fn new() -> (r: ResponseBuilder)
        ensures
            r@.status == 200,
            r@.status_text == "OK"@,
            r@.headers == Seq::<(Seq<char>, Seq<char>)>::empty(),
            r@.body == Seq::<u8>::empty(),
            r@.cookies == Seq::<(Seq<char>, Seq<char>)>::empty(),
            r@.is_chunked == false,
            r.headers.wf(),
    {
        let r = ResponseBuilder {
            status: 200,
            status_text: "OK".to_owned(),
            headers: Table::new(),
            body: Vec::new(),
            cookies: Vec::new(),
            is_chunked: false,
        };
        proof {
            assert(r@.cookies =~= Seq::<(Seq<char>, Seq<char>)>::empty());
        }
        r
    }

    /// Sets the status code and its reason text.
    pub fn status(self, status: u16, status_text: &str) -> (r: ResponseBuilder)
        ensures
            r@ == (BuilderView { status, status_text: status_text@, ..self@ }),
            r.headers.wf() == self.headers.wf(),
    {
        ResponseBuilder { status, status_text: status_text.to_owned(), ..self }
    }

    /// Sets a header, overwriting an existing value under the same key.
    pub fn header(self, key: &str, value: &str) -> (r: ResponseBuilder)
        ensures
            r@ == (BuilderView {
                headers: update_entry(self@.headers, key@, value@),
                ..self@
            }),
            self.headers.wf() ==> r.headers.wf(),
    {
        let mut s = self;
        s.headers.insert(key.to_owned(), value.to_owned());
        s
    }

    /// Sets the `Content-Type` header.
    pub fn content_type(self, content_type: &str) -> (r: ResponseBuilder)
        ensures
            r@ == (BuilderView {
                headers: update_entry(self@.headers, "Content-Type"@, content_type@),
                ..self@
            }),
            self.headers.wf() ==> r.headers.wf(),
    {
        self.header("Content-Type", content_type)
    }

    /// Sets the body from text.
    pub fn body_text(self, body: &str) -> (r: ResponseBuilder)
        ensures
            r@ == (BuilderView { body: body.spec_bytes(), ..self@ }),
            r.headers.wf() == self.headers.wf(),
    {
        ResponseBuilder { body: vstd::slice::slice_to_vec(body.as_bytes()), ..self }
    }

    /// Sets the body from raw bytes.
    pub fn body_bytes(self, body: Vec<u8>) -> (r: ResponseBuilder)
        ensures
            r@ == (BuilderView { body: body@, ..self@ }),
            r.headers.wf() == self.headers.wf(),
    {
        ResponseBuilder { body, ..self }
    }

    /// Accumulates a plain cookie, written as a `Set-Cookie` header when the
    /// response is built.
    pub fn cookie(self, name: &str, value: &str) -> (r: ResponseBuilder)
        ensures
            r@ == (BuilderView { cookies: self@.cookies.push((name@, value@)), ..self@ }),
            r.headers.wf() == self.headers.wf(),
    {
        let mut s = self;
        let ghost before = s@.cookies;
        s.cookies.push((name.to_owned(), value.to_owned()));
        proof {
            assert(s@.cookies =~= before.push((name@, value@)));
        }
        s
    }

    /// Writes a `Set-Cookie` header with the given attributes: an optional
    /// `Max-Age`, a `Path`, and `HttpOnly` on demand.
    pub fn cookie_with_options(
        self,
        name: &str,
        value: &str,
        max_age: Option<u32>,
        path: &str,
        http_only: bool,
    ) -> (r: ResponseBuilder)
        ensures
            r@ == (BuilderView {
                headers: update_entry(
                    self@.headers,
                    "Set-Cookie"@,
                    name@ + "="@ + value@ + (match max_age {
                        Some(age) => "; Max-Age="@ + latin1(dec_rep(age as int)),
                        None => Seq::<char>::empty(),
                    }) + "; Path="@ + path@ + (if http_only {
                        "; HttpOnly"@
                    } else {
                        Seq::<char>::empty()
                    }),
                ),
                ..self@
            }),
            self.headers.wf() ==> r.headers.wf(),
    {
        let mut cookie_str = String::new();
        cookie_str.append(name);
        cookie_str.append("=");
        cookie_str.append(value);
        match max_age {
            Some(age) => {
                cookie_str.append("; Max-Age=");
                let digits = dec_string(age as usize);
                cookie_str.append(digits.as_str());
            },
            None => {
            },
        }
        cookie_str.append("; Path=");
        cookie_str.append(path);
        if http_only {
            cookie_str.append("; HttpOnly");
        }
        proof {
            assert(cookie_str@ =~= name@ + "="@ + value@ + (match max_age {
                Some(age) => "; Max-Age="@ + latin1(dec_rep(age as int)),
                None => Seq::<char>::empty(),
            }) + "; Path="@ + path@ + (if http_only {
                "; HttpOnly"@
            } else {
                Seq::<char>::empty()
            }));
        }
        let mut s = self;
        s.headers.insert("Set-Cookie".to_owned(), cookie_str);
        s
    }

    /// Switches chunked transfer encoding on or off; switching it on
    /// declares it in the headers and drops any `Content-Length`.
    pub fn chunked(self, enable: bool) -> (r: ResponseBuilder)
        ensures
            r@ == (BuilderView {
                is_chunked: enable,
                headers: if enable {
                    remove_entry(
                        update_entry(self@.headers, "Transfer-Encoding"@, "chunked"@),
                        "Content-Length"@,
                    )
                } else {
                    self@.headers
                },
                ..self@
            }),
            self.headers.wf() ==> r.headers.wf(),
    {
        let mut s = self;
        s.is_chunked = enable;
        if enable {
            s.headers.insert("Transfer-Encoding".to_owned(), "chunked".to_owned());
            s.headers.remove("Content-Length");
        }
        s
    }

    /// The content type for a path, decided by its extension; an unknown
    /// extension yields the generic byte-stream type.
    pub fn get_content_type(path: &str) -> (r: String)
        ensures
            r@ == content_type_spec(path.spec_bytes()),
    {
        let p = path.as_bytes();
        let ct: &str = if ends_with_bytes(p, ".html".as_bytes()) {
            "text/html"
        } else if ends_with_bytes(p, ".css".as_bytes()) {
            "text/css"
        } else if ends_with_bytes(p, ".js".as_bytes()) {
            "application/javascript"
        } else if ends_with_bytes(p, ".json".as_bytes()) {
            "application/json"
        } else if ends_with_bytes(p, ".png".as_bytes()) {
            "image/png"
        } else if ends_with_bytes(p, ".jpg".as_bytes()) || ends_with_bytes(p, ".jpeg".as_bytes()) {
            "image/jpeg"
        } else if ends_with_bytes(p, ".gif".as_bytes()) {
            "image/gif"
        } else if ends_with_bytes(p, ".svg".as_bytes()) {
            "image/svg+xml"
        } else if ends_with_bytes(p, ".pdf".as_bytes()) {
            "application/pdf"
        } else if ends_with_bytes(p, ".txt".as_bytes()) {
            "text/plain"
        } else if ends_with_bytes(p, ".xml".as_bytes()) {
            "application/xml"
        } else if ends_with_bytes(p, ".woff".as_bytes()) {
            "font/woff"
        } else if ends_with_bytes(p, ".woff2".as_bytes()) {
            "font/woff2"
        } else {
            "application/octet-stream"
        };
        ct.to_owned()
    }

    /// Finishes the response: fills in the content length of a plain
    /// response without one and writes the accumulated cookies.
    pub fn build(self) -> (r: HttpResponse)
        requires
            self.headers.wf(),
        ensures
            r@ == build_spec(self@),
            r.headers.wf(),
    {
        let ghost bv = self@;
        let mut s = self;
        if !s.is_chunked && !s.headers.contains_key("Content-Length") {
            let blen = s.body.len();
            s.headers.insert("Content-Length".to_owned(), dec_string(blen));
        }
        let ghost h1 = s.headers@;
        let ghost cv = bv.cookies;
        let mut i: usize = 0;
        proof {
            assert(cv.skip(0) =~= cv);
        }
        while i < s.cookies.len()
            invariant
                i <= cv.len(),
                s.cookies@.map_values(|p: (String, String)| (p.0@, p.1@)) == cv,
                s.headers.wf(),
                s.status == bv.status,
                s.status_text@ == bv.status_text,
                s.body@ == bv.body,
                s.is_chunked == bv.is_chunked,
                apply_cookies(h1, cv) == apply_cookies(s.headers@, cv.skip(i as int)),
            decreases cv.len() - i,
        {
            let ghost suf = cv.skip(i as int);
            proof {
                assert(suf[0] == cv[i as int]);
                assert(suf.drop_first() =~= cv.skip(i + 1));
            }
            let name = &s.cookies[i].0;
            let value = &s.cookies[i].1;
            let mut text = String::new();
            text.append(name.as_str());
            text.append("=");
            text.append(value.as_str());
            proof {
                assert(text@ =~= plain_cookie(cv[i as int].0, cv[i as int].1));
            }
            s.headers.insert("Set-Cookie".to_owned(), text);
            i = i + 1;
        }
        proof {
            assert(cv.skip(cv.len() as int) =~= Seq::<(Seq<char>, Seq<char>)>::empty());
        }
        HttpResponse {
            status: s.status,
            status_text: s.status_text,
            headers: s.headers,
            body: s.body,
            is_chunked: s.is_chunked,
        }
    }
}

} // verus!
