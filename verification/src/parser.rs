//! The HTTP/1.1 request codec: percent-decoding, query-string, cookie and
//! chunked-body decoding, and the full request parser.
use crate::request::{HttpRequest, ReqView};
use crate::table::{fold_table, lemma_fold_append, Table};
use crate::text::{
    is_ws,
    bytes_eq, bytes_to_string, contains_bytes, contains_seq, find_byte, find_from, join_lines,
    join_lines_from, latin1, latin1_bytes, lines_of, lower_bytes, lower_s, parse_uint,
    parse_uint_s, split_all, split_bytes_all, split_lines, split_tokens, tokens_of, trim_bytes,
    trim_s,
};
use vstd::prelude::*;
use vstd::string::StringSliceAdditionalSpecFns;

verus! {

/// Percent-decoding of a byte stream: `%XX` yields the byte the two hex
/// digits denote, `+` yields a space, any other byte passes through as the
/// character it stands for.  A malformed escape is dropped and decoding goes
/// on after its two bytes; a truncated escape at the end is dropped whole.
pub open spec fn url_decode_s(s: Seq<u8>) -> Seq<char>
    decreases s.len(),
{
    if s.len() == 0 {
        Seq::<char>::empty()
    } else if s[0] == 37 {
        if s.len() >= 3 {
            match parse_uint_s(s.subrange(1, 3), 16, 255) {
                Some(v) => seq![(v as u8) as char] + url_decode_s(s.skip(3)),
                None => url_decode_s(s.skip(3)),
            }
        } else {
            Seq::<char>::empty()
        }
    } else if s[0] == 43 {
        seq![' '] + url_decode_s(s.skip(1))
    } else {
        seq![s[0] as char] + url_decode_s(s.skip(1))
    }
}

/// Percent-decodes the bytes of `s` into a fresh string.
pub fn url_decode_bytes(s: &[u8]) -> (r: String)
    ensures
        r@ == url_decode_s(s@),
{
    let slen = s.len();
    let mut r = String::new();
    let mut i: usize = 0;
    proof {
        assert(s@.skip(0) =~= s@);
    }
    while i < slen
        invariant
            i <= slen,
            slen == s@.len(),
            url_decode_s(s@) == r@ + url_decode_s(s@.skip(i as int)),
        decreases slen - i,
    {
        let ghost pre = r@;
        let ghost suf = s@.skip(i as int);
        proof {
            assert(suf[0] == s@[i as int]);
        }
        let b = s[i];
        if b == 37 {
            if slen - i >= 3 {
                proof {
                    assert(suf.subrange(1, 3) =~= s@.subrange(i + 1, i + 3));
                    assert(suf.skip(3) =~= s@.skip(i + 3));
                }
                let pair = vstd::slice::slice_subrange(s, i + 1, i + 3);
                match parse_uint(pair, 16, 255) {
                    Some(v) => {
                        r.push((v as u8) as char);
                        proof {
                            assert(pre + (seq![(v as u8) as char] + url_decode_s(
                                s@.skip(i + 3),
                            )) =~= r@ + url_decode_s(s@.skip(i + 3)));
                        }
                    },
                    None => {
                    },
                }
                i = i + 3;
            } else {
                return r;
            }
        } else if b == 43 {
            r.push(' ');
            proof {
                assert(suf.skip(1) =~= s@.skip(i + 1));
                assert(pre + (seq![' '] + url_decode_s(s@.skip(i + 1))) =~= r@ + url_decode_s(
                    s@.skip(i + 1),
                ));
            }
            i = i + 1;
        } else {
            r.push(b as char);
            proof {
                assert(suf.skip(1) =~= s@.skip(i + 1));
                assert(pre + (seq![b as char] + url_decode_s(s@.skip(i + 1))) =~= r@
                    + url_decode_s(s@.skip(i + 1)));
            }
            i = i + 1;
        }
    }
    proof {
        assert(s@.skip(slen as int) =~= Seq::<u8>::empty());
    }
    r
}

/// Law: percent-decoding leaves already-decoded text alone.  A byte stream
/// without `%` and `+` decodes to exactly the characters its bytes stand
/// for.
pub proof fn url_decode_unescaped(b: Seq<u8>)
    requires
        forall|i: int| 0 <= i < b.len() ==> b[i] != 37 && b[i] != 43,
    ensures
        url_decode_s(b) == latin1(b),
    decreases b.len(),
{
    if b.len() == 0 {
        assert(url_decode_s(b) =~= latin1(b));
    } else {
        url_decode_unescaped(b.skip(1));
        assert(url_decode_s(b) == seq![b[0] as char] + url_decode_s(b.skip(1)));
        assert(seq![b[0] as char] + latin1(b.skip(1)) =~= latin1(b));
    }
}

/// Law: percent-decoding is idempotent on ASCII text without `%` and `+`:
/// decoding the encoded form of a decoded stream changes nothing further.
pub proof fn url_decode_idempotent(b: Seq<u8>)
    requires
        forall|i: int| 0 <= i < b.len() ==> b[i] < 128 && b[i] != 37 && b[i] != 43,
    ensures
        url_decode_s(latin1_bytes(b)) == url_decode_s(b),
{
    crate::text::lemma_latin1_bytes_ascii(b);
}

/// A character a percent-encoder leaves unescaped: letters, digits, and the
/// four unreserved marks.
pub open spec fn is_url_safe(c: char) -> bool {
    (48 <= (c as int) && (c as int) <= 57) || (65 <= (c as int) && (c as int) <= 90) || (97 <= (
    c as int) && (c as int) <= 122) || c == '-' || c == '_' || c == '.' || c == '~'
}

/// An upper-case hexadecimal digit byte.
pub open spec fn hex_upper_byte(d: int) -> u8 {
    if d < 10 {
        (48 + d) as u8
    } else {
        (55 + d) as u8
    }
}

/// Percent-encoding of a character stream: space becomes `+`, safe
/// characters pass through, anything else becomes `%XX` over its code.
pub open spec fn url_encode_s(s: Seq<char>) -> Seq<u8>
    decreases s.len(),
{
    if s.len() == 0 {
        Seq::<u8>::empty()
    } else {
        let c = s[0];
        let enc = if c == ' ' {
            seq![43u8]
        } else if is_url_safe(c) {
            seq![c as u8]
        } else {
            seq![37u8, hex_upper_byte(c as int / 16), hex_upper_byte(c as int % 16)]
        };
        enc + url_encode_s(s.skip(1))
    }
}

/// A character the encoder can express: printable and single-byte.
pub open spec fn is_encodable(c: char) -> bool {
    32 <= (c as int) && (c as int) < 256
}

/// Law: decoding inverts encoding.  Percent-encoding any stream of
/// single-byte, non-control characters and decoding the result yields the
/// original stream.
pub proof fn url_decode_encode(s: Seq<char>)
    requires
        forall|i: int| 0 <= i < s.len() ==> is_encodable(#[trigger] s[i]),
    ensures
        url_decode_s(url_encode_s(s)) == s,
    decreases s.len(),
{
    if s.len() == 0 {
        assert(url_decode_s(url_encode_s(s)) =~= s);
    } else {
        url_decode_encode(s.skip(1));
        let c = s[0];
        let rest = url_encode_s(s.skip(1));
        if c == ' ' {
            let e = seq![43u8] + rest;
            assert(e[0] == 43);
            assert(e.skip(1) =~= rest);
            assert(seq![' '] + s.skip(1) =~= s);
        } else if is_url_safe(c) {
            let e = seq![c as u8] + rest;
            assert(e[0] == c as u8 && e[0] != 37 && e[0] != 43);
            assert(e.skip(1) =~= rest);
            assert((c as u8) as char == c);
            assert(seq![c] + s.skip(1) =~= s);
        } else {
            let v = c as int;
            let h1 = hex_upper_byte(v / 16);
            let h2 = hex_upper_byte(v % 16);
            let e = seq![37u8, h1, h2] + rest;
            assert(e[0] == 37 && e.len() >= 3);
            assert(e.subrange(1, 3) =~= seq![h1, h2]);
            assert(e.skip(3) =~= rest);
            let pair = seq![h1, h2];
            assert(crate::text::strip_plus(pair) == pair) by {
                assert(h1 != 43);
            }
            assert(crate::text::digit_val(h1) == v / 16 && crate::text::digit_val(h2) == v % 16);
            assert(crate::text::digits_ok(pair, 16)) by {
                assert(pair[0] == h1 && pair[1] == h2);
                assert(v < 256 ==> v / 16 < 16);
            }
            assert(pair.drop_last() =~= seq![h1]);
            assert(seq![h1].drop_last() =~= Seq::<u8>::empty());
            assert(seq![h1].last() == h1 && pair.last() == h2);
            assert(crate::text::num_val(Seq::<u8>::empty(), 16) == 0);
            assert(crate::text::num_val(seq![h1], 16) == crate::text::num_val(
                seq![h1].drop_last(),
                16,
            ) * 16 + crate::text::digit_val(seq![h1].last()));
            assert(crate::text::num_val(pair, 16) == crate::text::num_val(seq![h1], 16) * 16
                + crate::text::digit_val(h2));
            assert(crate::text::num_val(seq![h1], 16) == crate::text::digit_val(h1));
            assert(crate::text::num_val(pair, 16) == (v / 16) * 16 + v % 16);
            assert((v / 16) * 16 + v % 16 == v);
            assert(parse_uint_s(pair, 16, 255) == Some(v));
            assert((v as u8) as char == c);
            assert(seq![c] + s.skip(1) =~= s);
        }
    }
}

/// The decoded key/value pair one `key=value` query parameter stands for;
/// a parameter without `=` maps whole to the empty value.
pub open spec fn query_pair_of(param: Seq<u8>) -> (Seq<char>, Seq<char>) {
    match find_from(param, 61, 0) {
        Some(p) => (url_decode_s(param.take(p)), url_decode_s(param.skip(p + 1))),
        None => (url_decode_s(param), Seq::<char>::empty()),
    }
}

/// The parameters of a query string, split on `&`, in order.
pub open spec fn query_pairs(qs: Seq<u8>) -> Seq<(Seq<char>, Seq<char>)> {
    split_all(qs, 38).map_values(|param: Seq<u8>| query_pair_of(param))
}

/// The name/value pairs of a `Cookie` header value: pieces split on `;`,
/// trimmed, split at the first `=` with both halves trimmed; a piece without
/// `=` contributes nothing.
pub open spec fn cookie_pairs(pieces: Seq<Seq<u8>>) -> Seq<(Seq<char>, Seq<char>)>
    decreases pieces.len(),
{
    if pieces.len() == 0 {
        Seq::<(Seq<char>, Seq<char>)>::empty()
    } else {
        let c = trim_s(pieces[0]);
        let rest = cookie_pairs(pieces.drop_first());
        match find_from(c, 61, 0) {
            Some(p) => seq![
                (latin1(trim_s(c.take(p))), latin1(trim_s(c.skip(p + 1)))),
            ] + rest,
            None => rest,
        }
    }
}

pub open spec fn cookies_of(h: Seq<u8>) -> Seq<(Seq<char>, Seq<char>)> {
    cookie_pairs(split_all(h, 59))
}

/// The body a chunked transfer encoding denotes, read line by line from
/// index `i`: a hex size line, then one line of data truncated to that size;
/// a zero size ends the body; an unreadable size line is skipped.
pub open spec fn chunks_from(lines: Seq<Seq<u8>>, i: int) -> Seq<u8>
    decreases lines.len() - i when 0 <= i
{
    if i >= lines.len() {
        Seq::<u8>::empty()
    } else {
        match parse_uint_s(trim_s(lines[i]), 16, usize::MAX as int) {
            Some(sz) => {
                if sz == 0 {
                    Seq::<u8>::empty()
                } else if i + 1 < lines.len() {
                    let data = lines[i + 1];
                    let n = if sz <= data.len() {
                        sz
                    } else {
                        data.len() as int
                    };
                    data.take(n) + chunks_from(lines, i + 2)
                } else {
                    Seq::<u8>::empty()
                }
            },
            None => chunks_from(lines, i + 1),
        }
    }
}

/// The body the chunked encoding in `data` denotes.
pub open spec fn decode_chunked_s(data: Seq<u8>) -> Seq<u8> {
    chunks_from(lines_of(data), 0)
}

/// What one pass over the header lines yields.
pub ghost struct HeadScan {
    /// The header key/value pairs, trimmed, in line order.
    pub pairs: Seq<(Seq<char>, Seq<char>)>,
    /// The cookie pairs contributed by `Cookie` headers, in order.
    pub cookie_list: Seq<(Seq<char>, Seq<char>)>,
    /// Whether the last `Transfer-Encoding` header names `chunked`.
    pub chunked: bool,
    pub has_te: bool,
    /// The value bytes of the last `Content-Type` header.
    pub ctype: Seq<u8>,
    pub has_ct: bool,
    /// The line index where the body begins: one past the first empty line,
    /// or zero when no empty line ends the headers.
    pub body_start: int,
}

/// Reads header lines from index `i` until the first empty line: each line
/// with a colon contributes a trimmed key/value pair; `Cookie`,
/// `Transfer-Encoding` and `Content-Type` are recognized by their
/// lower-cased keys.
pub open spec fn scan_headers(lines: Seq<Seq<u8>>, i: int) -> HeadScan
    decreases lines.len() - i when 0 <= i
{
    if i >= lines.len() {
        HeadScan {
            pairs: Seq::empty(),
            cookie_list: Seq::empty(),
            chunked: false,
            has_te: false,
            ctype: Seq::empty(),
            has_ct: false,
            body_start: 0,
        }
    } else if lines[i].len() == 0 {
        HeadScan {
            pairs: Seq::empty(),
            cookie_list: Seq::empty(),
            chunked: false,
            has_te: false,
            ctype: Seq::empty(),
            has_ct: false,
            body_start: i + 1,
        }
    } else {
        match find_from(lines[i], 58, 0) {
            None => scan_headers(lines, i + 1),
            Some(cp) => {
                let key_b = trim_s(lines[i].take(cp));
                let val_b = trim_s(lines[i].skip(cp + 1));
                let rest = scan_headers(lines, i + 1);
                let is_cookie = lower_s(key_b) == "cookie".spec_bytes();
                let is_te = lower_s(key_b) == "transfer-encoding".spec_bytes();
                let is_ct = lower_s(key_b) == "content-type".spec_bytes();
                HeadScan {
                    pairs: seq![(latin1(key_b), latin1(val_b))] + rest.pairs,
                    cookie_list: (if is_cookie {
                        cookies_of(latin1_bytes(val_b))
                    } else {
                        Seq::empty()
                    }) + rest.cookie_list,
                    chunked: if rest.has_te {
                        rest.chunked
                    } else if is_te {
                        contains_seq(lower_s(val_b), "chunked".spec_bytes())
                    } else {
                        false
                    },
                    has_te: rest.has_te || is_te,
                    ctype: if rest.has_ct {
                        rest.ctype
                    } else if is_ct {
                        val_b
                    } else {
                        Seq::empty()
                    },
                    has_ct: rest.has_ct || is_ct,
                    body_start: rest.body_start,
                }
            },
        }
    }
}

proof fn lemma_scan_defaults(lines: Seq<Seq<u8>>, i: int)
    requires
        0 <= i,
    ensures
        !scan_headers(lines, i).has_te ==> scan_headers(lines, i).chunked == false,
        !scan_headers(lines, i).has_ct ==> scan_headers(lines, i).ctype == Seq::<u8>::empty(),
    decreases lines.len() - i,
{
    if i < lines.len() && lines[i].len() != 0 && find_from(lines[i], 58, 0) is Some {
        lemma_scan_defaults(lines, i + 1);
    } else if i < lines.len() && lines[i].len() != 0 {
        lemma_scan_defaults(lines, i + 1);
    }
}

/// What parsing a raw byte buffer yields: the request once a complete one
/// — request line, headers and the terminating blank line, plus any
/// declared body — is present, and nothing otherwise.  A zero `body_start`
/// from the header scan means the blank line has not arrived, so the
/// buffer is still incomplete.
pub open spec fn spec_parse(data: Seq<u8>) -> Option<crate::request::ReqView> {
    let lines = lines_of(data);
    if lines.len() == 0 {
        None::<crate::request::ReqView>
    } else {
        let toks = tokens_of(lines[0]);
        if toks.len() < 3 {
            None::<crate::request::ReqView>
        } else if scan_headers(lines, 1).body_start == 0 {
            None::<crate::request::ReqView>
        } else {
            let full = toks[1];
            let sc = scan_headers(lines, 1);
            let raw_body = join_lines(lines.skip(sc.body_start));
            let body = if sc.chunked {
                decode_chunked_s(raw_body)
            } else {
                raw_body
            };
            let qb = match find_from(full, 63, 0) {
                Some(p) => Some(full.skip(p + 1)),
                None => None::<Seq<u8>>,
            };
            Some(
                crate::request::ReqView {
                    method: latin1(toks[0]),
                    path: match find_from(full, 63, 0) {
                        Some(p) => latin1(full.take(p)),
                        None => latin1(full),
                    },
                    query_string: match qb {
                        Some(q) => Some(latin1(q)),
                        None => None,
                    },
                    version: latin1(toks[2]),
                    headers: fold_table(Seq::<(Seq<char>, Seq<char>)>::empty(), sc.pairs),
                    cookies: fold_table(Seq::<(Seq<char>, Seq<char>)>::empty(), sc.cookie_list),
                    query_params: match qb {
                        Some(q) => fold_table(
                            Seq::<(Seq<char>, Seq<char>)>::empty(),
                            query_pairs(latin1_bytes(q)),
                        ),
                        None => Seq::empty(),
                    },
                    form_fields: crate::multipart::spec_form_fields(latin1_bytes(sc.ctype), body),
                    form_files: crate::multipart::spec_form_files(latin1_bytes(sc.ctype), body),
                    body: body,
                },
            )
        }
    }
}

/// The wire bytes of a hand-assembled request: request line, header lines,
/// a blank line, then the body.
pub open spec fn render_header_lines(headers: Seq<(Seq<u8>, Seq<u8>)>) -> Seq<u8>
    decreases headers.len(),
{
    if headers.len() == 0 {
        Seq::<u8>::empty()
    } else {
        headers[0].0 + seq![58u8, 32u8] + headers[0].1 + seq![13u8, 10u8] + render_header_lines(
            headers.drop_first(),
        )
    }
}

/// The request target: the path, with the query appended after `?`.
pub open spec fn full_target(path: Seq<u8>, query: Option<Seq<u8>>) -> Seq<u8> {
    match query {
        Some(q) => path + seq![63u8] + q,
        None => path,
    }
}

pub open spec fn render_request(
    method: Seq<u8>,
    path: Seq<u8>,
    query: Option<Seq<u8>>,
    version: Seq<u8>,
    headers: Seq<(Seq<u8>, Seq<u8>)>,
    body: Seq<u8>,
) -> Seq<u8> {
    method + seq![32u8] + full_target(path, query) + seq![32u8] + version + seq![13u8, 10u8]
        + render_header_lines(headers) + seq![13u8, 10u8] + body
}

/// A token the request line can carry: non-empty, free of whitespace.
pub open spec fn plain_token(t: Seq<u8>) -> bool {
    t.len() > 0 && forall|i: int| 0 <= i < t.len() ==> !is_ws(#[trigger] t[i])
}

/// One header a hand-assembled request can carry and parsing can read
/// back: a trimmed key without colons, a trimmed value, neither spanning
/// lines, and no chunked transfer declaration that would rewrite the body.
pub open spec fn plain_header(h: (Seq<u8>, Seq<u8>)) -> bool {
    &&& forall|i: int| 0 <= i < h.0.len() ==> h.0[i] != 58 && h.0[i] != 10
    &&& trim_s(h.0) == h.0
    &&& forall|i: int| 0 <= i < h.1.len() ==> h.1[i] != 10
    &&& trim_s(h.1) == h.1
    &&& lower_s(h.0) != "transfer-encoding".spec_bytes()
}

/// A request the renderer can write and the parser can read back whole.
pub open spec fn renderable(
    method: Seq<u8>,
    path: Seq<u8>,
    query: Option<Seq<u8>>,
    version: Seq<u8>,
    headers: Seq<(Seq<u8>, Seq<u8>)>,
    body: Seq<u8>,
) -> bool {
    &&& plain_token(method)
    &&& plain_token(version)
    &&& plain_token(full_target(path, query))
    &&& forall|i: int| 0 <= i < path.len() ==> path[i] != 63
    &&& forall|j: int| 0 <= j < headers.len() ==> plain_header(#[trigger] headers[j])
    &&& forall|i: int, j: int|
        0 <= i < j < headers.len() ==> (#[trigger] headers[i]).0 != (#[trigger] headers[j]).0
    &&& forall|i: int| 0 <= i < body.len() ==> body[i] != 13
    &&& body.len() == 0 || body.last() != 10
}

/// The line the scanner reads for one rendered header.
pub open spec fn header_line(h: (Seq<u8>, Seq<u8>)) -> Seq<u8> {
    h.0 + seq![58u8, 32u8] + h.1
}

proof fn lemma_lines_of_header_block(headers: Seq<(Seq<u8>, Seq<u8>)>, body: Seq<u8>)
    requires
        forall|j: int| 0 <= j < headers.len() ==> plain_header(#[trigger] headers[j]),
    ensures
        lines_of(render_header_lines(headers) + seq![13u8, 10u8] + body) == headers.map_values(
            |h: (Seq<u8>, Seq<u8>)| header_line(h),
        ) + seq![Seq::<u8>::empty()] + lines_of(body),
    decreases headers.len(),
{
    if headers.len() == 0 {
        assert(render_header_lines(headers) + seq![13u8, 10u8] + body =~= Seq::<u8>::empty()
            + seq![13u8, 10u8] + body);
        crate::text::lemma_lines_cons(Seq::<u8>::empty(), body);
        assert(lines_of(render_header_lines(headers) + seq![13u8, 10u8] + body) =~~= headers
            .map_values(|h: (Seq<u8>, Seq<u8>)| header_line(h)) + seq![Seq::<u8>::empty()]
            + lines_of(body));
    } else {
        let h = headers[0];
        let rest = render_header_lines(headers.drop_first()) + seq![13u8, 10u8] + body;
        assert(render_header_lines(headers) + seq![13u8, 10u8] + body =~= header_line(h) + seq![
            13u8,
            10u8,
        ] + rest);
        assert(forall|i: int| 0 <= i < header_line(h).len() ==> header_line(h)[i] != 10) by {
            assert(plain_header(h));
            assert(forall|i: int|
                0 <= i < h.0.len() ==> header_line(h)[i] == h.0[i]);
            assert(header_line(h)[h.0.len() as int] == 58);
            assert(header_line(h)[h.0.len() as int + 1] == 32);
            assert(forall|i: int|
                h.0.len() + 2 <= i < header_line(h).len() ==> header_line(h)[i] == h.1[i - h.0.len()
                    - 2]);
        }
        crate::text::lemma_lines_cons(header_line(h), rest);
        lemma_lines_of_header_block(headers.drop_first(), body);
        assert(headers.drop_first().map_values(|hh: (Seq<u8>, Seq<u8>)| header_line(hh))
            =~~= headers.map_values(|hh: (Seq<u8>, Seq<u8>)| header_line(hh)).drop_first());
        assert(lines_of(render_header_lines(headers) + seq![13u8, 10u8] + body) =~~= headers
            .map_values(|hh: (Seq<u8>, Seq<u8>)| header_line(hh)) + seq![Seq::<u8>::empty()]
            + lines_of(body));
    }
}

proof fn lemma_scan_of_rendered(
    lines: Seq<Seq<u8>>,
    headers: Seq<(Seq<u8>, Seq<u8>)>,
    i: int,
    nbody: int,
)
    requires
        0 <= i,
        0 <= nbody,
        forall|j: int| 0 <= j < headers.len() ==> plain_header(#[trigger] headers[j]),
        lines.len() == i + headers.len() + 1 + nbody,
        forall|j: int|
            0 <= j < headers.len() ==> lines[i + j] == header_line(#[trigger] headers[j]),
        lines[i + headers.len()] == Seq::<u8>::empty(),
    ensures
        scan_headers(lines, i).pairs == headers.map_values(
            |h: (Seq<u8>, Seq<u8>)| (latin1(h.0), latin1(h.1)),
        ),
        !scan_headers(lines, i).has_te,
        !scan_headers(lines, i).chunked,
        scan_headers(lines, i).body_start == i + headers.len() + 1,
    decreases headers.len(),
{
    if headers.len() == 0 {
        assert(lines[i].len() == 0);
        assert(scan_headers(lines, i).pairs =~~= headers.map_values(
            |h: (Seq<u8>, Seq<u8>)| (latin1(h.0), latin1(h.1)),
        ));
        assert(scan_headers(lines, i).body_start == i + 1);
        assert(scan_headers(lines, i).body_start == i + headers.len() + 1);
    } else {
        let h = headers[0];
        let l = lines[i];
        assert(l == header_line(h));
        assert(l.len() > 0);
        assert(l[h.0.len() as int] == 58);
        assert(forall|k: int| 0 <= k < h.0.len() ==> l[k] == h.0[k] && l[k] != 58);
        crate::text::lemma_find_from_at(l, 58, 0, h.0.len() as int);
        assert(find_from(l, 58, 0) == Some(h.0.len() as int));
        // the key reads back exactly
        assert(l.take(h.0.len() as int) =~= h.0);
        assert(trim_s(l.take(h.0.len() as int)) == h.0);
        // the value reads back exactly: one leading space is trimmed
        assert(l.skip(h.0.len() as int + 1) =~= seq![32u8] + h.1);
        crate::text::lemma_trim_fixed(h.1);
        assert(trim_s(seq![32u8] + h.1) == h.1) by {
            assert(is_ws((seq![32u8] + h.1)[0]));
            assert((seq![32u8] + h.1).skip(1) =~= h.1);
            assert(crate::text::trim_start_s(seq![32u8] + h.1) == crate::text::trim_start_s(h.1));
        }
        let rest_hdrs = headers.drop_first();
        assert(forall|j: int| 0 <= j < rest_hdrs.len() ==> rest_hdrs[j] == headers[j + 1]);
        assert(forall|j: int|
            0 <= j < rest_hdrs.len() ==> lines[i + 1 + j] == header_line(
                #[trigger] rest_hdrs[j],
            ));
        lemma_scan_of_rendered(lines, rest_hdrs, i + 1, nbody);
        let rest = scan_headers(lines, i + 1);
        assert(scan_headers(lines, i).body_start == rest.body_start);
        assert(scan_headers(lines, i).has_te == (rest.has_te || lower_s(h.0)
            == "transfer-encoding".spec_bytes()));
        assert(scan_headers(lines, i).pairs =~~= headers.map_values(
            |hh: (Seq<u8>, Seq<u8>)| (latin1(hh.0), latin1(hh.1)),
        )) by {
            assert(rest.pairs == rest_hdrs.map_values(
                |hh: (Seq<u8>, Seq<u8>)| (latin1(hh.0), latin1(hh.1)),
            ));
            assert(forall|j: int|
                0 <= j < rest_hdrs.len() ==> rest_hdrs[j] == headers[j + 1]);
        }
        assert(lower_s(trim_s(l.take(h.0.len() as int))) != "transfer-encoding".spec_bytes());
        assert(rest_hdrs.len() == headers.len() - 1);
        assert(rest.body_start == i + 1 + rest_hdrs.len() + 1);
        assert(scan_headers(lines, i).body_start == i + headers.len() + 1);
    }
}

/// Law: parsing inverts rendering.  A request written out as a request
/// line, trimmed headers, a blank line and a body is read back with the
/// same method, path, query string, version, headers and body.  (A body
/// holding a carriage return, or ending in a line feed, would lose those
/// bytes to line splitting, and a chunked transfer declaration would
/// rewrite the body, so such requests are left out.)
#[verifier::rlimit(100)]
pub proof fn parse_inverts_render(
    method: Seq<u8>,
    path: Seq<u8>,
    query: Option<Seq<u8>>,
    version: Seq<u8>,
    headers: Seq<(Seq<u8>, Seq<u8>)>,
    body: Seq<u8>,
)
    requires
        renderable(method, path, query, version, headers, body),
    ensures
        ({
            let r = spec_parse(render_request(method, path, query, version, headers, body));
            &&& r is Some
            &&& r->0.method == latin1(method)
            &&& r->0.path == latin1(path)
            &&& r->0.query_string == (match query {
                Some(q) => Some(latin1(q)),
                None => None::<Seq<char>>,
            })
            &&& r->0.version == latin1(version)
            &&& r->0.headers == headers.map_values(
                |h: (Seq<u8>, Seq<u8>)| (latin1(h.0), latin1(h.1)),
            )
            &&& r->0.body == body
        }),
{
    let target = full_target(path, query);
    let reqline = method + seq![32u8] + target + seq![32u8] + version;
    let block = render_header_lines(headers) + seq![13u8, 10u8] + body;
    let wire = render_request(method, path, query, version, headers, body);
    assert(wire =~= reqline + seq![13u8, 10u8] + block);
    // the line structure
    assert(forall|i: int| 0 <= i < reqline.len() ==> reqline[i] != 10) by {
        assert(forall|i: int| 0 <= i < method.len() ==> reqline[i] == method[i]);
        assert(reqline[method.len() as int] == 32);
        assert(forall|i: int|
            0 <= i < target.len() ==> reqline[method.len() + 1 + i] == target[i]);
        assert(reqline[method.len() as int + 1 + target.len() as int] == 32);
        assert(forall|i: int|
            0 <= i < version.len() ==> reqline[method.len() + target.len() + 2 + i] == version[i]);
    }
    crate::text::lemma_lines_cons(reqline, block);
    lemma_lines_of_header_block(headers, body);
    let hline_list = headers.map_values(|h: (Seq<u8>, Seq<u8>)| header_line(h));
    let lines = lines_of(wire);
    assert(lines == seq![reqline] + (hline_list + seq![Seq::<u8>::empty()] + lines_of(body)));
    assert(lines.len() > 0);
    assert(lines[0] == reqline);
    // the request line tokenizes into exactly method, target and version
    let m1 = method.len() as int;
    let t1 = target.len() as int;
    let v1 = version.len() as int;
    assert(reqline.len() == m1 + t1 + v1 + 2);
    crate::text::lemma_tokens_run(reqline, 0, m1);
    crate::text::lemma_tokens_ws(reqline, m1);
    crate::text::lemma_tokens_run(reqline, m1 + 1, m1 + 1 + t1);
    crate::text::lemma_tokens_ws(reqline, m1 + 1 + t1);
    crate::text::lemma_tokens_run(reqline, m1 + 2 + t1, reqline.len() as int);
    assert(reqline.skip(0) =~= reqline);
    assert(reqline.skip(reqline.len() as int) =~= Seq::<u8>::empty());
    assert(reqline.subrange(0, m1) =~= method);
    assert(reqline.subrange(m1 + 1, m1 + 1 + t1) =~= target);
    assert(reqline.subrange(m1 + 2 + t1, reqline.len() as int) =~= version);
    let toks = tokens_of(reqline);
    assert(toks =~~= seq![method, target, version]);
    // the header scan
    let scan_lines = lines;
    lemma_scan_of_rendered(scan_lines, headers, 1, lines_of(body).len() as int);
    let sc = scan_headers(scan_lines, 1);
    assert(sc.pairs == headers.map_values(|h: (Seq<u8>, Seq<u8>)| (latin1(h.0), latin1(h.1))));
    assert(!sc.chunked);
    assert(sc.body_start == headers.len() + 2);
    // the body joins back
    assert(lines.skip(sc.body_start) =~~= lines_of(body));
    crate::text::lemma_join_lines_inverse(body);
    // the query splits off the target
    crate::text::lemma_find_from_bounds(target, 63, 0);
    match query {
        Some(q) => {
            assert(target[path.len() as int] == 63);
            assert(forall|k: int| 0 <= k < path.len() ==> target[k] == path[k] && target[k] != 63);
            crate::text::lemma_find_from_at(target, 63, 0, path.len() as int);
            assert(target.take(path.len() as int) =~= path);
            assert(target.skip(path.len() as int + 1) =~= q);
        },
        None => {
            assert(find_from(target, 63, 0) is None) by {
                if find_from(target, 63, 0) is Some {
                    let j = find_from(target, 63, 0)->0;
                    assert(target[j] == 63 && target[j] == path[j]);
                }
            }
        },
    }
    // the headers fold into themselves
    let char_pairs = headers.map_values(|h: (Seq<u8>, Seq<u8>)| (latin1(h.0), latin1(h.1)));
    assert(crate::table::distinct_keys(
        Seq::<(Seq<char>, Seq<char>)>::empty() + char_pairs,
    )) by {
        let all = Seq::<(Seq<char>, Seq<char>)>::empty() + char_pairs;
        assert forall|i: int, j: int| 0 <= i < j < all.len() implies (#[trigger] all[i]).0 != (
        #[trigger] all[j]).0 by {
            assert(all[i] == char_pairs[i] && all[j] == char_pairs[j]);
            assert(char_pairs[i].0 == latin1(headers[i].0));
            assert(char_pairs[j].0 == latin1(headers[j].0));
            if latin1(headers[i].0) == latin1(headers[j].0) {
                crate::text::lemma_latin1_injective(headers[i].0, headers[j].0);
            }
        }
    }
    crate::table::lemma_fold_fresh(Seq::<(Seq<char>, Seq<char>)>::empty(), char_pairs);
    assert(fold_table(Seq::<(Seq<char>, Seq<char>)>::empty(), char_pairs) =~~= char_pairs);
}

/// The stateless request parser.
pub struct HttpParser;

impl HttpParser {
    /// Parses an accumulated buffer into a request, or yields nothing when
    /// no complete request can be read from it yet.
    pub fn parse(data: &[u8]) -> (r: Option<HttpRequest>)
        ensures
            match r {
                Some(req) => spec_parse(data@) == Some(req@) && req.wf(),
                None => spec_parse(data@) is None,
            },
    {
        let lines = split_lines(data);
        let ghost lv = lines_of(data@);
        if lines.len() == 0 {
            return None;
        }
        proof {
            assert(lines@[0].deep_view() =~= lines@[0]@);
            assert(lv[0] == lines@[0].deep_view());
        }
        let toks = split_tokens(lines[0].as_slice());
        if toks.len() < 3 {
            return None;
        }
        proof {
            assert(toks@[0].deep_view() =~= toks@[0]@);
            assert(toks@[1].deep_view() =~= toks@[1]@);
            assert(toks@[2].deep_view() =~= toks@[2]@);
            assert(tokens_of(lv[0])[0] == toks@[0].deep_view());
            assert(tokens_of(lv[0])[1] == toks@[1].deep_view());
            assert(tokens_of(lv[0])[2] == toks@[2].deep_view());
        }
        let method = bytes_to_string(toks[0].as_slice());
        let version = bytes_to_string(toks[2].as_slice());
        let full = &toks[1];
        let flen = full.len();
        let (path, query_string) = match find_byte(full.as_slice(), 63) {
            Some(p) => {
                proof {
                    assert(full@.subrange(0, p as int) =~= full@.take(p as int));
                    assert(full@.subrange(p + 1, full@.len() as int) =~= full@.skip(p + 1));
                }
                (
                    bytes_to_string(vstd::slice::slice_subrange(full.as_slice(), 0, p)),
                    Some(
                        bytes_to_string(vstd::slice::slice_subrange(full.as_slice(), p + 1, flen)),
                    ),
                )
            },
            None => (bytes_to_string(full.as_slice()), None),
        };
        // scan the header lines up to the first empty one
        let ghost total = scan_headers(lv, 1);
        let mut headers: Table<String> = Table::new();
        let mut cookies: Table<String> = Table::new();
        let mut is_chunked = false;
        let mut content_type: Vec<u8> = Vec::new();
        let mut body_start: usize = 0;
        let mut found_empty = false;
        let mut i: usize = 1;
        proof {
            lemma_scan_defaults(lv, 1);
        }
        while i < lines.len() && !found_empty
            invariant
                1 <= i <= lv.len() || i == 1,
                lines.deep_view() == lv,
                total == scan_headers(lv, 1),
                headers.wf(),
                cookies.wf(),
                !found_empty ==> {
                    let sc = scan_headers(lv, i as int);
                    &&& fold_table(Seq::<(Seq<char>, Seq<char>)>::empty(), total.pairs)
                        == fold_table(headers@, sc.pairs)
                    &&& fold_table(Seq::<(Seq<char>, Seq<char>)>::empty(), total.cookie_list)
                        == fold_table(cookies@, sc.cookie_list)
                    &&& (sc.has_te ==> total.chunked == sc.chunked)
                    &&& (!sc.has_te ==> total.chunked == is_chunked)
                    &&& (sc.has_ct ==> total.ctype == sc.ctype)
                    &&& (!sc.has_ct ==> total.ctype == content_type@)
                    &&& total.body_start == sc.body_start
                    &&& body_start == 0
                },
                found_empty ==> {
                    &&& fold_table(Seq::<(Seq<char>, Seq<char>)>::empty(), total.pairs)
                        == headers@
                    &&& fold_table(Seq::<(Seq<char>, Seq<char>)>::empty(), total.cookie_list)
                        == cookies@
                    &&& total.chunked == is_chunked
                    &&& total.ctype == content_type@
                    &&& total.body_start == body_start
                    &&& body_start > 0
                },
                body_start <= lv.len(),
            decreases lv.len() - i, (if found_empty { 0int } else { 1int }),
        {
            let ghost sc = scan_headers(lv, i as int);
            let line = &lines[i];
            let llen = line.len();
            proof {
                assert(line@ =~= lv[i as int]);
                lemma_scan_defaults(lv, i + 1);
            }
            if llen == 0 {
                body_start = i + 1;
                found_empty = true;
            } else {
                match find_byte(line.as_slice(), 58) {
                    None => {
                    },
                    Some(cp) => {
                        proof {
                            assert(line@.subrange(0, cp as int) =~= line@.take(cp as int));
                            assert(line@.subrange(cp + 1, line@.len() as int) =~= line@.skip(
                                cp + 1,
                            ));
                        }
                        let key_b = trim_bytes(
                            vstd::slice::slice_subrange(line.as_slice(), 0, cp),
                        );
                        let val_b = trim_bytes(
                            vstd::slice::slice_subrange(line.as_slice(), cp + 1, llen),
                        );
                        let key_lower = lower_bytes(key_b);
                        let key = bytes_to_string(key_b);
                        let value = bytes_to_string(val_b);
                        let ghost rest = scan_headers(lv, i + 1);
                        proof {
                            assert(sc.pairs == seq![(latin1(trim_s(lv[i as int].take(cp as int))),
                                latin1(trim_s(lv[i as int].skip(cp + 1))))] + rest.pairs);
                            assert(sc.pairs[0] == (key@, value@));
                            assert(sc.pairs.drop_first() =~= rest.pairs);
                        }
                        if bytes_eq(key_lower.as_slice(), "cookie".as_bytes()) {
                            let ghost cl = cookies_of(latin1_bytes(trim_s(lv[i as int].skip(
                                cp + 1,
                            ))));
                            let vstr = value.as_str();
                            proof {
                                assert(vstr.spec_bytes() == latin1_bytes(val_b@));
                                assert(sc.cookie_list == cl + rest.cookie_list);
                                lemma_fold_append(cookies@, cl, rest.cookie_list);
                            }
                            Self::parse_cookies(vstr, &mut cookies);
                        } else {
                            proof {
                                assert(sc.cookie_list == Seq::<(Seq<char>, Seq<char>)>::empty()
                                    + rest.cookie_list);
                                assert(Seq::<(Seq<char>, Seq<char>)>::empty() + rest.cookie_list
                                    =~= rest.cookie_list);
                            }
                        }
                        if bytes_eq(key_lower.as_slice(), "transfer-encoding".as_bytes()) {
                            let val_lower = lower_bytes(val_b);
                            is_chunked = contains_bytes(val_lower.as_slice(), "chunked".as_bytes());
                        }
                        if bytes_eq(key_lower.as_slice(), "content-type".as_bytes()) {
                            content_type = vstd::slice::slice_to_vec(val_b);
                        }
                        headers.insert(key, value);
                    },
                }
                i = i + 1;
            }
        }
        if !found_empty {
            proof {
                assert(i == lv.len());
                assert(scan_headers(lv, i as int).body_start == 0);
                assert(total.body_start == 0);
            }
            return None;
        }
        let raw_body = join_lines_from(&lines, body_start);
        let body: Vec<u8> = if is_chunked {
            Self::decode_chunked(raw_body.as_slice())
        } else {
            raw_body
        };
        let query_params: Table<String> = match &query_string {
            Some(qs) => Self::parse_query_string(qs.as_str()),
            None => Table::new(),
        };
        let ct_str = bytes_to_string(content_type.as_slice());
        let ct_ref = ct_str.as_str();
        proof {
            assert(ct_ref.spec_bytes() == latin1_bytes(total.ctype));
        }
        let (form_fields, form_files) = Self::parse_form_data(ct_ref, body.as_slice());
        let req = HttpRequest {
            method,
            path,
            query_string,
            version,
            headers,
            cookies,
            query_params,
            form_fields,
            form_files,
            body,
        };
        proof {
            assert(spec_parse(data@) == Some(req@));
        }
        Some(req)
    }

    /// Percent-decodes a string, reading it byte by byte.
    pub fn url_decode(encoded: &str) -> (r: String)
        ensures
            r@ == url_decode_s(encoded.spec_bytes()),
    {
        url_decode_bytes(encoded.as_bytes())
    }

    /// Parses `key=value&...` parameters into a table, percent-decoding both
    /// halves; a later repetition of a key overwrites the earlier value.
    pub fn parse_query_string(query_string: &str) -> (r: Table<String>)
        ensures
            r@ == fold_table(
                Seq::<(Seq<char>, Seq<char>)>::empty(),
                query_pairs(query_string.spec_bytes()),
            ),
            r.wf(),
    {
        let mut params: Table<String> = Table::new();
        let qs = query_string.as_bytes();
        let pieces = split_bytes_all(qs, 38);
        let ghost pairs = query_pairs(qs@);
        let mut i: usize = 0;
        proof {
            assert(pairs.skip(0) =~= pairs);
        }
        while i < pieces.len()
            invariant
                i <= pieces@.len(),
                pieces.deep_view() == split_all(qs@, 38),
                pairs == query_pairs(qs@),
                params.wf(),
                fold_table(Seq::<(Seq<char>, Seq<char>)>::empty(), pairs) == fold_table(
                    params@,
                    pairs.skip(i as int),
                ),
            decreases pieces@.len() - i,
        {
            let ghost suf = pairs.skip(i as int);
            let piece = &pieces[i];
            proof {
                assert(pairs.len() == pieces.deep_view().len());
                assert(suf[0] == pairs[i as int]);
                assert(pairs[i as int] == query_pair_of(pieces.deep_view()[i as int]));
                assert(suf.drop_first() =~= pairs.skip(i + 1));
                assert(piece@ =~= pieces.deep_view()[i as int]);
            }
            let (key, value) = match find_byte(piece.as_slice(), 61) {
                Some(p) => {
                    proof {
                        assert(piece@.subrange(0, p as int) =~= piece@.take(p as int));
                        assert(piece@.subrange(p + 1, piece@.len() as int) =~= piece@.skip(p + 1));
                    }
                    let k = url_decode_bytes(vstd::slice::slice_subrange(piece.as_slice(), 0, p));
                    let v = url_decode_bytes(
                        vstd::slice::slice_subrange(piece.as_slice(), p + 1, piece.len()),
                    );
                    (k, v)
                },
                None => (url_decode_bytes(piece.as_slice()), String::new()),
            };
            params.insert(key, value);
            i = i + 1;
        }
        proof {
            assert(pairs.skip(pairs.len() as int) =~= Seq::<(Seq<char>, Seq<char>)>::empty());
        }
        params
    }

    /// Parses a `Cookie` header value into `cookies`, keeping entries already
    /// there unless a parsed cookie overwrites them.
    pub fn parse_cookies(cookie_header: &str, cookies: &mut Table<String>)
        ensures
            final(cookies)@ == fold_table(
                old(cookies)@,
                cookies_of(cookie_header.spec_bytes()),
            ),
            old(cookies).wf() ==> final(cookies).wf(),
    {
        let h = cookie_header.as_bytes();
        let pieces = split_bytes_all(h, 59);
        let ghost all = split_all(h@, 59);
        let ghost start = cookies@;
        let mut i: usize = 0;
        proof {
            assert(all.skip(0) =~= all);
        }
        while i < pieces.len()
            invariant
                i <= pieces@.len(),
                pieces.deep_view() == all,
                old(cookies).wf() ==> cookies.wf(),
                fold_table(start, cookie_pairs(all)) == fold_table(
                    cookies@,
                    cookie_pairs(all.skip(i as int)),
                ),
            decreases pieces@.len() - i,
        {
            let ghost suf = all.skip(i as int);
            proof {
                assert(suf[0] == all[i as int]);
                assert(suf.drop_first() =~= all.skip(i + 1));
                assert(pieces@[i as int].deep_view() =~= pieces@[i as int]@);
                assert(all[i as int] == pieces@[i as int].deep_view());
            }
            let c = trim_bytes(pieces[i].as_slice());
            let clen = c.len();
            match find_byte(c, 61) {
                Some(p) => {
                    proof {
                        assert(c@.subrange(0, p as int) =~= c@.take(p as int));
                        assert(c@.subrange(p + 1, c@.len() as int) =~= c@.skip(p + 1));
                    }
                    let name = bytes_to_string(
                        trim_bytes(vstd::slice::slice_subrange(c, 0, p)),
                    );
                    let value = bytes_to_string(
                        trim_bytes(vstd::slice::slice_subrange(c, p + 1, clen)),
                    );
                    proof {
                        let cs = trim_s(all[i as int]);
                        let pr = (latin1(trim_s(cs.take(p as int))), latin1(
                            trim_s(cs.skip(p + 1)),
                        ));
                        let rest = cookie_pairs(all.skip(i + 1));
                        assert(cookie_pairs(suf) == seq![pr] + rest);
                        assert((seq![pr] + rest)[0] == pr);
                        assert((seq![pr] + rest).drop_first() =~= rest);
                    }
                    cookies.insert(name, value);
                },
                None => {
                },
            }
            i = i + 1;
        }
        proof {
            assert(all.skip(all.len() as int) =~= Seq::<Seq<u8>>::empty());
        }
    }

    /// Decodes a chunked transfer encoding: hex-size lines alternating with
    /// one data line each, ended by a zero size; malformed size lines are
    /// skipped.
    pub fn decode_chunked(data: &[u8]) -> (r: Vec<u8>)
        ensures
            r@ == decode_chunked_s(data@),
    {
        let mut result: Vec<u8> = Vec::new();
        let lines = split_lines(data);
        let ghost lv = lines_of(data@);
        let mut i: usize = 0;
        while i < lines.len()
            invariant
                i <= lv.len(),
                lines.deep_view() == lv,
                decode_chunked_s(data@) == result@ + chunks_from(lv, i as int),
            decreases lv.len() - i,
        {
            proof {
                assert(lines@[i as int].deep_view() =~= lines@[i as int]@);
                assert(lv[i as int] == lines@[i as int].deep_view());
            }
            let size_line = trim_bytes(lines[i].as_slice());
            match parse_uint(size_line, 16, usize::MAX) {
                Some(chunk_size) => {
                    if chunk_size == 0 {
                        proof {
                            assert(result@ + chunks_from(lv, i as int) =~= result@);
                        }
                        return result;
                    }
                    if i + 1 < lines.len() {
                        let data_line = &lines[i + 1];
                        proof {
                            assert(data_line@ =~= lv[i as int + 1]);
                        }
                        let n = if chunk_size <= data_line.len() {
                            chunk_size
                        } else {
                            data_line.len()
                        };
                        let ghost before = result@;
                        result.extend_from_slice(
                            vstd::slice::slice_subrange(data_line.as_slice(), 0, n),
                        );
                        proof {
                            assert(data_line@.subrange(0, n as int) =~= lv[i as int + 1].take(
                                n as int,
                            ));
                            assert(before + (lv[i as int + 1].take(n as int) + chunks_from(
                                lv,
                                i + 2,
                            )) =~= result@ + chunks_from(lv, i + 2));
                        }
                        i = i + 2;
                    } else {
                        proof {
                            assert(result@ + chunks_from(lv, i as int) =~= result@);
                        }
                        return result;
                    }
                },
                None => {
                    i = i + 1;
                },
            }
        }
        proof {
            assert(result@ + chunks_from(lv, i as int) =~= result@);
        }
        result
    }
}

} // verus!
