//! The response type and its serialization to wire bytes, plain or with
//! chunked transfer encoding.
use crate::table::{update_entry, Table};
use crate::text::{dec_rep, hex_rep, latin1, push_dec, push_hex};
use vstd::prelude::*;
use vstd::string::StringSliceAdditionalSpecFns;
use vstd::utf8::encode_utf8;

verus! {

/// An HTTP/1.1 response.
#[derive(Debug)]
pub struct HttpResponse {
    pub status: u16,
    pub status_text: String,
    pub headers: Table<String>,
    pub body: Vec<u8>,
    pub is_chunked: bool,
}

/// The mathematical image of an [`HttpResponse`].
pub ghost struct RespView {
    pub status: u16,
    pub status_text: Seq<char>,
    pub headers: Seq<(Seq<char>, Seq<char>)>,
    pub body: Seq<u8>,
    pub is_chunked: bool,
}

impl View for HttpResponse {
    type V = RespView;

    open spec fn view(&self) -> RespView {
        RespView {
            status: self.status,
            status_text: self.status_text@,
            headers: self.headers@,
            body: self.body@,
            is_chunked: self.is_chunked,
        }
    }
}

/// The header block: one `key: value` line per entry, each ended by CRLF.
pub open spec fn render_headers(pairs: Seq<(Seq<char>, Seq<char>)>) -> Seq<u8>
    decreases pairs.len(),
{
    if pairs.len() == 0 {
        Seq::<u8>::empty()
    } else {
        encode_utf8(pairs[0].0) + ": ".spec_bytes() + encode_utf8(pairs[0].1)
            + "\r\n".spec_bytes() + render_headers(pairs.drop_first())
    }
}

/// The chunked encoding of a body: each 1024-byte slice as a lower-case hex
/// size line and a data line, ended by a zero-size chunk.
pub open spec fn chunk_encode(body: Seq<u8>) -> Seq<u8>
    decreases body.len(),
{
    if body.len() == 0 {
        "0\r\n\r\n".spec_bytes()
    } else {
        let n = if body.len() <= 1024 {
            body.len() as int
        } else {
            1024
        };
        hex_rep(n) + "\r\n".spec_bytes() + body.take(n) + "\r\n".spec_bytes() + chunk_encode(
            body.skip(n),
        )
    }
}

/// The serialized response: status line, header block, blank line, then the
/// body, raw or chunk-encoded.
pub open spec fn render_response(v: RespView) -> Seq<u8> {
    "HTTP/1.1 ".spec_bytes() + dec_rep(v.status as int) + " ".spec_bytes() + encode_utf8(
        v.status_text,
    ) + "\r\n".spec_bytes() + render_headers(v.headers) + "\r\n".spec_bytes() + (
    if v.is_chunked {
        chunk_encode(v.body)
    } else {
        v.body
    })
}

proof fn lemma_chunks_shift(pre: Seq<Seq<u8>>, rest: Seq<Seq<u8>>, i: int)
    requires
        0 <= i,
    ensures
        crate::parser::chunks_from(pre + rest, pre.len() + i) == crate::parser::chunks_from(
            rest,
            i,
        ),
    decreases rest.len() - i,
{
    let all = pre + rest;
    let j = pre.len() + i;
    if i >= rest.len() {
    } else {
        assert(all[j] == rest[i]);
        match crate::text::parse_uint_s(
            crate::text::trim_s(rest[i]),
            16,
            usize::MAX as int,
        ) {
            Some(sz) => {
                if sz == 0 {
                } else if i + 1 < rest.len() {
                    assert(all[j + 1] == rest[i + 1]);
                    lemma_chunks_shift(pre, rest, i + 2);
                } else {
                }
            },
            None => {
                lemma_chunks_shift(pre, rest, i + 1);
            },
        }
    }
}

/// Law: chunked serialization inverts exactly. Decoding the chunked
/// encoding of any body that holds no line-feed byte yields that body
/// again.  (A line feed inside a chunk would re-split the data line under
/// the line-oriented decoder, so those bodies are left out; a carriage
/// return survives, since only the one ending each chunk line is
/// stripped.)
pub proof fn chunked_round_trip(body: Seq<u8>)
    requires
        forall|i: int| 0 <= i < body.len() ==> body[i] != 10,
    ensures
        crate::parser::decode_chunked_s(chunk_encode(body)) == body,
    decreases body.len(),
{
    reveal_strlit("0\r\n\r\n");
    reveal_strlit("\r\n");
    assert(vstd::utf8::is_ascii_chars("0\r\n\r\n"@));
    vstd::utf8::is_ascii_chars_encode_utf8("0\r\n\r\n"@);
    assert(vstd::utf8::is_ascii_chars("\r\n"@));
    vstd::utf8::is_ascii_chars_encode_utf8("\r\n"@);
    if body.len() == 0 {
        let z = "0\r\n\r\n".spec_bytes();
        assert(z =~= seq![48u8] + seq![13u8, 10u8] + (seq![13u8, 10u8] + Seq::<u8>::empty()));
        crate::text::lemma_lines_cons(seq![48u8], seq![13u8, 10u8] + Seq::<u8>::empty());
        assert(seq![13u8, 10u8] + Seq::<u8>::empty() =~= Seq::<u8>::empty() + seq![13u8, 10u8]
            + Seq::<u8>::empty());
        crate::text::lemma_lines_cons(Seq::<u8>::empty(), Seq::<u8>::empty());
        crate::text::lemma_lines_last(Seq::<u8>::empty());
        let lv = crate::text::lines_of(z);
        assert(lv =~~= seq![seq![48u8], Seq::<u8>::empty()]);
        assert(crate::text::trim_s(seq![48u8]) == seq![48u8]);
        assert(seq![48u8].drop_last() =~= Seq::<u8>::empty());
        assert(seq![48u8].last() == 48u8);
        assert(crate::text::num_val(seq![48u8], 16) == crate::text::num_val(
            seq![48u8].drop_last(),
            16,
        ) * 16 + crate::text::digit_val(seq![48u8].last()));
        assert(crate::text::num_val(Seq::<u8>::empty(), 16) == 0);
        assert(crate::text::num_val(seq![48u8], 16) == 0);
        assert(crate::text::digits_ok(seq![48u8], 16));
        assert(crate::text::strip_plus(seq![48u8]) == seq![48u8]);
        assert(crate::text::parse_uint_s(seq![48u8], 16, usize::MAX as int) == Some(0int));
        assert(crate::parser::chunks_from(lv, 0) =~= Seq::<u8>::empty());
    } else {
        let n = if body.len() <= 1024 {
            body.len() as int
        } else {
            1024
        };
        let h = crate::text::hex_rep(n);
        crate::text::lemma_hex_rep_value(n);
        let tail = chunk_encode(body.skip(n));
        let enc = chunk_encode(body);
        assert(enc == h + "\r\n".spec_bytes() + body.take(n) + "\r\n".spec_bytes() + tail);
        assert(enc =~= h + seq![13u8, 10u8] + (body.take(n) + seq![13u8, 10u8] + tail));
        crate::text::lemma_lines_cons(h, body.take(n) + seq![13u8, 10u8] + tail);
        crate::text::lemma_lines_cons(body.take(n), tail);
        let lt = crate::text::lines_of(tail);
        let lv = crate::text::lines_of(enc);
        assert(lv == seq![h] + (seq![body.take(n)] + lt));
        assert(lv =~~= seq![h, body.take(n)] + lt);
        // the size line reads back as n
        assert(crate::text::trim_s(h) == h) by {
            assert(h.len() > 0 && !crate::text::is_ws(h[0]) && !crate::text::is_ws(h.last()));
        }
        assert(crate::text::strip_plus(h) == h);
        assert(crate::text::parse_uint_s(h, 16, usize::MAX as int) == Some(n));
        chunked_round_trip(body.skip(n));
        // the tail's lines always start past index 1, so the walk continues there
        assert(lv[0] == h && lv[1] == body.take(n));
        lemma_chunks_shift(seq![h, body.take(n)], lt, 0);
        assert(crate::parser::chunks_from(lv, 2) == crate::parser::chunks_from(lt, 0));
        assert(n > 0);
        assert(lv.len() >= 2);
        assert(crate::parser::chunks_from(lv, 0) == body.take(n) + crate::parser::chunks_from(
            lv,
            2,
        )) by {
            assert(body.take(n).len() == n);
        }
        assert(body.take(n) + body.skip(n) =~= body);
    }
}

impl HttpResponse {
    /// A plain response carrying the given text as an HTML body, with its
    /// content length declared.
    pub fn new(status: u16, status_text: &str, body: &str) -> (r: HttpResponse)
        ensures
            r@.status == status,
            r@.status_text == status_text@,
            r@.body == body.spec_bytes(),
            r@.is_chunked == false,
            r@.headers == update_entry(
                update_entry(
                    Seq::<(Seq<char>, Seq<char>)>::empty(),
                    "Content-Type"@,
                    "text/html"@,
                ),
                "Content-Length"@,
                latin1(dec_rep(body.spec_bytes().len() as int)),
            ),
            r.headers.wf(),
    {
        let mut headers: Table<String> = Table::new();
        headers.insert("Content-Type".to_owned(), "text/html".to_owned());
        let blen = body.as_bytes().len();
        headers.insert("Content-Length".to_owned(), crate::text::dec_string(blen));
        HttpResponse {
            status,
            status_text: status_text.to_owned(),
            headers,
            body: vstd::slice::slice_to_vec(body.as_bytes()),
            is_chunked: false,
        }
    }

    /// Serializes the response for the wire.
    pub fn to_bytes(&self) -> (r: Vec<u8>)
        ensures
            r@ == render_response(self@),
    {
        let mut out: Vec<u8> = Vec::new();
        out.extend_from_slice("HTTP/1.1 ".as_bytes());
        push_dec(&mut out, self.status as usize);
        out.extend_from_slice(" ".as_bytes());
        out.extend_from_slice(self.status_text.as_str().as_bytes());
        out.extend_from_slice("\r\n".as_bytes());
        let ghost hv = self.headers@;
        let ghost base = out@;
        let mut i: usize = 0;
        proof {
            assert(hv.skip(0) =~= hv);
        }
        while i < self.headers.len()
            invariant
                i <= hv.len(),
                hv == self.headers@,
                base + render_headers(hv) == out@ + render_headers(hv.skip(i as int)),
            decreases hv.len() - i,
        {
            let ghost before = out@;
            let key = self.headers.key_at(i);
            let val = self.headers.val_at(i);
            out.extend_from_slice(key.as_str().as_bytes());
            out.extend_from_slice(": ".as_bytes());
            out.extend_from_slice(val.as_str().as_bytes());
            out.extend_from_slice("\r\n".as_bytes());
            proof {
                let suf = hv.skip(i as int);
                assert(suf[0] == hv[i as int]);
                assert(suf.drop_first() =~= hv.skip(i + 1));
                assert(out@ =~= before + (encode_utf8(hv[i as int].0) + ": ".spec_bytes()
                    + encode_utf8(hv[i as int].1) + "\r\n".spec_bytes()));
                assert(before + render_headers(suf) =~= out@ + render_headers(hv.skip(i + 1)));
            }
            i = i + 1;
        }
        proof {
            assert(hv.skip(hv.len() as int) =~= Seq::<(Seq<char>, Seq<char>)>::empty());
            assert(out@ =~= base + render_headers(hv));
        }
        out.extend_from_slice("\r\n".as_bytes());
        if self.is_chunked {
            let ghost bv = self.body@;
            let ghost head = out@;
            let blen = self.body.len();
            let mut pos: usize = 0;
            proof {
                assert(bv.skip(0) =~= bv);
            }
            while pos < blen
                invariant
                    pos <= blen,
                    blen == bv.len(),
                    bv == self.body@,
                    head + chunk_encode(bv) == out@ + chunk_encode(bv.skip(pos as int)),
                decreases blen - pos,
            {
                let n: usize = if blen - pos <= 1024 {
                    blen - pos
                } else {
                    1024
                };
                let ghost before = out@;
                push_hex(&mut out, n);
                out.extend_from_slice("\r\n".as_bytes());
                out.extend_from_slice(
                    vstd::slice::slice_subrange(self.body.as_slice(), pos, pos + n),
                );
                out.extend_from_slice("\r\n".as_bytes());
                proof {
                    let suf = bv.skip(pos as int);
                    assert(suf.take(n as int) =~= bv.subrange(pos as int, pos + n));
                    assert(suf.skip(n as int) =~= bv.skip(pos + n));
                    assert(out@ =~= before + (hex_rep(n as int) + "\r\n".spec_bytes()
                        + suf.take(n as int) + "\r\n".spec_bytes()));
                    assert(before + chunk_encode(suf) =~= out@ + chunk_encode(bv.skip(pos + n)));
                }
                pos = pos + n;
            }
            out.extend_from_slice("0\r\n\r\n".as_bytes());
            proof {
                assert(bv.skip(blen as int) =~= Seq::<u8>::empty());
                assert(out@ =~= head + chunk_encode(bv));
                assert(out@ =~= render_response(self@));
            }
        } else {
            out.extend_from_slice(self.body.as_slice());
            proof {
                assert(out@ =~= render_response(self@));
            }
        }
        out
    }
}

} // verus!
