//! Form-body decoding: URL-encoded form fields and `multipart/form-data`
//! parts with their fields and uploaded files.
use crate::parser::{url_decode_bytes, url_decode_s, HttpParser};
use crate::request::{FileView, FormFile};
use crate::table::{fold_table, update_entry, Table};
use crate::text::{
    bytes_eq, bytes_to_string, contains_bytes, contains_seq, find_byte, find_byte_from,
    find_from, find_sub, find_sub_from, is_match_at, latin1,
    latin1_bytes, lines_of, lower_bytes, lower_s, prepend_first, split_all, split_bytes_all,
    split_lines, starts_with_s, trim_bytes, trim_s,
};
use vstd::prelude::*;
use vstd::string::StringSliceAdditionalSpecFns;

verus! {

/// The key/value pairs of a URL-encoded form body: parameters split on `&`,
/// percent-decoded around the first `=`; a parameter without `=` contributes
/// nothing.
pub open spec fn form_pairs_of(pieces: Seq<Seq<u8>>) -> Seq<(Seq<char>, Seq<char>)>
    decreases pieces.len(),
{
    if pieces.len() == 0 {
        Seq::<(Seq<char>, Seq<char>)>::empty()
    } else {
        let p = pieces[0];
        let rest = form_pairs_of(pieces.drop_first());
        match find_from(p, 61, 0) {
            Some(eq) => seq![(url_decode_s(p.take(eq)), url_decode_s(p.skip(eq + 1)))] + rest,
            None => rest,
        }
    }
}

pub open spec fn form_pairs(body: Seq<u8>) -> Seq<(Seq<char>, Seq<char>)> {
    form_pairs_of(split_all(body, 38))
}

/// The pieces of `s` between non-overlapping occurrences of `marker`, as
/// `str::split` with a multi-character pattern yields them.
pub open spec fn split_marker(s: Seq<u8>, marker: Seq<u8>) -> Seq<Seq<u8>>
    decreases s.len() when marker.len() >= 1
{
    if s.len() == 0 {
        seq![Seq::<u8>::empty()]
    } else if starts_with_s(s, marker) {
        seq![Seq::<u8>::empty()] + split_marker(s.skip(marker.len() as int), marker)
    } else {
        prepend_first(s[0], split_marker(s.skip(1), marker))
    }
}

proof fn lemma_split_marker_piece(s: Seq<u8>, m: Seq<u8>, i: int, j: int)
    requires
        1 <= m.len(),
        0 <= i <= j <= s.len(),
        forall|k: int| i <= k < j ==> !is_match_at(s, m, k),
        j == s.len() || is_match_at(s, m, j),
    ensures
        j == s.len() ==> split_marker(s.skip(i), m) == seq![s.subrange(i, j)],
        j < s.len() ==> split_marker(s.skip(i), m) == seq![s.subrange(i, j)] + split_marker(
            s.skip(j + m.len()),
            m,
        ),
    decreases j - i,
{
    if i == j {
        assert(s.subrange(i, j) =~= Seq::<u8>::empty());
        if j == s.len() {
            assert(s.skip(i) =~= Seq::<u8>::empty());
            assert(split_marker(s.skip(i), m) =~~= seq![s.subrange(i, j)]);
        } else {
            assert(s.skip(i).take(m.len() as int) =~= s.subrange(i, i + m.len()));
            assert(starts_with_s(s.skip(i), m));
            assert(s.skip(i).skip(m.len() as int) =~= s.skip(j + m.len()));
            assert(split_marker(s.skip(i), m) =~~= seq![s.subrange(i, j)] + split_marker(
                s.skip(j + m.len()),
                m,
            ));
        }
    } else {
        lemma_split_marker_piece(s, m, i + 1, j);
        assert(s.skip(i).len() > 0 && s.skip(i)[0] == s[i]);
        assert(!is_match_at(s, m, i));
        assert(!starts_with_s(s.skip(i), m)) by {
            if starts_with_s(s.skip(i), m) {
                assert(s.skip(i).take(m.len() as int) =~= s.subrange(i, i + m.len()));
            }
        }
        assert(s.skip(i).skip(1) =~= s.skip(i + 1));
        let rest = split_marker(s.skip(i + 1), m);
        assert(rest.len() > 0);
        assert(seq![s[i]] + rest[0] =~= s.subrange(i, j));
        if j == s.len() {
            assert(prepend_first(s[i], rest) =~~= seq![s.subrange(i, j)]);
        } else {
            assert(rest.drop_first() =~~= split_marker(s.skip(j + m.len()), m));
            assert(prepend_first(s[i], rest) =~~= seq![s.subrange(i, j)] + split_marker(
                s.skip(j + m.len()),
                m,
            ));
        }
    }
}

/// The pieces of `s` around non-overlapping matches of `marker`.
pub fn split_marker_bytes(s: &[u8], marker: &[u8]) -> (r: Vec<Vec<u8>>)
    requires
        marker@.len() >= 1,
    ensures
        r.deep_view() == split_marker(s@, marker@),
{
    let slen = s.len();
    let mut done: Vec<Vec<u8>> = Vec::new();
    let mut pos: usize = 0;
    proof {
        assert(s@.skip(0) =~= s@);
        assert(done.deep_view() + split_marker(s@, marker@) =~~= split_marker(s@, marker@));
    }
    loop
        invariant
            pos <= slen,
            slen == s@.len(),
            marker@.len() >= 1,
            split_marker(s@, marker@) == done.deep_view() + split_marker(
                s@.skip(pos as int),
                marker@,
            ),
        decreases slen - pos,
    {
        let found = find_sub(s, marker, pos);
        proof {
            crate::text::lemma_find_sub_from_bounds(s@, marker@, pos as int);
        }
        match found {
            None => {
                proof {
                    lemma_split_marker_piece(s@, marker@, pos as int, slen as int);
                }
                let ghost old_done = done.deep_view();
                done.push(vstd::slice::slice_to_vec(vstd::slice::slice_subrange(s, pos, slen)));
                proof {
                    assert(done.deep_view() =~~= old_done + seq![
                        s@.subrange(pos as int, slen as int),
                    ]);
                    assert(split_marker(s@, marker@) =~~= done.deep_view());
                }
                return done;
            },
            Some(j) => {
                proof {
                    lemma_split_marker_piece(s@, marker@, pos as int, j as int);
                }
                let ghost old_done = done.deep_view();
                done.push(vstd::slice::slice_to_vec(vstd::slice::slice_subrange(s, pos, j)));
                proof {
                    assert(done.deep_view() =~~= old_done + seq![
                        s@.subrange(pos as int, j as int),
                    ]);
                    assert(done.deep_view() + split_marker(s@.skip(j + marker@.len()), marker@)
                        =~~= old_done + (seq![s@.subrange(pos as int, j as int)] + split_marker(
                        s@.skip(j + marker@.len()),
                        marker@,
                    )));
                }
                pos = j + marker.len();
            },
        }
    }
}

/// The quoted text following the first occurrence of `pat` in `v`, up to the
/// next double quote, if both are present.
pub open spec fn quoted_after(v: Seq<u8>, pat: Seq<u8>) -> Option<Seq<char>> {
    match find_sub_from(v, pat, 0) {
        Some(ns) => {
            let start = ns + pat.len();
            match find_from(v, 34, start) {
                Some(ne) => Some(latin1(v.subrange(start, ne))),
                None => None,
            }
        },
        None => None,
    }
}

/// What the headers of one part declare: field name, optional file name, and
/// content type.
pub ghost struct PartMeta {
    pub name: Seq<char>,
    pub filename: Option<Seq<char>>,
    pub ctype: Seq<char>,
}

/// The metadata after reading the part's header lines from `i` on, starting
/// from `m`: `Content-Disposition` contributes name and filename,
/// `Content-Type` overwrites the content type.
pub open spec fn part_meta_from(lines: Seq<Seq<u8>>, i: int, m: PartMeta) -> PartMeta
    decreases lines.len() - i when 0 <= i
{
    if i >= lines.len() {
        m
    } else {
        let l = lines[i];
        match find_from(l, 58, 0) {
            None => part_meta_from(lines, i + 1, m),
            Some(cp) => {
                let hname = lower_s(trim_s(l.take(cp)));
                let hval = trim_s(l.skip(cp + 1));
                let m2 = if hname == "content-disposition".spec_bytes() {
                    PartMeta {
                        name: match quoted_after(hval, "name=\"".spec_bytes()) {
                            Some(n) => n,
                            None => m.name,
                        },
                        filename: match quoted_after(hval, "filename=\"".spec_bytes()) {
                            Some(f) => Some(f),
                            None => m.filename,
                        },
                        ctype: m.ctype,
                    }
                } else if hname == "content-type".spec_bytes() {
                    PartMeta { name: m.name, filename: m.filename, ctype: latin1(hval) }
                } else {
                    m
                };
                part_meta_from(lines, i + 1, m2)
            },
        }
    }
}

/// `s` with every trailing `\r\n` removed, as `trim_end_matches` leaves it.
pub open spec fn strip_crlf_end(s: Seq<u8>) -> Seq<u8>
    decreases s.len(),
{
    if s.len() >= 2 && s[s.len() - 1] == 10 && s[s.len() - 2] == 13 {
        strip_crlf_end(s.take(s.len() - 2))
    } else {
        s
    }
}

/// What one part of a multipart body contributes.
pub ghost enum PartItem {
    FieldItem(Seq<char>, Seq<char>),
    FileItem(Seq<char>, FileView),
    NoItem,
}

/// The contribution of one part: split at the first blank line into headers
/// and content; a part whose headers name a file becomes a file, any other
/// part with headers becomes a field; a part without the separator is
/// dropped.
pub open spec fn part_item(part: Seq<u8>) -> PartItem {
    let t = trim_s(part);
    match find_sub_from(t, "\r\n\r\n".spec_bytes(), 0) {
        None => PartItem::NoItem,
        Some(pos) => {
            let headers_b = t.take(pos);
            let content = strip_crlf_end(t.skip(pos + 4));
            let meta = part_meta_from(
                lines_of(headers_b),
                0,
                PartMeta { name: ""@, filename: None, ctype: "text/plain"@ },
            );
            match meta.filename {
                Some(f) => PartItem::FileItem(
                    meta.name,
                    FileView { filename: f, content_type: meta.ctype, data: content },
                ),
                None => PartItem::FieldItem(meta.name, latin1(content)),
            }
        },
    }
}

/// The contributions of the parts from `i` on; a part holding `--` marks the
/// closing boundary and ends the walk.
pub open spec fn multipart_items(parts: Seq<Seq<u8>>, i: int) -> Seq<PartItem>
    decreases parts.len() - i when 0 <= i
{
    if i >= parts.len() {
        Seq::<PartItem>::empty()
    } else if contains_seq(parts[i], "--".spec_bytes()) {
        Seq::<PartItem>::empty()
    } else {
        seq![part_item(parts[i])] + multipart_items(parts, i + 1)
    }
}

/// The field contributions folded into a table.
pub open spec fn fold_items_fields(
    init: Seq<(Seq<char>, Seq<char>)>,
    items: Seq<PartItem>,
) -> Seq<(Seq<char>, Seq<char>)>
    decreases items.len(),
{
    if items.len() == 0 {
        init
    } else {
        let next = match items[0] {
            PartItem::FieldItem(n, v) => update_entry(init, n, v),
            _ => init,
        };
        fold_items_fields(next, items.drop_first())
    }
}

/// The file contributions folded into a table.
pub open spec fn fold_items_files(
    init: Seq<(Seq<char>, FileView)>,
    items: Seq<PartItem>,
) -> Seq<(Seq<char>, FileView)>
    decreases items.len(),
{
    if items.len() == 0 {
        init
    } else {
        let next = match items[0] {
            PartItem::FileItem(n, f) => update_entry(init, n, f),
            _ => init,
        };
        fold_items_files(next, items.drop_first())
    }
}

/// The boundary parameter of a `multipart/form-data` content type: the text
/// after `boundary=`, cut at a following `;`.
pub open spec fn boundary_of(ct: Seq<u8>) -> Option<Seq<u8>> {
    match find_sub_from(ct, "boundary=".spec_bytes(), 0) {
        Some(bs) => {
            let b0 = ct.skip(bs + 9);
            match find_from(b0, 59, 0) {
                Some(sc) => Some(b0.take(sc)),
                None => Some(b0),
            }
        },
        None => None,
    }
}

/// The boundary marker: two dashes and the boundary, re-read through a
/// string.
pub open spec fn marker_of(boundary: Seq<u8>) -> Seq<u8> {
    "--".spec_bytes() + latin1_bytes(boundary)
}

/// The form fields a body yields under the given content type.
pub open spec fn spec_form_fields(ct: Seq<u8>, body: Seq<u8>) -> Seq<(Seq<char>, Seq<char>)> {
    if contains_seq(ct, "application/x-www-form-urlencoded".spec_bytes()) {
        fold_table(Seq::<(Seq<char>, Seq<char>)>::empty(), form_pairs(body))
    } else if contains_seq(ct, "multipart/form-data".spec_bytes()) {
        match boundary_of(ct) {
            Some(b) => fold_items_fields(
                Seq::<(Seq<char>, Seq<char>)>::empty(),
                multipart_items(split_marker(body, marker_of(b)), 1),
            ),
            None => Seq::<(Seq<char>, Seq<char>)>::empty(),
        }
    } else {
        Seq::<(Seq<char>, Seq<char>)>::empty()
    }
}

/// The uploaded files a body yields under the given content type.
pub open spec fn spec_form_files(ct: Seq<u8>, body: Seq<u8>) -> Seq<(Seq<char>, FileView)> {
    if contains_seq(ct, "application/x-www-form-urlencoded".spec_bytes()) {
        Seq::<(Seq<char>, FileView)>::empty()
    } else if contains_seq(ct, "multipart/form-data".spec_bytes()) {
        match boundary_of(ct) {
            Some(b) => fold_items_files(
                Seq::<(Seq<char>, FileView)>::empty(),
                multipart_items(split_marker(body, marker_of(b)), 1),
            ),
            None => Seq::<(Seq<char>, FileView)>::empty(),
        }
    } else {
        Seq::<(Seq<char>, FileView)>::empty()
    }
}

impl HttpParser {
    /// Parses the parts of a multipart body split on `--boundary` into form
    /// fields and files, skipping everything before the first boundary and
    /// stopping at the closing one.
    pub fn parse_multipart(
        body: &[u8],
        boundary: &str,
        fields: &mut Table<String>,
        files: &mut Table<FormFile>,
    )
        ensures
            ({
                let items = multipart_items(
                    split_marker(body@, "--".spec_bytes() + boundary.spec_bytes()),
                    1,
                );
                final(fields)@ == fold_items_fields(old(fields)@, items) && final(files)@
                    == fold_items_files(old(files)@, items)
            }),
            old(fields).wf() ==> final(fields).wf(),
            old(files).wf() ==> final(files).wf(),
    {
        let mut marker: Vec<u8> = Vec::new();
        marker.push(45);
        marker.push(45);
        marker.extend_from_slice(boundary.as_bytes());
        proof {
            assert(marker@ =~= "--".spec_bytes() + boundary.spec_bytes()) by {
                reveal_strlit("--");
                assert(vstd::utf8::is_ascii_chars("--"@));
                vstd::utf8::is_ascii_chars_encode_utf8("--"@);
                assert("--"@ =~= seq!['-', '-']);
            }
        }
        let parts = split_marker_bytes(body, marker.as_slice());
        let ghost pv = split_marker(body@, marker@);
        let ghost all_items = multipart_items(pv, 1);
        let ghost fields0 = fields@;
        let ghost files0 = files@;
        let mut i: usize = 1;
        while i < parts.len()
            invariant
                1 <= i,
                parts.deep_view() == pv,
                i <= pv.len() || i == 1,
                fields0 == old(fields)@,
                files0 == old(files)@,
                pv == split_marker(body@, "--".spec_bytes() + boundary.spec_bytes()),
                all_items == multipart_items(pv, 1),
                old(fields).wf() ==> fields.wf(),
                old(files).wf() ==> files.wf(),
                fold_items_fields(fields0, all_items) == fold_items_fields(
                    fields@,
                    multipart_items(pv, i as int),
                ),
                fold_items_files(files0, all_items) == fold_items_files(
                    files@,
                    multipart_items(pv, i as int),
                ),
            decreases pv.len() - i,
        {
            let part = &parts[i];
            proof {
                assert(part@ =~= pv[i as int]);
            }
            if contains_bytes(part.as_slice(), "--".as_bytes()) {
                proof {
                    reveal_strlit("--");
                    assert(contains_seq(pv[i as int], "--".spec_bytes()));
                    assert(multipart_items(pv, i as int) =~= Seq::<PartItem>::empty());
                }
                return ;
            }
            let ghost item = part_item(pv[i as int]);
            proof {
                let suf = multipart_items(pv, i as int);
                assert(suf == seq![item] + multipart_items(pv, i + 1));
                assert(suf[0] == item);
                assert(suf.drop_first() =~= multipart_items(pv, i + 1));
            }
            let t = trim_bytes(part.as_slice());
            let tlen = t.len();
            proof {
                assert("\r\n\r\n".spec_bytes().len() == 4) by {
                    reveal_strlit("\r\n\r\n");
                    assert(vstd::utf8::is_ascii_chars("\r\n\r\n"@));
                    vstd::utf8::is_ascii_chars_encode_utf8("\r\n\r\n"@);
                }
            }
            match find_sub(t, "\r\n\r\n".as_bytes(), 0) {
                None => {
                },
                Some(pos) => {
                    let headers_b = vstd::slice::slice_subrange(t, 0, pos);
                    proof {
                        assert(headers_b@ =~= trim_s(pv[i as int]).take(pos as int));
                    }
                    let mut content = vstd::slice::slice_subrange(t, pos + 4, tlen);
                    proof {
                        assert(content@ =~= trim_s(pv[i as int]).skip(pos + 4));
                    }
                    let ghost content0 = content@;
                    let mut clen = content.len();
                    while clen >= 2 && content[clen - 1] == 10 && content[clen - 2] == 13
                        invariant
                            clen == content@.len(),
                            strip_crlf_end(content0) == strip_crlf_end(content@),
                        decreases content@.len(),
                    {
                        proof {
                            assert(content@.subrange(0, content@.len() - 2) =~= content@.take(
                                content@.len() - 2,
                            ));
                        }
                        content = vstd::slice::slice_subrange(content, 0, clen - 2);
                        clen = clen - 2;
                    }
                    proof {
                        assert(strip_crlf_end(content@) == content@);
                    }
                    // scan the part's own header lines
                    let hlines = split_lines(headers_b);
                    let ghost hlv = lines_of(headers_b@);
                    let mut field_name = String::new();
                    let mut filename: Option<String> = None;
                    let mut ctype: String = "text/plain".to_owned();
                    let ghost meta0 = PartMeta { name: ""@, filename: None, ctype: "text/plain"@ };
                    proof {
                        reveal_strlit("");
                        assert(field_name@ =~= ""@);
                    }
                    let mut k: usize = 0;
                    while k < hlines.len()
                        invariant
                            k <= hlv.len(),
                            hlines.deep_view() == hlv,
                            part_meta_from(hlv, 0, meta0) == part_meta_from(
                                hlv,
                                k as int,
                                PartMeta {
                                    name: field_name@,
                                    filename: filename.deep_view(),
                                    ctype: ctype@,
                                },
                            ),
                        decreases hlv.len() - k,
                    {
                        let ghost cur = PartMeta {
                            name: field_name@,
                            filename: filename.deep_view(),
                            ctype: ctype@,
                        };
                        let line = &hlines[k];
                        let llen = line.len();
                        proof {
                            assert(line@ =~= hlv[k as int]);
                        }
                        match find_byte(line.as_slice(), 58) {
                            None => {
                            },
                            Some(cp) => {
                                proof {
                                    assert(line@.subrange(0, cp as int) =~= line@.take(cp as int));
                                    assert(line@.subrange(cp + 1, line@.len() as int) =~= line@.skip(
                                        cp + 1,
                                    ));
                                }
                                let hname = lower_bytes(
                                    trim_bytes(vstd::slice::slice_subrange(line.as_slice(), 0, cp)),
                                );
                                let hval = trim_bytes(
                                    vstd::slice::slice_subrange(line.as_slice(), cp + 1, llen),
                                );
                                let hvlen = hval.len();
                                if bytes_eq(hname.as_slice(), "content-disposition".as_bytes()) {
                                    match find_sub(hval, "name=\"".as_bytes(), 0) {
                                        Some(ns) => {
                                            proof {
                                                assert("name=\"".spec_bytes().len() == 6) by {
                                                    reveal_strlit("name=\"");
                                                    assert(vstd::utf8::is_ascii_chars("name=\""@));
                                                    vstd::utf8::is_ascii_chars_encode_utf8(
                                                        "name=\""@,
                                                    );
                                                }
                                            }
                                            match find_byte_from(hval, 34, ns + 6) {
                                                Some(ne) => {
                                                    field_name = bytes_to_string(
                                                        vstd::slice::slice_subrange(
                                                            hval,
                                                            ns + 6,
                                                            ne,
                                                        ),
                                                    );
                                                },
                                                None => {
                                                },
                                            }
                                        },
                                        None => {
                                        },
                                    }
                                    match find_sub(hval, "filename=\"".as_bytes(), 0) {
                                        Some(fs) => {
                                            proof {
                                                assert("filename=\"".spec_bytes().len() == 10) by {
                                                    reveal_strlit("filename=\"");
                                                    assert(vstd::utf8::is_ascii_chars(
                                                        "filename=\""@,
                                                    ));
                                                    vstd::utf8::is_ascii_chars_encode_utf8(
                                                        "filename=\""@,
                                                    );
                                                }
                                            }
                                            match find_byte_from(hval, 34, fs + 10) {
                                                Some(fe) => {
                                                    filename = Some(
                                                        bytes_to_string(
                                                            vstd::slice::slice_subrange(
                                                                hval,
                                                                fs + 10,
                                                                fe,
                                                            ),
                                                        ),
                                                    );
                                                },
                                                None => {
                                                },
                                            }
                                        },
                                        None => {
                                        },
                                    }
                                } else if bytes_eq(hname.as_slice(), "content-type".as_bytes()) {
                                    ctype = bytes_to_string(hval);
                                }
                            },
                        }
                        k = k + 1;
                    }
                    let ghost meta = part_meta_from(hlv, 0, meta0);
                    proof {
                        assert(meta == PartMeta {
                            name: field_name@,
                            filename: filename.deep_view(),
                            ctype: ctype@,
                        });
                    }
                    match filename {
                        Some(f) => {
                            files.insert(
                                field_name,
                                FormFile {
                                    filename: f,
                                    content_type: ctype,
                                    data: vstd::slice::slice_to_vec(content),
                                },
                            );
                        },
                        None => {
                            fields.insert(field_name, bytes_to_string(content));
                        },
                    }
                },
            }
            i = i + 1;
        }
        proof {
            assert(multipart_items(pv, i as int) =~= Seq::<PartItem>::empty());
        }
    }

    /// Dispatches body decoding on the declared content type: URL-encoded
    /// fields, multipart fields and files when a boundary is declared, and
    /// nothing otherwise.
    pub fn parse_form_data(content_type: &str, body: &[u8]) -> (r: (Table<String>, Table<
        FormFile,
    >))
        ensures
            r.0@ == spec_form_fields(content_type.spec_bytes(), body@),
            r.1@ == spec_form_files(content_type.spec_bytes(), body@),
            r.0.wf(),
            r.1.wf(),
    {
        let mut fields: Table<String> = Table::new();
        let mut files: Table<FormFile> = Table::new();
        let ct = content_type.as_bytes();
        if contains_bytes(ct, "application/x-www-form-urlencoded".as_bytes()) {
            let pieces = split_bytes_all(body, 38);
            let ghost all = split_all(body@, 38);
            let mut i: usize = 0;
            proof {
                assert(all.skip(0) =~= all);
            }
            while i < pieces.len()
                invariant
                    i <= pieces@.len(),
                    pieces.deep_view() == all,
                    fields.wf(),
                    fold_table(
                        Seq::<(Seq<char>, Seq<char>)>::empty(),
                        form_pairs_of(all),
                    ) == fold_table(fields@, form_pairs_of(all.skip(i as int))),
                decreases pieces@.len() - i,
            {
                let ghost suf = all.skip(i as int);
                let piece = &pieces[i];
                proof {
                    assert(suf[0] == all[i as int]);
                    assert(suf.drop_first() =~= all.skip(i + 1));
                    assert(piece@ =~= all[i as int]);
                }
                match find_byte(piece.as_slice(), 61) {
                    Some(p) => {
                        proof {
                            assert(piece@.subrange(0, p as int) =~= piece@.take(p as int));
                            assert(piece@.subrange(p + 1, piece@.len() as int) =~= piece@.skip(
                                p + 1,
                            ));
                            let pr = (
                                url_decode_s(all[i as int].take(p as int)),
                                url_decode_s(all[i as int].skip(p + 1)),
                            );
                            let rest = form_pairs_of(all.skip(i + 1));
                            assert(form_pairs_of(suf) == seq![pr] + rest);
                            assert((seq![pr] + rest)[0] == pr);
                            assert((seq![pr] + rest).drop_first() =~= rest);
                        }
                        let k = url_decode_bytes(
                            vstd::slice::slice_subrange(piece.as_slice(), 0, p),
                        );
                        let v = url_decode_bytes(
                            vstd::slice::slice_subrange(piece.as_slice(), p + 1, piece.len()),
                        );
                        fields.insert(k, v);
                    },
                    None => {
                    },
                }
                i = i + 1;
            }
            proof {
                assert(all.skip(all.len() as int) =~= Seq::<Seq<u8>>::empty());
            }
        } else if contains_bytes(ct, "multipart/form-data".as_bytes()) {
            let ctlen = ct.len();
            match find_sub(ct, "boundary=".as_bytes(), 0) {
                Some(bs) => {
                    proof {
                        assert("boundary=".spec_bytes().len() == 9) by {
                            reveal_strlit("boundary=");
                            assert(vstd::utf8::is_ascii_chars("boundary="@));
                            vstd::utf8::is_ascii_chars_encode_utf8("boundary="@);
                        }
                    }
                    let b0 = vstd::slice::slice_subrange(ct, bs + 9, ctlen);
                    proof {
                        assert(b0@ =~= content_type.spec_bytes().skip(bs + 9));
                    }
                    let bnd = match find_byte(b0, 59) {
                        Some(sc) => {
                            proof {
                                assert(b0@.subrange(0, sc as int) =~= b0@.take(sc as int));
                            }
                            vstd::slice::slice_subrange(b0, 0, sc)
                        },
                        None => b0,
                    };
                    let boundary = bytes_to_string(bnd);
                    let bstr = boundary.as_str();
                    proof {
                        assert(bstr.spec_bytes() == latin1_bytes(bnd@));
                    }
                    HttpParser::parse_multipart(body, bstr, &mut fields, &mut files);
                },
                None => {
                },
            }
        }
        (fields, files)
    }
}

} // verus!
