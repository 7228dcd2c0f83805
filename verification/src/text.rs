//! Byte- and character-level utilities shared by the codec: the bridge
//! between raw bytes and `String` values, whitespace handling, searching,
//! splitting, case folding, and numeral rendering/parsing.
use vstd::prelude::*;
use vstd::string::StringSliceAdditionalSpecFns;

verus! {

/// The characters a sequence of bytes stands for, one character per byte.
pub open spec fn latin1(s: Seq<u8>) -> Seq<char> {
    s.map_values(|b: u8| b as char)
}

/// The UTF-8 bytes of the string that a byte sequence stands for; the
/// sequence itself whenever every byte is ASCII.
pub open spec fn latin1_bytes(b: Seq<u8>) -> Seq<u8> {
    vstd::utf8::encode_utf8(latin1(b))
}

/// On ASCII bytes, reading bytes as characters and writing them back as
/// UTF-8 changes nothing.
pub proof fn lemma_latin1_bytes_ascii(b: Seq<u8>)
    requires
        forall|i: int| 0 <= i < b.len() ==> b[i] < 128,
    ensures
        latin1_bytes(b) == b,
{
    let cs = latin1(b);
    assert(vstd::utf8::is_ascii_chars(cs));
    vstd::utf8::is_ascii_chars_encode_utf8(cs);
    assert(vstd::utf8::encode_utf8(cs) =~= b);
}

/// Relies on std's String::push: appends one character to the string.
pub assume_specification[ String::push ](s: &mut String, ch: char)
    ensures
        final(s)@ == old(s)@.push(ch),
;

/// Builds the string whose characters are the given bytes, one per byte.
pub fn bytes_to_string(b: &[u8]) -> (r: String)
    ensures
        r@ == latin1(b@),
{
    let mut r = String::new();
    let mut i: usize = 0;
    while i < b.len()
        invariant
            i <= b.len(),
            r@ == latin1(b@.take(i as int)),
        decreases b.len() - i,
    {
        let c: char = b[i] as char;
        r.push(c);
        proof {
            assert(latin1(b@.take(i + 1)) == latin1(b@.take(i as int)).push(b@[i as int] as char)) by {
                assert(b@.take(i + 1) =~= b@.take(i as int).push(b@[i as int]));
                assert(latin1(b@.take(i as int).push(b@[i as int])) =~= latin1(
                    b@.take(i as int),
                ).push(b@[i as int] as char));
            }
        }
        i = i + 1;
    }
    proof {
        assert(b@.take(b@.len() as int) =~= b@);
    }
    r
}

/// A byte is ASCII whitespace, as `str::trim` and `split_whitespace` treat it.
pub open spec fn is_ws(b: u8) -> bool {
    b == 32 || b == 9 || b == 10 || b == 11 || b == 12 || b == 13
}

pub fn is_ws_byte(b: u8) -> (r: bool)
    ensures
        r == is_ws(b),
{
    b == 32 || b == 9 || b == 10 || b == 11 || b == 12 || b == 13
}

/// Index of the first occurrence of `b` in `s` at or after `i`.
pub open spec fn find_from(s: Seq<u8>, b: u8, i: int) -> Option<int>
    decreases s.len() - i when 0 <= i <= s.len()
{
    if i >= s.len() {
        None
    } else if s[i] == b {
        Some(i)
    } else {
        find_from(s, b, i + 1)
    }
}

pub proof fn lemma_find_from_bounds(s: Seq<u8>, b: u8, i: int)
    requires
        0 <= i <= s.len(),
    ensures
        match find_from(s, b, i) {
            Some(j) => i <= j < s.len() && s[j] == b && forall|k: int| i <= k < j ==> s[k] != b,
            None => forall|k: int| i <= k < s.len() ==> s[k] != b,
        },
    decreases s.len() - i,
{
    if i < s.len() && s[i] != b {
        lemma_find_from_bounds(s, b, i + 1);
    }
}

/// First occurrence of byte `b` in `h`.
pub fn find_byte(h: &[u8], b: u8) -> (r: Option<usize>)
    ensures
        match r {
            Some(j) => j < h@.len() && find_from(h@, b, 0) == Some(j as int),
            None => find_from(h@, b, 0) is None,
        },
{
    let mut i: usize = 0;
    while i < h.len()
        invariant
            i <= h.len(),
            find_from(h@, b, 0) == find_from(h@, b, i as int),
        decreases h.len() - i,
    {
        if h[i] == b {
            return Some(i);
        }
        i = i + 1;
    }
    None
}

/// First occurrence of byte `b` in `h` at or after `from`.
pub fn find_byte_from(h: &[u8], b: u8, from: usize) -> (r: Option<usize>)
    requires
        from <= h@.len(),
    ensures
        match r {
            Some(j) => from <= j < h@.len() && find_from(h@, b, from as int) == Some(j as int),
            None => find_from(h@, b, from as int) is None,
        },
{
    let hlen = h.len();
    let mut i: usize = from;
    while i < hlen
        invariant
            from <= i <= hlen,
            hlen == h@.len(),
            find_from(h@, b, from as int) == find_from(h@, b, i as int),
        decreases hlen - i,
    {
        if h[i] == b {
            return Some(i);
        }
        i = i + 1;
    }
    None
}

/// The bytes match `n` when read at position `i` of `h`.
pub open spec fn is_match_at(h: Seq<u8>, n: Seq<u8>, i: int) -> bool {
    0 <= i && i + n.len() <= h.len() && h.subrange(i, i + n.len()) == n
}

/// Index of the first match of `n` in `h` at or after `i`.
pub open spec fn find_sub_from(h: Seq<u8>, n: Seq<u8>, i: int) -> Option<int>
    decreases h.len() + 1 - i when 0 <= i
{
    if i + n.len() > h.len() {
        None
    } else if h.subrange(i, i + n.len()) == n {
        Some(i)
    } else {
        find_sub_from(h, n, i + 1)
    }
}

pub proof fn lemma_find_sub_from_bounds(h: Seq<u8>, n: Seq<u8>, i: int)
    requires
        0 <= i,
    ensures
        match find_sub_from(h, n, i) {
            Some(j) => i <= j && is_match_at(h, n, j) && forall|k: int|
                i <= k < j ==> !is_match_at(h, n, k),
            None => forall|k: int| i <= k ==> !is_match_at(h, n, k),
        },
    decreases h.len() + 1 - i,
{
    if i + n.len() > h.len() {
    } else if h.subrange(i, i + n.len()) == n {
    } else {
        lemma_find_sub_from_bounds(h, n, i + 1);
    }
}

/// The byte sequences are equal.
pub fn bytes_eq(a: &[u8], b: &[u8]) -> (r: bool)
    ensures
        r == (a@ == b@),
{
    if a.len() != b.len() {
        proof {
            assert(a@.len() != b@.len());
        }
        return false;
    }
    let mut i: usize = 0;
    while i < a.len()
        invariant
            i <= a.len(),
            a@.len() == b@.len(),
            forall|j: int| 0 <= j < i ==> a@[j] == b@[j],
        decreases a.len() - i,
    {
        if a[i] != b[i] {
            return false;
        }
        i = i + 1;
    }
    proof {
        assert(a@ =~= b@);
    }
    true
}

/// First match of `n` in `h` at or after `from`.
pub fn find_sub(h: &[u8], n: &[u8], from: usize) -> (r: Option<usize>)
    requires
        from <= h@.len(),
    ensures
        match r {
            Some(j) => from <= j && j + n@.len() <= h@.len() && find_sub_from(h@, n@, from as int)
                == Some(j as int),
            None => find_sub_from(h@, n@, from as int) is None,
        },
{
    if n.len() > h.len() {
        return None;
    }
    if n.len() == 0 {
        proof {
            assert(h@.subrange(from as int, from as int) =~= n@);
        }
        return Some(from);
    }
    let hlen = h.len();
    let nlen = n.len();
    let last = hlen - nlen;
    if from > last {
        return None;
    }
    let mut i: usize = from;
    while i <= last
        invariant
            from <= i,
            nlen == n@.len() >= 1,
            hlen == h@.len(),
            last == hlen - nlen,
            i <= last + 1,
            find_sub_from(h@, n@, from as int) == find_sub_from(h@, n@, i as int),
        decreases last + 1 - i,
    {
        let w = vstd::slice::slice_subrange(h, i, i + nlen);
        if bytes_eq(w, n) {
            return Some(i);
        }
        i = i + 1;
    }
    proof {
        assert(find_sub_from(h@, n@, i as int) is None);
    }
    None
}

/// `h` contains `n` as a contiguous run.
pub open spec fn contains_seq(h: Seq<u8>, n: Seq<u8>) -> bool {
    find_sub_from(h, n, 0) is Some
}

pub fn contains_bytes(h: &[u8], n: &[u8]) -> (r: bool)
    ensures
        r == contains_seq(h@, n@),
{
    find_sub(h, n, 0).is_some()
}

/// `s` with leading ASCII whitespace removed.
pub open spec fn trim_start_s(s: Seq<u8>) -> Seq<u8>
    decreases s.len(),
{
    if s.len() > 0 && is_ws(s[0]) {
        trim_start_s(s.skip(1))
    } else {
        s
    }
}

/// `s` with trailing ASCII whitespace removed.
pub open spec fn trim_end_s(s: Seq<u8>) -> Seq<u8>
    decreases s.len(),
{
    if s.len() > 0 && is_ws(s.last()) {
        trim_end_s(s.drop_last())
    } else {
        s
    }
}

/// `s` with whitespace removed from both ends.
pub open spec fn trim_s(s: Seq<u8>) -> Seq<u8> {
    trim_end_s(trim_start_s(s))
}

proof fn lemma_trim_start_skip(s: Seq<u8>, a: int)
    requires
        0 <= a <= s.len(),
        forall|j: int| 0 <= j < a ==> is_ws(s[j]),
        a == s.len() || !is_ws(s[a]),
    ensures
        trim_start_s(s) == s.skip(a),
    decreases a,
{
    if a == 0 {
        assert(s.skip(0) =~= s);
    } else {
        lemma_trim_start_skip(s.skip(1), a - 1);
        assert(s.skip(1).skip(a - 1) =~= s.skip(a));
    }
}

proof fn lemma_trim_end_take(s: Seq<u8>, b: int)
    requires
        0 <= b <= s.len(),
        forall|j: int| b <= j < s.len() ==> is_ws(s[j]),
        b == 0 || !is_ws(s[b - 1]),
    ensures
        trim_end_s(s) == s.take(b),
    decreases s.len() - b,
{
    if b == s.len() {
        assert(s.take(b) =~= s);
    } else {
        lemma_trim_end_take(s.drop_last(), b);
        assert(s.drop_last().take(b) =~= s.take(b));
    }
}

/// The trimmed view of `s`, as a subslice.
pub fn trim_bytes<'a>(s: &'a [u8]) -> (r: &'a [u8])
    ensures
        r@ == trim_s(s@),
{
    let mut a: usize = 0;
    while a < s.len() && is_ws_byte(s[a])
        invariant
            a <= s.len(),
            forall|j: int| 0 <= j < a ==> is_ws(s@[j]),
        decreases s.len() - a,
    {
        a = a + 1;
    }
    proof {
        lemma_trim_start_skip(s@, a as int);
    }
    let mut b: usize = s.len();
    while b > a && is_ws_byte(s[b - 1])
        invariant
            a <= b <= s.len(),
            forall|j: int| b <= j < s.len() ==> is_ws(s@[j]),
        decreases b,
    {
        b = b - 1;
    }
    proof {
        let t = s@.skip(a as int);
        if b == a {
            lemma_trim_end_take(t, 0);
        } else {
            lemma_trim_end_take(t, b - a);
        }
        assert(t.take(b - a) =~= s@.subrange(a as int, b as int));
    }
    vstd::slice::slice_subrange(s, a, b)
}

/// ASCII lower-casing of one byte.
pub open spec fn lower_b(b: u8) -> u8 {
    if 65 <= b <= 90 {
        (b + 32) as u8
    } else {
        b
    }
}

/// ASCII lower-casing of a byte sequence.
pub open spec fn lower_s(s: Seq<u8>) -> Seq<u8> {
    s.map_values(|b: u8| lower_b(b))
}

/// The ASCII lower-cased copy of `s`.
pub fn lower_bytes(s: &[u8]) -> (r: Vec<u8>)
    ensures
        r@ == lower_s(s@),
{
    let mut r: Vec<u8> = Vec::new();
    let mut i: usize = 0;
    while i < s.len()
        invariant
            i <= s.len(),
            r@ == lower_s(s@.take(i as int)),
        decreases s.len() - i,
    {
        let b = s[i];
        if 65 <= b && b <= 90 {
            r.push(b + 32);
        } else {
            r.push(b);
        }
        proof {
            assert(s@.take(i + 1) =~= s@.take(i as int).push(s@[i as int]));
            assert(lower_s(s@.take(i as int).push(s@[i as int])) =~= lower_s(
                s@.take(i as int),
            ).push(lower_b(s@[i as int])));
        }
        i = i + 1;
    }
    proof {
        assert(s@.take(s@.len() as int) =~= s@);
    }
    r
}

/// `s` starts with `p`.
pub open spec fn starts_with_s(s: Seq<u8>, p: Seq<u8>) -> bool {
    p.len() <= s.len() && s.take(p.len() as int) == p
}

pub fn starts_with_bytes(s: &[u8], p: &[u8]) -> (r: bool)
    ensures
        r == starts_with_s(s@, p@),
{
    if p.len() > s.len() {
        return false;
    }
    bytes_eq(vstd::slice::slice_subrange(s, 0, p.len()), p)
}

/// `s` ends with `p`.
pub open spec fn ends_with_s(s: Seq<u8>, p: Seq<u8>) -> bool {
    p.len() <= s.len() && s.skip(s.len() - p.len()) == p
}

pub fn ends_with_bytes(s: &[u8], p: &[u8]) -> (r: bool)
    ensures
        r == ends_with_s(s@, p@),
{
    if p.len() > s.len() {
        return false;
    }
    bytes_eq(vstd::slice::slice_subrange(s, s.len() - p.len(), s.len()), p)
}

/// `c` glued onto the front of the first piece (a new piece if there is none).
pub open spec fn prepend_first(c: u8, pieces: Seq<Seq<u8>>) -> Seq<Seq<u8>> {
    if pieces.len() == 0 {
        seq![seq![c]]
    } else {
        seq![seq![c] + pieces[0]] + pieces.drop_first()
    }
}

/// The pieces of `s` between occurrences of `sep`, one per occurrence plus a
/// final piece, as `str::split` yields them.
pub open spec fn split_all(s: Seq<u8>, sep: u8) -> Seq<Seq<u8>>
    decreases s.len(),
{
    if s.len() == 0 {
        seq![Seq::<u8>::empty()]
    } else if s[0] == sep {
        seq![Seq::<u8>::empty()] + split_all(s.skip(1), sep)
    } else {
        prepend_first(s[0], split_all(s.skip(1), sep))
    }
}

/// The pieces of `s` with `sep` as a terminator: a trailing empty piece is
/// dropped, as `str::split_terminator` does.
pub open spec fn split_term(s: Seq<u8>, sep: u8) -> Seq<Seq<u8>>
    decreases s.len(),
{
    if s.len() == 0 {
        Seq::<Seq<u8>>::empty()
    } else if s[0] == sep {
        seq![Seq::<u8>::empty()] + split_term(s.skip(1), sep)
    } else {
        prepend_first(s[0], split_term(s.skip(1), sep))
    }
}

proof fn lemma_split_all_piece(s: Seq<u8>, sep: u8, i: int, j: int)
    requires
        0 <= i <= j <= s.len(),
        forall|k: int| i <= k < j ==> s[k] != sep,
        j == s.len() || s[j] == sep,
    ensures
        j == s.len() ==> split_all(s.skip(i), sep) == seq![s.subrange(i, j)],
        j < s.len() ==> split_all(s.skip(i), sep) == seq![s.subrange(i, j)] + split_all(
            s.skip(j + 1),
            sep,
        ),
    decreases j - i,
{
    if i == j {
        assert(s.subrange(i, j) =~= Seq::<u8>::empty());
        if j == s.len() {
            assert(s.skip(i) =~= Seq::<u8>::empty());
            assert(split_all(s.skip(i), sep) =~~= seq![s.subrange(i, j)]);
        } else {
            assert(s.skip(i).len() > 0 && s.skip(i)[0] == sep);
            assert(s.skip(i).skip(1) =~= s.skip(j + 1));
            assert(split_all(s.skip(i), sep) =~~= seq![s.subrange(i, j)] + split_all(
                s.skip(j + 1),
                sep,
            ));
        }
    } else {
        lemma_split_all_piece(s, sep, i + 1, j);
        assert(s.skip(i).len() > 0 && s.skip(i)[0] == s[i] && s[i] != sep);
        assert(s.skip(i).skip(1) =~= s.skip(i + 1));
        let rest = split_all(s.skip(i + 1), sep);
        assert(rest.len() > 0);
        assert(seq![s[i]] + rest[0] =~= s.subrange(i, j));
        if j == s.len() {
            assert(prepend_first(s[i], rest) =~~= seq![s.subrange(i, j)]);
        } else {
            assert(rest.drop_first() =~~= split_all(s.skip(j + 1), sep));
            assert(prepend_first(s[i], rest) =~~= seq![s.subrange(i, j)] + split_all(
                s.skip(j + 1),
                sep,
            ));
        }
    }
}

proof fn lemma_split_term_piece(s: Seq<u8>, sep: u8, i: int, j: int)
    requires
        0 <= i <= j <= s.len(),
        forall|k: int| i <= k < j ==> s[k] != sep,
        j == s.len() || s[j] == sep,
    ensures
        j == s.len() && i == j ==> split_term(s.skip(i), sep) == Seq::<Seq<u8>>::empty(),
        j == s.len() && i < j ==> split_term(s.skip(i), sep) == seq![s.subrange(i, j)],
        j < s.len() ==> split_term(s.skip(i), sep) == seq![s.subrange(i, j)] + split_term(
            s.skip(j + 1),
            sep,
        ),
    decreases j - i,
{
    if i == j {
        assert(s.subrange(i, j) =~= Seq::<u8>::empty());
        if j == s.len() {
            assert(s.skip(i) =~= Seq::<u8>::empty());
        } else {
            assert(s.skip(i).len() > 0 && s.skip(i)[0] == sep);
            assert(s.skip(i).skip(1) =~= s.skip(j + 1));
            assert(split_term(s.skip(i), sep) =~~= seq![s.subrange(i, j)] + split_term(
                s.skip(j + 1),
                sep,
            ));
        }
    } else {
        lemma_split_term_piece(s, sep, i + 1, j);
        assert(s.skip(i).len() > 0 && s.skip(i)[0] == s[i] && s[i] != sep);
        assert(s.skip(i).skip(1) =~= s.skip(i + 1));
        let rest = split_term(s.skip(i + 1), sep);
        if j == s.len() && i + 1 == j {
            assert(s.skip(i + 1) =~= Seq::<u8>::empty());
            assert(s.subrange(i, j) =~= seq![s[i]]);
            assert(prepend_first(s[i], rest) =~~= seq![s.subrange(i, j)]);
        } else if j == s.len() {
            assert(rest.len() > 0);
            assert(seq![s[i]] + rest[0] =~= s.subrange(i, j));
            assert(rest.drop_first() =~~= Seq::<Seq<u8>>::empty());
            assert(prepend_first(s[i], rest) =~~= seq![s.subrange(i, j)]);
        } else {
            assert(rest.len() > 0);
            assert(seq![s[i]] + rest[0] =~= s.subrange(i, j));
            assert(rest.drop_first() =~~= split_term(s.skip(j + 1), sep));
            assert(prepend_first(s[i], rest) =~~= seq![s.subrange(i, j)] + split_term(
                s.skip(j + 1),
                sep,
            ));
        }
    }
}

/// The pieces of `s` split on `sep`; `term` selects terminator semantics.
fn split_bytes(s: &[u8], sep: u8, term: bool) -> (r: Vec<Vec<u8>>)
    ensures
        term ==> r.deep_view() == split_term(s@, sep),
        !term ==> r.deep_view() == split_all(s@, sep),
{
    let slen = s.len();
    let mut done: Vec<Vec<u8>> = Vec::new();
    let mut pos: usize = 0;
    proof {
        assert(s@.skip(0) =~= s@);
        assert(done.deep_view() + split_term(s@, sep) =~~= split_term(s@, sep));
        assert(done.deep_view() + split_all(s@, sep) =~~= split_all(s@, sep));
    }
    loop
        invariant
            pos <= slen,
            slen == s@.len(),
            term ==> split_term(s@, sep) == done.deep_view() + split_term(s@.skip(pos as int), sep),
            !term ==> split_all(s@, sep) == done.deep_view() + split_all(s@.skip(pos as int), sep),
        decreases slen - pos,
    {
        // find the next separator at or after pos
        let mut j: usize = pos;
        while j < slen && s[j] != sep
            invariant
                pos <= j <= slen,
                slen == s@.len(),
                forall|k: int| pos <= k < j ==> s@[k] != sep,
            decreases slen - j,
        {
            j = j + 1;
        }
        let piece = vstd::slice::slice_to_vec(vstd::slice::slice_subrange(s, pos, j));
        proof {
            lemma_split_all_piece(s@, sep, pos as int, j as int);
            lemma_split_term_piece(s@, sep, pos as int, j as int);
        }
        if j == slen {
            if !term || pos < j {
                let ghost old_done = done.deep_view();
                done.push(piece);
                proof {
                    assert(done.deep_view() =~~= old_done + seq![s@.subrange(pos as int, j as int)]);
                    if !term {
                        assert(split_all(s@, sep) =~~= done.deep_view());
                    } else {
                        assert(split_term(s@, sep) =~~= done.deep_view());
                    }
                }
            } else {
                proof {
                    assert(split_term(s@, sep) =~~= done.deep_view());
                }
            }
            return done;
        } else {
            let ghost old_done = done.deep_view();
            done.push(piece);
            proof {
                assert(done.deep_view() =~~= old_done + seq![s@.subrange(pos as int, j as int)]);
                if term {
                    assert(done.deep_view() + split_term(s@.skip(j + 1), sep) =~~= old_done + (seq![
                        s@.subrange(pos as int, j as int),
                    ] + split_term(s@.skip(j + 1), sep)));
                } else {
                    assert(done.deep_view() + split_all(s@.skip(j + 1), sep) =~~= old_done + (seq![
                        s@.subrange(pos as int, j as int),
                    ] + split_all(s@.skip(j + 1), sep)));
                }
            }
            pos = j + 1;
        }
    }
}

/// The pieces of `s` between occurrences of `sep` (`str::split`).
pub fn split_bytes_all(s: &[u8], sep: u8) -> (r: Vec<Vec<u8>>)
    ensures
        r.deep_view() == split_all(s@, sep),
{
    split_bytes(s, sep, false)
}

/// One line piece with a single trailing carriage return removed.
pub open spec fn strip_cr(l: Seq<u8>) -> Seq<u8> {
    if l.len() > 0 && l.last() == 13 {
        l.drop_last()
    } else {
        l
    }
}

/// The lines of `s`: pieces terminated by a line feed, each with a trailing
/// carriage return removed, as `str::lines` yields them.
pub open spec fn lines_of(s: Seq<u8>) -> Seq<Seq<u8>> {
    split_term(s, 10).map_values(|l: Seq<u8>| strip_cr(l))
}

/// The lines of `s`, as byte vectors.
pub fn split_lines(s: &[u8]) -> (r: Vec<Vec<u8>>)
    ensures
        r.deep_view() == lines_of(s@),
{
    let pieces = split_bytes(s, 10, true);
    let ghost pieces_v = split_term(s@, 10);
    let mut r: Vec<Vec<u8>> = Vec::new();
    let mut i: usize = 0;
    while i < pieces.len()
        invariant
            i <= pieces@.len(),
            pieces.deep_view() == pieces_v,
            r.deep_view() =~= pieces_v.take(i as int).map_values(|l: Seq<u8>| strip_cr(l)),
        decreases pieces@.len() - i,
    {
        let piece = &pieces[i];
        let plen = piece.len();
        let ghost old_r = r.deep_view();
        if plen > 0 && piece[plen - 1] == 13 {
            r.push(vstd::slice::slice_to_vec(vstd::slice::slice_subrange(piece.as_slice(), 0, plen
                - 1)));
            proof {
                assert(pieces_v[i as int].subrange(0, plen - 1) =~= strip_cr(pieces_v[i as int]));
            }
        } else {
            r.push(vstd::slice::slice_to_vec(piece.as_slice()));
        }
        proof {
            assert(r.deep_view() =~~= old_r + seq![strip_cr(pieces_v[i as int])]);
            assert(pieces_v.take(i + 1).map_values(|l: Seq<u8>| strip_cr(l)) =~~= old_r + seq![
                strip_cr(pieces_v[i as int]),
            ]);
        }
        i = i + 1;
    }
    proof {
        assert(pieces_v.take(pieces_v.len() as int) =~= pieces_v);
        assert(r.deep_view() =~~= lines_of(s@));
    }
    r
}

/// A line without line feeds followed by CRLF starts the line list of
/// whatever follows.
pub proof fn lemma_lines_cons(a: Seq<u8>, rest: Seq<u8>)
    requires
        forall|i: int| 0 <= i < a.len() ==> a[i] != 10,
    ensures
        lines_of(a + seq![13u8, 10u8] + rest) == seq![a] + lines_of(rest),
{
    let s = a + seq![13u8, 10u8] + rest;
    let j = a.len() as int + 1;
    assert(s[j] == 10);
    assert(forall|k: int| 0 <= k < j ==> s[k] != 10) by {
        assert(forall|k: int| 0 <= k < a.len() ==> s[k] == a[k]);
        assert(s[a.len() as int] == 13);
    }
    lemma_split_term_piece(s, 10, 0, j);
    assert(s.skip(0) =~= s);
    assert(s.skip(j + 1) =~= rest);
    assert(split_term(s, 10) == seq![s.subrange(0, j)] + split_term(rest, 10));
    assert(s.subrange(0, j) =~= a.push(13u8));
    assert(strip_cr(a.push(13u8)) =~= a);
    assert(lines_of(s) =~~= seq![a] + lines_of(rest));
}

/// A final line without line feeds, ended by nothing, is the whole line list.
pub proof fn lemma_lines_last(a: Seq<u8>)
    requires
        forall|i: int| 0 <= i < a.len() ==> a[i] != 10,
        forall|i: int| 0 <= i < a.len() ==> a[i] != 13,
    ensures
        a.len() == 0 ==> lines_of(a) == Seq::<Seq<u8>>::empty(),
        a.len() > 0 ==> lines_of(a) == seq![a],
{
    lemma_split_term_piece(a, 10, 0, a.len() as int);
    assert(a.skip(0) =~= a);
    if a.len() == 0 {
        assert(lines_of(a) =~~= Seq::<Seq<u8>>::empty());
    } else {
        assert(a.subrange(0, a.len() as int) =~= a);
        assert(strip_cr(a) == a);
        assert(lines_of(a) =~~= seq![a]);
    }
}

/// The hexadecimal numeral of `n` consists of digit bytes and reads back as
/// `n`.
pub proof fn lemma_hex_rep_value(n: int)
    requires
        n >= 0,
    ensures
        hex_rep(n).len() >= 1,
        digits_ok(hex_rep(n), 16),
        num_val(hex_rep(n), 16) == n,
        forall|i: int|
            0 <= i < hex_rep(n).len() ==> (48 <= #[trigger] hex_rep(n)[i] <= 57 || 97 <= hex_rep(
                n,
            )[i] <= 102),
    decreases n,
{
    if n < 16 {
        let h = hex_rep(n);
        assert(h == seq![hex_digit_byte(n)]);
        assert(h.drop_last() =~= Seq::<u8>::empty());
        assert(h.last() == hex_digit_byte(n));
        assert(num_val(h, 16) == num_val(h.drop_last(), 16) * 16 + digit_val(h.last()));
        assert(num_val(h.drop_last(), 16) == 0);
        assert(digit_val(hex_digit_byte(n)) == n);
    } else {
        lemma_hex_rep_value(n / 16);
        let h = hex_rep(n / 16).push(hex_digit_byte(n % 16));
        assert(h.drop_last() =~= hex_rep(n / 16));
        assert(h.last() == hex_digit_byte(n % 16));
        assert(num_val(h, 16) == num_val(hex_rep(n / 16), 16) * 16 + digit_val(
            hex_digit_byte(n % 16),
        ));
        assert(digit_val(hex_digit_byte(n % 16)) == n % 16);
        assert((n / 16) * 16 + n % 16 == n);
    }
}

/// The maximal runs of non-whitespace bytes in `s` (`str::split_whitespace`).
pub open spec fn tokens_of(s: Seq<u8>) -> Seq<Seq<u8>>
    decreases s.len(),
{
    if s.len() == 0 {
        Seq::<Seq<u8>>::empty()
    } else {
        let rest = tokens_of(s.skip(1));
        if is_ws(s[0]) {
            rest
        } else if s.len() >= 2 && !is_ws(s[1]) {
            seq![seq![s[0]] + rest[0]] + rest.drop_first()
        } else {
            seq![seq![s[0]]] + rest
        }
    }
}

pub proof fn lemma_tokens_run(s: Seq<u8>, i: int, j: int)
    requires
        0 <= i < j <= s.len(),
        forall|k: int| i <= k < j ==> !is_ws(s[k]),
        j == s.len() || is_ws(s[j]),
    ensures
        tokens_of(s.skip(i)) == seq![s.subrange(i, j)] + tokens_of(s.skip(j)),
    decreases j - i,
{
    assert(s.skip(i).len() > 0 && s.skip(i)[0] == s[i]);
    assert(s.skip(i).skip(1) =~= s.skip(i + 1));
    if i + 1 == j {
        assert(seq![s[i]] =~= s.subrange(i, j));
        if j == s.len() {
            assert(s.skip(i).len() == 1);
            assert(s.skip(j) =~= Seq::<u8>::empty());
            assert(tokens_of(s.skip(i)) =~~= seq![s.subrange(i, j)] + tokens_of(s.skip(j)));
        } else {
            assert(s.skip(i).len() >= 2 && s.skip(i)[1] == s[j] && is_ws(s[j]));
            assert(tokens_of(s.skip(i)) =~~= seq![s.subrange(i, j)] + tokens_of(s.skip(j)));
        }
    } else {
        lemma_tokens_run(s, i + 1, j);
        let rest = tokens_of(s.skip(i + 1));
        assert(rest == seq![s.subrange(i + 1, j)] + tokens_of(s.skip(j)));
        assert(rest.len() > 0 && rest[0] == s.subrange(i + 1, j));
        assert(s.skip(i).len() >= 2 && s.skip(i)[1] == s[i + 1] && !is_ws(s[i + 1]));
        assert(seq![s[i]] + rest[0] =~= s.subrange(i, j));
        assert(rest.drop_first() =~~= tokens_of(s.skip(j)));
        assert(tokens_of(s.skip(i)) =~~= seq![s.subrange(i, j)] + tokens_of(s.skip(j)));
    }
}

pub proof fn lemma_tokens_ws(s: Seq<u8>, i: int)
    requires
        0 <= i < s.len(),
        is_ws(s[i]),
    ensures
        tokens_of(s.skip(i)) == tokens_of(s.skip(i + 1)),
{
    assert(s.skip(i).len() > 0 && s.skip(i)[0] == s[i]);
    assert(s.skip(i).skip(1) =~= s.skip(i + 1));
}

/// The whitespace-separated tokens of `s`.
pub fn split_tokens(s: &[u8]) -> (r: Vec<Vec<u8>>)
    ensures
        r.deep_view() == tokens_of(s@),
{
    let slen = s.len();
    let mut done: Vec<Vec<u8>> = Vec::new();
    let mut i: usize = 0;
    proof {
        assert(s@.skip(0) =~= s@);
        assert(done.deep_view() + tokens_of(s@) =~~= tokens_of(s@));
    }
    while i < slen
        invariant
            i <= slen,
            slen == s@.len(),
            tokens_of(s@) == done.deep_view() + tokens_of(s@.skip(i as int)),
        decreases slen - i,
    {
        if is_ws_byte(s[i]) {
            proof {
                lemma_tokens_ws(s@, i as int);
            }
            i = i + 1;
        } else {
            let mut j: usize = i + 1;
            while j < slen && !is_ws_byte(s[j])
                invariant
                    i < j <= slen,
                    slen == s@.len(),
                    forall|k: int| i <= k < j ==> !is_ws(s@[k]),
                decreases slen - j,
            {
                j = j + 1;
            }
            proof {
                lemma_tokens_run(s@, i as int, j as int);
            }
            let ghost old_done = done.deep_view();
            done.push(vstd::slice::slice_to_vec(vstd::slice::slice_subrange(s, i, j)));
            proof {
                assert(done.deep_view() =~~= old_done + seq![s@.subrange(i as int, j as int)]);
                assert(done.deep_view() + tokens_of(s@.skip(j as int)) =~~= old_done + (seq![
                    s@.subrange(i as int, j as int),
                ] + tokens_of(s@.skip(j as int))));
            }
            i = j;
        }
    }
    proof {
        assert(s@.skip(i as int) =~= Seq::<u8>::empty());
        assert(done.deep_view() =~~= tokens_of(s@));
    }
    done
}

/// The lines joined back together with a line feed between each pair.
pub open spec fn join_lines(pieces: Seq<Seq<u8>>) -> Seq<u8>
    decreases pieces.len(),
{
    if pieces.len() == 0 {
        Seq::<u8>::empty()
    } else if pieces.len() == 1 {
        pieces[0]
    } else {
        pieces[0] + seq![10u8] + join_lines(pieces.drop_first())
    }
}

proof fn lemma_join_snoc(pieces: Seq<Seq<u8>>, x: Seq<u8>)
    ensures
        pieces.len() == 0 ==> join_lines(pieces.push(x)) == x,
        pieces.len() > 0 ==> join_lines(pieces.push(x)) == join_lines(pieces) + seq![10u8] + x,
    decreases pieces.len(),
{
    if pieces.len() == 0 {
        assert(join_lines(pieces.push(x)) == pieces.push(x)[0]);
        assert(pieces.push(x)[0] == x);
    } else {
        lemma_join_snoc(pieces.drop_first(), x);
        assert(pieces.push(x).drop_first() =~= pieces.drop_first().push(x));
        assert(pieces.push(x)[0] == pieces[0]);
        if pieces.len() == 1 {
            assert(join_lines(pieces.push(x)) == pieces[0] + seq![10u8] + x);
            assert(join_lines(pieces) == pieces[0]);
        } else {
            assert(join_lines(pieces) + seq![10u8] + x =~= pieces[0] + seq![10u8] + (join_lines(
                pieces.drop_first(),
            ) + seq![10u8] + x));
        }
    }
}

/// Joins a range of lines with line feeds, as `[..].join("\n")` does.
pub fn join_lines_from(lines: &Vec<Vec<u8>>, from: usize) -> (r: Vec<u8>)
    requires
        from <= lines@.len(),
    ensures
        r@ == join_lines(lines.deep_view().skip(from as int)),
{
    let mut r: Vec<u8> = Vec::new();
    let mut i: usize = from;
    while i < lines.len()
        invariant
            from <= i <= lines@.len(),
            r@ == join_lines(lines.deep_view().subrange(from as int, i as int)),
        decreases lines.len() - i,
    {
        if i > from {
            r.push(10);
        }
        let mut k: usize = 0;
        let ghost line = lines.deep_view()[i as int];
        let ghost mid = r@;
        while k < lines[i].len()
            invariant
                k <= line.len(),
                line == lines.deep_view()[i as int],
                i < lines@.len(),
                r@ == mid + line.take(k as int),
            decreases lines[i as int]@.len() - k,
        {
            r.push(lines[i][k]);
            proof {
                assert(mid + line.take(k + 1) =~= (mid + line.take(k as int)).push(line[k as int]));
            }
            k = k + 1;
        }
        proof {
            let pre = lines.deep_view().subrange(from as int, i as int);
            lemma_join_snoc(pre, line);
            assert(lines.deep_view().subrange(from as int, i + 1) =~= pre.push(line));
            assert(line.take(line.len() as int) =~= line);
            if i > from {
                assert(r@ =~= join_lines(pre.push(line)));
            } else {
                assert(mid =~= Seq::<u8>::empty());
                assert(r@ =~= join_lines(pre.push(line)));
            }
        }
        i = i + 1;
    }
    proof {
        assert(lines.deep_view().subrange(from as int, lines.deep_view().len() as int)
            =~= lines.deep_view().skip(from as int));
    }
    r
}

/// The strings are equal as character sequences.
pub fn str_eq(a: &str, b: &str) -> (r: bool)
    ensures
        r == (a@ == b@),
{
    let r = bytes_eq(a.as_bytes(), b.as_bytes());
    proof {
        if a.spec_bytes() == b.spec_bytes() {
            vstd::utf8::encode_utf8_decode_utf8(a@);
            vstd::utf8::encode_utf8_decode_utf8(b@);
        }
    }
    r
}

/// The first occurrence of `b` at or after `i` stands exactly where the
/// witness says.
pub proof fn lemma_find_from_at(s: Seq<u8>, b: u8, i: int, j: int)
    requires
        0 <= i <= j < s.len(),
        s[j] == b,
        forall|k: int| i <= k < j ==> s[k] != b,
    ensures
        find_from(s, b, i) == Some(j),
    decreases j - i,
{
    if i < j {
        lemma_find_from_at(s, b, i + 1, j);
    }
}

/// Trimming never lengthens a sequence, and a trimmed sequence is left
/// fixed by both one-sided trims.
pub proof fn lemma_trim_fixed(s: Seq<u8>)
    ensures
        trim_start_s(s).len() <= s.len(),
        trim_end_s(s).len() <= s.len(),
        trim_s(s) == s ==> trim_start_s(s) == s && trim_end_s(s) == s,
    decreases s.len(),
{
    if s.len() > 0 {
        lemma_trim_fixed(s.skip(1));
        lemma_trim_fixed(s.drop_last());
        if is_ws(s[0]) {
            lemma_trim_end_le(trim_start_s(s.skip(1)));
        }
    }
}

proof fn lemma_trim_end_le(s: Seq<u8>)
    ensures
        trim_end_s(s).len() <= s.len(),
    decreases s.len(),
{
    if s.len() > 0 && is_ws(s.last()) {
        lemma_trim_end_le(s.drop_last());
    }
}

/// A byte read as a character reads back as itself.
pub proof fn lemma_u8_char_roundtrip(b: u8)
    ensures
        (b as char) as u8 == b,
{
}

/// Reading bytes as characters loses nothing: equal readings come from
/// equal bytes.
pub proof fn lemma_latin1_injective(a: Seq<u8>, b: Seq<u8>)
    requires
        latin1(a) == latin1(b),
    ensures
        a == b,
{
    assert(latin1(a).len() == a.len());
    assert(latin1(b).len() == b.len());
    assert(a =~= b) by {
        assert forall|i: int| 0 <= i < a.len() implies a[i] == b[i] by {
            lemma_u8_char_roundtrip(a[i]);
            lemma_u8_char_roundtrip(b[i]);
            assert(latin1(a)[i] == (a[i] as char));
            assert(latin1(b)[i] == (b[i] as char));
        }
    }
}

/// A non-empty stream has at least one line.
pub proof fn lemma_lines_nonempty(s: Seq<u8>)
    requires
        s.len() > 0,
    ensures
        lines_of(s).len() >= 1,
{
    assert(split_term(s, 10).len() >= 1);
}

/// Joining the lines of a stream that holds no carriage return and does
/// not end in a line feed restores the stream.
pub proof fn lemma_join_lines_inverse(b: Seq<u8>)
    requires
        forall|i: int| 0 <= i < b.len() ==> b[i] != 13,
        b.len() == 0 || b.last() != 10,
    ensures
        join_lines(lines_of(b)) == b,
    decreases b.len(),
{
    lemma_find_from_bounds(b, 10, 0);
    match find_from(b, 10, 0) {
        None => {
            lemma_lines_last(b);
            if b.len() == 0 {
                assert(join_lines(lines_of(b)) =~= b);
            }
        },
        Some(j) => {
            let head = b.take(j);
            let rest = b.skip(j + 1);
            assert(b =~= head + seq![13u8, 10u8].skip(1) + rest) by {
                assert(seq![13u8, 10u8].skip(1) =~= seq![10u8]);
            }
            assert(b =~= head + seq![10u8] + rest);
            // a line ended by a bare line feed splits the same way
            lemma_split_term_piece(b, 10, 0, j);
            assert(b.skip(0) =~= b);
            assert(split_term(b, 10) == seq![b.subrange(0, j)] + split_term(rest, 10));
            assert(b.subrange(0, j) == head);
            assert(strip_cr(head) == head) by {
                if head.len() > 0 {
                    assert(head.last() == b[j - 1]);
                }
            }
            assert(lines_of(b) =~~= seq![head] + lines_of(rest));
            assert(rest.len() > 0) by {
                if j + 1 == b.len() {
                    assert(b.last() == 10);
                }
            }
            assert(forall|i: int| 0 <= i < rest.len() ==> rest[i] == b[j + 1 + i]);
            assert(rest.last() == b.last());
            lemma_join_lines_inverse(rest);
            lemma_lines_nonempty(rest);
            let lr = lines_of(rest);
            assert(join_lines(seq![head] + lr) == head + seq![10u8] + join_lines(lr)) by {
                assert((seq![head] + lr).len() >= 2);
                assert((seq![head] + lr)[0] == head);
                assert((seq![head] + lr).drop_first() =~= lr);
            }
            assert(head + seq![10u8] + rest =~= b);
        },
    }
}

/// Value of a digit byte, reading `0-9`, `a-f` and `A-F`; 99 otherwise.
pub open spec fn digit_val(b: u8) -> int {
    if 48 <= b <= 57 {
        b - 48
    } else if 97 <= b <= 102 {
        b - 87
    } else if 65 <= b <= 70 {
        b - 55
    } else {
        99
    }
}

pub fn digit_value(b: u8) -> (r: u8)
    ensures
        r == digit_val(b),
{
    if 48 <= b && b <= 57 {
        b - 48
    } else if 97 <= b && b <= 102 {
        b - 87
    } else if 65 <= b && b <= 70 {
        b - 55
    } else {
        99
    }
}

/// The number the digit bytes denote in the given radix.
pub open spec fn num_val(s: Seq<u8>, radix: int) -> int
    decreases s.len(),
{
    if s.len() == 0 {
        0
    } else {
        num_val(s.drop_last(), radix) * radix + digit_val(s.last())
    }
}

/// Every byte of `s` is a digit of the radix, and there is at least one.
pub open spec fn digits_ok(s: Seq<u8>, radix: int) -> bool {
    s.len() > 0 && forall|k: int| 0 <= k < s.len() ==> digit_val(#[trigger] s[k]) < radix
}

/// A single leading plus sign removed, as `from_str_radix` accepts one.
pub open spec fn strip_plus(s: Seq<u8>) -> Seq<u8> {
    if s.len() > 0 && s[0] == 43 {
        s.skip(1)
    } else {
        s
    }
}

/// What `from_str_radix` yields on `s` for an unsigned type with the given
/// maximum: the denoted number, unless a byte is no digit or the number
/// overflows.
pub open spec fn parse_uint_s(s: Seq<u8>, radix: int, max: int) -> Option<int> {
    let t = strip_plus(s);
    if digits_ok(t, radix) && num_val(t, radix) <= max {
        Some(num_val(t, radix))
    } else {
        None
    }
}

proof fn lemma_num_val_nonneg(s: Seq<u8>, radix: int)
    requires
        radix >= 0,
    ensures
        num_val(s, radix) >= 0,
    decreases s.len(),
{
    if s.len() > 0 {
        lemma_num_val_nonneg(s.drop_last(), radix);
        assert(num_val(s.drop_last(), radix) * radix >= 0) by (nonlinear_arith)
            requires
                num_val(s.drop_last(), radix) >= 0,
                radix >= 0,
        ;
    }
}

proof fn lemma_num_val_prefix(s: Seq<u8>, radix: int, k: int)
    requires
        radix >= 1,
        0 <= k <= s.len(),
    ensures
        num_val(s.take(k), radix) <= num_val(s, radix),
    decreases s.len() - k,
{
    if k < s.len() {
        lemma_num_val_prefix(s.drop_last(), radix, k);
        assert(s.drop_last().take(k) =~= s.take(k));
        lemma_num_val_nonneg(s.drop_last(), radix);
        assert(num_val(s.drop_last(), radix) * radix >= num_val(s.drop_last(), radix))
            by (nonlinear_arith)
            requires
                num_val(s.drop_last(), radix) >= 0,
                radix >= 1,
        ;
    } else {
        assert(s.take(k) =~= s);
    }
}

/// Parses an unsigned number as `from_str_radix` does, bounded by `max`.
pub fn parse_uint(s: &[u8], radix: usize, max: usize) -> (r: Option<usize>)
    requires
        2 <= radix <= 16,
    ensures
        match r {
            Some(v) => parse_uint_s(s@, radix as int, max as int) == Some(v as int) && v <= max,
            None => parse_uint_s(s@, radix as int, max as int) is None,
        },
{
    let start: usize = if s.len() > 0 && s[0] == 43 {
        1
    } else {
        0
    };
    let ghost t = strip_plus(s@);
    proof {
        assert(t =~= s@.skip(start as int));
    }
    if s.len() == start {
        return None;
    }
    let mut acc: usize = 0;
    let mut i: usize = start;
    while i < s.len()
        invariant
            2 <= radix <= 16,
            start <= i <= s@.len(),
            t == strip_plus(s@),
            t == s@.skip(start as int),
            acc <= max,
            acc == num_val(t.take(i - start), radix as int),
            forall|k: int| 0 <= k < i - start ==> digit_val(#[trigger] t[k]) < radix,
        decreases s@.len() - i,
    {
        let d = digit_value(s[i]);
        if d as usize >= radix {
            proof {
                assert(t[i - start] == s@[i as int]);
                assert(!digits_ok(t, radix as int));
                assert(parse_uint_s(s@, radix as int, max as int) is None);
            }
            return None;
        }
        proof {
            assert(t[i - start] == s@[i as int]);
        }
        if (d as usize) > max || acc > (max - d as usize) / radix {
            proof {
                let j = i - start + 1;
                assert(t.take(j) =~= t.take(j - 1).push(t[j - 1]));
                assert(t.take(j).drop_last() =~= t.take(j - 1));
                assert(t.take(j).last() == t[j - 1]);
                assert(num_val(t.take(j), radix as int) == acc * radix + digit_val(t[j - 1]));
                assert(acc * radix + d > max) by (nonlinear_arith)
                    requires
                        radix >= 2,
                        acc >= 0,
                        d >= 0,
                        d > max || acc > (max as int - d as int) / (radix as int),
                        max >= 0,
                ;
                if digits_ok(t, radix as int) {
                    lemma_num_val_prefix(t, radix as int, j);
                }
            }
            return None;
        }
        proof {
            assert(acc * radix <= max && acc * radix + (d as usize) <= max) by (nonlinear_arith)
                requires
                    radix >= 2,
                    acc >= 0,
                    0 <= d <= max,
                    acc <= (max as int - d as int) / (radix as int),
                    max >= 0,
            ;
        }
        let new_acc = acc * radix + d as usize;
        proof {
            let j = i - start + 1;
            assert(t.take(j) =~= t.take(j - 1).push(t[j - 1]));
            assert(t.take(j).drop_last() =~= t.take(j - 1));
            assert(t.take(j).last() == t[j - 1]);
        }
        acc = new_acc;
        i = i + 1;
    }
    proof {
        assert(t.take(s@.len() - start) =~= t);
    }
    Some(acc)
}

/// The decimal numeral for `n`, most significant digit first.
pub open spec fn dec_rep(n: int) -> Seq<u8>
    decreases n when n >= 0
{
    if n < 10 {
        seq![(48 + n) as u8]
    } else {
        dec_rep(n / 10).push((48 + n % 10) as u8)
    }
}

/// The lower-case hexadecimal numeral for `n`, as `format!("{:x}")` writes it.
pub open spec fn hex_digit_byte(d: int) -> u8 {
    if d < 10 {
        (48 + d) as u8
    } else {
        (87 + d) as u8
    }
}

pub open spec fn hex_rep(n: int) -> Seq<u8>
    decreases n when n >= 0
{
    if n < 16 {
        seq![hex_digit_byte(n)]
    } else {
        hex_rep(n / 16).push(hex_digit_byte(n % 16))
    }
}

/// Appends the decimal numeral for `n`.
pub fn push_dec(out: &mut Vec<u8>, n: usize)
    ensures
        final(out)@ == old(out)@ + dec_rep(n as int),
    decreases n,
{
    if n < 10 {
        out.push(48 + n as u8);
        proof {
            assert(out@ =~= old(out)@ + dec_rep(n as int));
        }
    } else {
        push_dec(out, n / 10);
        out.push(48 + (n % 10) as u8);
        proof {
            assert(out@ =~= old(out)@ + dec_rep(n as int));
        }
    }
}

/// Appends the hexadecimal numeral for `n`.
pub fn push_hex(out: &mut Vec<u8>, n: usize)
    ensures
        final(out)@ == old(out)@ + hex_rep(n as int),
    decreases n,
{
    if n < 16 {
        let d: u8 = if n < 10 {
            48 + n as u8
        } else {
            87 + n as u8
        };
        out.push(d);
        proof {
            assert(out@ =~= old(out)@ + hex_rep(n as int));
        }
    } else {
        push_hex(out, n / 16);
        let m = n % 16;
        let d: u8 = if m < 10 {
            48 + m as u8
        } else {
            87 + m as u8
        };
        out.push(d);
        proof {
            assert(out@ =~= old(out)@ + hex_rep(n as int));
        }
    }
}

/// The decimal numeral for `n` as a string.
pub fn dec_string(n: usize) -> (r: String)
    ensures
        r@ == latin1(dec_rep(n as int)),
{
    let mut out: Vec<u8> = Vec::new();
    push_dec(&mut out, n);
    proof {
        assert(out@ =~= dec_rep(n as int));
    }
    bytes_to_string(out.as_slice())
}

} // verus!
