//! Canonicalization of headers and bodies (RFC 6376 section 3.4), as the
//! signer and the verifier must both compute it.
use crate::strings::{
    chars_of, from_utf8_lossy, lossy_text, lower_text, lowercase_chars, string_of,
};
use crate::text::{
    drop_empty, drop_empty_parts, extend_chars, is_delim, is_ws, join, join_chars,
    lemma_drop_empty, lemma_split_by_append, lemma_split_by_chars, lemma_split_by_nonempty,
    lemma_split_by_push_delim, lemma_trim_end, remove_delims, split_by, split_chars, trim_end,
    trim_end_chars, words, Delim,
};
use vstd::prelude::*;
use vstd::utf8::encode_utf8;

verus! {

/// The line terminator `\r\n` as bytes.
pub open spec fn crlf() -> Seq<u8> {
    seq![13u8, 10u8]
}

pub open spec fn ends_with_crlf(b: Seq<u8>) -> bool {
    b.len() >= 2 && b[b.len() - 2] == 13u8 && b[b.len() - 1] == 10u8
}

pub open spec fn ends_with_two_crlf(b: Seq<u8>) -> bool {
    b.len() >= 4 && ends_with_crlf(b) && ends_with_crlf(b.take(b.len() - 2))
}

/// The body without the empty lines at its end (a final `\r\n` stays).
pub open spec fn strip_trailing_empty_lines(b: Seq<u8>) -> Seq<u8>
    decreases b.len(),
{
    if ends_with_two_crlf(b) {
        strip_trailing_empty_lines(b.take(b.len() - 2))
    } else {
        b
    }
}

/// The "simple" body canonicalization.
pub open spec fn simple_body(b: Seq<u8>) -> Seq<u8> {
    let t = strip_trailing_empty_lines(b);
    if t.len() == 0 {
        crlf()
    } else if ends_with_crlf(t) {
        t
    } else {
        t + crlf()
    }
}

/// Appends the first `n` bytes of `b`.
pub fn extend_bytes_prefix(a: &mut Vec<u8>, b: &[u8], n: usize)
    requires
        n <= b.len(),
    ensures
        final(a)@ == old(a)@ + b@.take(n as int),
{
    let ghost a0 = a@;
    let mut i: usize = 0;
    while i < n
        invariant
            i <= n <= b.len(),
            a@ == a0 + b@.take(i as int),
        decreases n - i,
    {
        a.push(b[i]);
        i = i + 1;
        assert(a@ == a0 + b@.take(i as int));
    }
}

/// Appends bytes.
pub fn extend_bytes(a: &mut Vec<u8>, b: &[u8])
    ensures
        final(a)@ == old(a)@ + b@,
{
    extend_bytes_prefix(a, b, b.len());
    assert(b@.take(b.len() as int) == b@);
}

fn push_crlf(a: &mut Vec<u8>)
    ensures
        final(a)@ == old(a)@ + crlf(),
{
    a.push(13u8);
    a.push(10u8);
}

/// "Simple" body canonicalization: trailing empty lines are removed, the body
/// ends with `\r\n`, and an empty body becomes a single `\r\n`.
pub fn canonicalize_body_simple(body: &[u8]) -> (r: Vec<u8>)
    ensures
        r@ == simple_body(body@),
{
    let mut k: usize = body.len();
    assert(body@.take(k as int) == body@);
    while k >= 4 && body[k - 1] == 10u8 && body[k - 2] == 13u8 && body[k - 3] == 10u8 && body[k
        - 4] == 13u8
        invariant
            k <= body.len(),
            strip_trailing_empty_lines(body@) == strip_trailing_empty_lines(body@.take(k as int)),
        decreases k,
    {
        let ghost t = body@.take(k as int);
        assert(t.take(t.len() - 2) == body@.take(k - 2));
        assert(ends_with_two_crlf(t));
        k = k - 2;
    }
    let ghost t = body@.take(k as int);
    assert(!ends_with_two_crlf(t));
    let mut result: Vec<u8> = Vec::new();
    extend_bytes_prefix(&mut result, body, k);
    assert(result@ == t);
    if result.len() > 0 && !(result.len() >= 2 && result[result.len() - 2] == 13u8 && result[
        result.len() - 1] == 10u8) {
        push_crlf(&mut result);
    }
    if result.len() == 0 {
        push_crlf(&mut result);
    }
    result
}

proof fn lemma_strip_trailing_empty_lines(b: Seq<u8>)
    ensures
        !ends_with_two_crlf(strip_trailing_empty_lines(b)),
    decreases b.len(),
{
    if ends_with_two_crlf(b) {
        lemma_strip_trailing_empty_lines(b.take(b.len() - 2));
    }
}

/// The "simple" body canonicalization always ends with `\r\n`, and applying it
/// to its own output changes nothing.
pub proof fn lemma_simple_body_canonical(b: Seq<u8>)
    ensures
        ends_with_crlf(simple_body(b)),
        simple_body(simple_body(b)) == simple_body(b),
{
    let t = strip_trailing_empty_lines(b);
    lemma_strip_trailing_empty_lines(b);
    let c = simple_body(b);
    if t.len() == 0 {
        assert(!ends_with_two_crlf(crlf()));
    } else if ends_with_crlf(t) {
    } else {
        assert(c.take(c.len() - 2) == t);
        assert(!ends_with_two_crlf(c));
    }
}

/// A line without a final `\r`.
pub open spec fn strip_cr(l: Seq<char>) -> Seq<char> {
    if l.len() > 0 && l.last() == '\r' {
        l.drop_last()
    } else {
        l
    }
}

/// `str::lines`: lines end at `\n` or `\r\n`; a final line ending is optional.
pub open spec fn text_lines(s: Seq<char>) -> Seq<Seq<char>> {
    let p = split_by(s, Delim::Char('\n'));
    let terminated = p.drop_last().map_values(|l: Seq<char>| strip_cr(l));
    if p.last().len() == 0 {
        terminated
    } else {
        terminated.push(p.last())
    }
}

/// A space or a horizontal tab (WSP).
pub open spec fn is_wsp(c: char) -> bool {
    c == ' ' || c == '\t'
}

/// The line with each run of spaces and tabs replaced by one space.
pub open spec fn compress_wsp(s: Seq<char>) -> Seq<char>
    decreases s.len(),
{
    if s.len() == 0 {
        s
    } else {
        let r = compress_wsp(s.drop_last());
        if is_wsp(s.last()) {
            if r.len() > 0 && r.last() == ' ' {
                r
            } else {
                r.push(' ')
            }
        } else {
            r.push(s.last())
        }
    }
}

/// A body line under "relaxed" canonicalization: each run of spaces and tabs
/// becomes one space, and trailing whitespace goes.
pub open spec fn relaxed_line(l: Seq<char>) -> Seq<char> {
    trim_end(compress_wsp(l))
}

/// The lines without the empty lines at the end.
pub open spec fn drop_trailing_empty(ls: Seq<Seq<char>>) -> Seq<Seq<char>>
    decreases ls.len(),
{
    if ls.len() > 0 && ls.last().len() == 0 {
        drop_trailing_empty(ls.drop_last())
    } else {
        ls
    }
}

/// The UTF-8 encoding of each line followed by `\r\n`.
pub open spec fn lines_bytes(ls: Seq<Seq<char>>) -> Seq<u8>
    decreases ls.len(),
{
    if ls.len() == 0 {
        Seq::empty()
    } else {
        lines_bytes(ls.drop_last()) + encode_utf8(ls.last()) + crlf()
    }
}

/// The lines of a body under "relaxed" canonicalization.
pub open spec fn relaxed_lines(b: Seq<u8>) -> Seq<Seq<char>> {
    drop_trailing_empty(text_lines(lossy_text(b)).map_values(|l: Seq<char>| relaxed_line(l)))
}

/// The "relaxed" body canonicalization.
pub open spec fn relaxed_body(b: Seq<u8>) -> Seq<u8> {
    let ls = relaxed_lines(b);
    if ls.len() == 0 {
        crlf()
    } else {
        lines_bytes(ls)
    }
}

fn strip_cr_chars(l: Vec<char>) -> (r: Vec<char>)
    ensures
        r@ == strip_cr(l@),
{
    let mut l = l;
    if l.len() > 0 && l[l.len() - 1] == '\r' {
        l.pop();
    }
    l
}

/// `text_lines` as vectors.
pub fn lines_of(s: &[char]) -> (r: Vec<Vec<char>>)
    ensures
        r@.map_values(|v: Vec<char>| v@) == text_lines(s@),
{
    let pieces = split_chars(s, Delim::Char('\n'));
    let ghost p = pieces@.map_values(|v: Vec<char>| v@);
    proof {
        crate::text::lemma_split_by_nonempty(s@, Delim::Char('\n'));
    }
    let n = pieces.len();
    let mut r: Vec<Vec<char>> = Vec::new();
    let mut i: usize = 0;
    while i + 1 < n
        invariant
            n == pieces.len(),
            n >= 1,
            i < n,
            r.len() == i,
            p == pieces@.map_values(|v: Vec<char>| v@),
            r@.map_values(|v: Vec<char>| v@) == p.take(i as int).map_values(
                |l: Seq<char>| strip_cr(l),
            ),
        decreases n - i,
    {
        assert(p[i as int] == pieces@[i as int]@);
        let l = crate::text::copy_chars(&pieces[i]);
        let l = strip_cr_chars(l);
        let ghost lv = l@;
        let ghost prev = r@;
        r.push(l);
        assert(r@ == prev.push(r@[i as int]));
        assert(r@[i as int]@ == lv);
        assert(lv == strip_cr(p.take(i + 1)[i as int]));
        let ghost rm = r@.map_values(|v: Vec<char>| v@);
        let ghost pm = p.take(i + 1).map_values(|l: Seq<char>| strip_cr(l));
        let ghost qm = prev.map_values(|v: Vec<char>| v@);
        let ghost om = p.take(i as int).map_values(|l: Seq<char>| strip_cr(l));
        assert forall|j: int| 0 <= j < i + 1 implies #[trigger] rm[j] == pm[j] by {
            if j < i {
                assert(p.take(i + 1)[j] == p.take(i as int)[j]);
                assert(qm[j] == om[j]);
            }
        }
        assert(rm =~= pm);
        i = i + 1;
        assert(r@.map_values(|v: Vec<char>| v@) =~= p.take(i as int).map_values(
            |l: Seq<char>| strip_cr(l),
        ));
    }
    assert(p.take(i as int) == p.drop_last());
    if pieces[n - 1].len() > 0 {
        assert(p.last() == pieces@[n - 1]@);
        let last = crate::text::copy_chars(&pieces[n - 1]);
        r.push(last);
        assert(r@.map_values(|v: Vec<char>| v@) =~= p.drop_last().map_values(
            |l: Seq<char>| strip_cr(l),
        ).push(p.last()));
    }
    r
}

/// `relaxed_line` on a vector.
pub fn relaxed_line_chars(l: &[char]) -> (r: Vec<char>)
    ensures
        r@ == relaxed_line(l@),
{
    let mut out: Vec<char> = Vec::new();
    let mut i: usize = 0;
    assert(l@.take(0) == Seq::<char>::empty());
    while i < l.len()
        invariant
            i <= l.len(),
            out@ == compress_wsp(l@.take(i as int)),
        decreases l.len() - i,
    {
        assert(l@.take(i + 1).drop_last() == l@.take(i as int));
        let c = l[i];
        if c == ' ' || c == '\t' {
            if !(out.len() > 0 && out[out.len() - 1] == ' ') {
                out.push(' ');
            }
        } else {
            out.push(c);
        }
        i = i + 1;
    }
    assert(l@.take(l.len() as int) == l@);
    trim_end_chars(&out)
}

/// "Relaxed" body canonicalization: the body is read as text, each line has its
/// whitespace runs compressed and its trailing whitespace removed, empty lines
/// at the end are removed, lines end with `\r\n`, and an empty body becomes a
/// single `\r\n`.
pub fn canonicalize_body_relaxed(body: &[u8]) -> (r: Vec<u8>)
    ensures
        r@ == relaxed_body(body@),
{
    let text = from_utf8_lossy(body);
    let chars = chars_of(text.as_str());
    let lines = lines_of(&chars);
    let ghost lv = lines@.map_values(|v: Vec<char>| v@);
    let ghost mapped = lv.map_values(|l: Seq<char>| relaxed_line(l));
    let mut out_lines: Vec<Vec<char>> = Vec::new();
    let mut i: usize = 0;
    while i < lines.len()
        invariant
            i <= lines.len(),
            lv == lines@.map_values(|v: Vec<char>| v@),
            mapped == lv.map_values(|l: Seq<char>| relaxed_line(l)),
            out_lines.len() == i,
            out_lines@.map_values(|v: Vec<char>| v@) == mapped.take(i as int),
        decreases lines.len() - i,
    {
        assert(lv[i as int] == lines@[i as int]@);
        let rl = relaxed_line_chars(&lines[i]);
        let ghost rv = rl@;
        let ghost prev = out_lines@;
        out_lines.push(rl);
        assert(out_lines@ == prev.push(out_lines@[i as int]));
        assert(out_lines@[i as int]@ == rv);
        assert(rv == mapped.take(i + 1)[i as int]);
        i = i + 1;
        assert(out_lines@.map_values(|v: Vec<char>| v@) =~= mapped.take(i as int));
    }
    assert(mapped.take(i as int) == mapped);
    let mut n = out_lines.len();
    assert(out_lines@.map_values(|v: Vec<char>| v@).take(n as int) == mapped);
    while n > 0 && out_lines[n - 1].len() == 0
        invariant
            n <= out_lines.len(),
            out_lines@.map_values(|v: Vec<char>| v@) == mapped,
            drop_trailing_empty(mapped) == drop_trailing_empty(mapped.take(n as int)),
        decreases n,
    {
        assert(mapped.take(n as int).drop_last() == mapped.take(n - 1));
        n = n - 1;
    }
    let ghost ls = mapped.take(n as int);
    assert(drop_trailing_empty(ls) == ls);
    let mut result: Vec<u8> = Vec::new();
    let mut j: usize = 0;
    while j < n
        invariant
            j <= n <= out_lines.len(),
            out_lines@.map_values(|v: Vec<char>| v@) == mapped,
            ls == mapped.take(n as int),
            result@ == lines_bytes(ls.take(j as int)),
        decreases n - j,
    {
        assert(ls.take(j + 1).drop_last() == ls.take(j as int));
        let s = string_of(&out_lines[j]);
        extend_bytes(&mut result, s.as_str().as_bytes());
        push_crlf(&mut result);
        j = j + 1;
    }
    assert(ls.take(n as int) == ls);
    if n == 0 {
        push_crlf(&mut result);
    }
    result
}

/// Two spaces in a row at `i`.
pub open spec fn space_pair_at(r: Seq<char>, i: int) -> bool {
    r[i] == ' ' && r[i + 1] == ' '
}

/// The shape of a relaxed line: no tab, no two spaces in a row, and no
/// whitespace at the end.
pub open spec fn relaxed_form(r: Seq<char>) -> bool {
    &&& forall|i: int| 0 <= i < r.len() ==> #[trigger] r[i] != '\t'
    &&& forall|i: int| 0 <= i < r.len() - 1 ==> !#[trigger] space_pair_at(r, i)
    &&& r.len() > 0 ==> !is_ws(r.last())
}

/// Compressing leaves no tab and no two spaces in a row, and every character
/// of the result satisfies what a space and every character of the line satisfy.
proof fn lemma_compress_wsp_shape(s: Seq<char>, p: spec_fn(char) -> bool)
    requires
        p(' '),
        forall|i: int| 0 <= i < s.len() ==> p(#[trigger] s[i]),
    ensures
        ({
            let r = compress_wsp(s);
            &&& forall|i: int| 0 <= i < r.len() ==> #[trigger] r[i] != '\t' && p(r[i])
            &&& forall|i: int| 0 <= i < r.len() - 1 ==> !#[trigger] space_pair_at(r, i)
        }),
    decreases s.len(),
{
    if s.len() > 0 {
        let t = s.drop_last();
        assert forall|i: int| 0 <= i < t.len() implies p(#[trigger] t[i]) by {
            assert(t[i] == s[i]);
        }
        lemma_compress_wsp_shape(t, p);
        let r = compress_wsp(t);
        let n = compress_wsp(s);
        assert(p(s[s.len() - 1]));
        assert forall|i: int| 0 <= i < n.len() implies #[trigger] n[i] != '\t' && p(n[i]) by {
            if i < r.len() {
                assert(n[i] == r[i]);
            }
        }
        assert forall|i: int| 0 <= i < n.len() - 1 implies !#[trigger] space_pair_at(n, i) by {
            if i < r.len() - 1 {
                assert(n[i] == r[i] && n[i + 1] == r[i + 1]);
                assert(!space_pair_at(r, i));
            } else if i == r.len() - 1 {
                assert(n[i] == r.last());
            }
        }
    }
}

/// A relaxed line has the relaxed shape, and holds only characters of the
/// line and spaces.
pub proof fn lemma_relaxed_line_form(l: Seq<char>)
    ensures
        relaxed_form(relaxed_line(l)),
{
    lemma_relaxed_line_chars(l, |c: char| true);
}

proof fn lemma_relaxed_line_chars(l: Seq<char>, p: spec_fn(char) -> bool)
    requires
        p(' '),
        forall|i: int| 0 <= i < l.len() ==> p(#[trigger] l[i]),
    ensures
        relaxed_form(relaxed_line(l)),
        forall|i: int| 0 <= i < relaxed_line(l).len() ==> p(#[trigger] relaxed_line(l)[i]),
{
    let c = compress_wsp(l);
    lemma_compress_wsp_shape(l, p);
    lemma_trim_end(c);
    let r = trim_end(c);
    assert forall|i: int| 0 <= i < r.len() implies #[trigger] r[i] != '\t' && p(r[i]) by {
        assert(r[i] == c[i]);
    }
    assert forall|i: int| 0 <= i < r.len() - 1 implies !#[trigger] space_pair_at(r, i) by {
        assert(r[i] == c[i] && r[i + 1] == c[i + 1]);
        assert(!space_pair_at(c, i));
    }
}

/// Compressing a line with no tab and no two spaces in a row changes nothing.
proof fn lemma_compress_wsp_fixed(s: Seq<char>)
    requires
        forall|i: int| 0 <= i < s.len() ==> #[trigger] s[i] != '\t',
        forall|i: int| 0 <= i < s.len() - 1 ==> !#[trigger] space_pair_at(s, i),
    ensures
        compress_wsp(s) == s,
    decreases s.len(),
{
    if s.len() > 0 {
        let t = s.drop_last();
        assert forall|i: int| 0 <= i < t.len() implies #[trigger] t[i] != '\t' by {
            assert(t[i] == s[i]);
        }
        assert forall|i: int| 0 <= i < t.len() - 1 implies !#[trigger] space_pair_at(t, i) by {
            assert(t[i] == s[i] && t[i + 1] == s[i + 1]);
            assert(!space_pair_at(s, i));
        }
        lemma_compress_wsp_fixed(t);
        assert(s[s.len() - 1] != '\t');
        if s.last() == ' ' && t.len() > 0 {
            assert(!space_pair_at(s, s.len() - 2));
            assert(t.last() == s[s.len() - 2]);
        }
        assert(t.push(s.last()) == s);
    }
}

/// A line of the relaxed shape is its own relaxed canonicalization.
pub proof fn lemma_relaxed_form_fixed(r: Seq<char>)
    requires
        relaxed_form(r),
    ensures
        relaxed_line(r) == r,
{
    lemma_compress_wsp_fixed(r);
}

/// Relaxed line canonicalization applied twice is applied once.
pub proof fn lemma_relaxed_line_idempotent(l: Seq<char>)
    ensures
        relaxed_line(relaxed_line(l)) == relaxed_line(l),
{
    lemma_relaxed_line_form(l);
    lemma_relaxed_form_fixed(relaxed_line(l));
}

/// A relaxed line holds no line feed when the line holds none.
proof fn lemma_relaxed_line_no_lf(l: Seq<char>)
    requires
        forall|i: int| 0 <= i < l.len() ==> #[trigger] l[i] != '\n',
    ensures
        forall|i: int| 0 <= i < relaxed_line(l).len() ==> #[trigger] relaxed_line(l)[i] != '\n',
{
    lemma_relaxed_line_chars(l, |c: char| c != '\n');
}

/// The lines, each followed by `\r\n`, as text.
pub open spec fn lines_text(ls: Seq<Seq<char>>) -> Seq<char>
    decreases ls.len(),
{
    if ls.len() == 0 {
        Seq::empty()
    } else {
        lines_text(ls.drop_last()) + ls.last() + seq!['\r', '\n']
    }
}

proof fn lemma_encode_concat(a: Seq<char>, b: Seq<char>)
    ensures
        encode_utf8(a + b) == encode_utf8(a) + encode_utf8(b),
    decreases a.len(),
{
    if a.len() == 0 {
        assert(a + b == b);
    } else {
        lemma_encode_concat(a.drop_first(), b);
        assert((a + b).drop_first() == a.drop_first() + b);
        assert((a + b)[0] == a[0]);
    }
}

proof fn lemma_encode_crlf()
    ensures
        encode_utf8(seq!['\r', '\n']) == crlf(),
{
    let s = seq!['\r', '\n'];
    assert(s.drop_first() == seq!['\n']);
    assert(s.drop_first().drop_first().len() == 0);
    assert((13u32 & 0x7Fu32) == 13u32) by (bit_vector);
    assert((10u32 & 0x7Fu32) == 10u32) by (bit_vector);
    assert(('\r' as u32) == 13u32);
    assert(('\n' as u32) == 10u32);
    assert(vstd::utf8::encode_scalar(13u32) == seq![13u8]);
    assert(vstd::utf8::encode_scalar(10u32) == seq![10u8]);
    let s1 = seq!['\n'];
    assert(s1.drop_first() =~= Seq::<char>::empty());
    assert(encode_utf8(Seq::<char>::empty()) =~= Seq::<u8>::empty());
    assert(encode_utf8(s1) == vstd::utf8::encode_scalar(s1[0] as u32) + encode_utf8(
        s1.drop_first(),
    ));
    assert(encode_utf8(s1) =~= seq![10u8]);
    assert(s.drop_first() =~= s1);
    assert(encode_utf8(s) == vstd::utf8::encode_scalar(s[0] as u32) + encode_utf8(s.drop_first()));
}

proof fn lemma_lines_bytes(ls: Seq<Seq<char>>)
    ensures
        lines_bytes(ls) == encode_utf8(lines_text(ls)),
    decreases ls.len(),
{
    if ls.len() > 0 {
        lemma_lines_bytes(ls.drop_last());
        let a = lines_text(ls.drop_last());
        lemma_encode_concat(a, ls.last());
        lemma_encode_concat(a + ls.last(), seq!['\r', '\n']);
        lemma_encode_crlf();
    }
}

/// Lines without line feeds, written one per `\r\n`, read back as the same lines.
proof fn lemma_text_lines_of_lines_text(ls: Seq<Seq<char>>)
    requires
        forall|k: int, i: int| 0 <= k < ls.len() && 0 <= i < ls[k].len() ==> #[trigger] ls[k][i]
            != '\n',
    ensures
        split_by(lines_text(ls), Delim::Char('\n')) == ls.map_values(|l: Seq<char>| l.push('\r')).push(
            Seq::empty(),
        ),
        text_lines(lines_text(ls)) == ls,
    decreases ls.len(),
{
    let d = Delim::Char('\n');
    let m = ls.map_values(|l: Seq<char>| l.push('\r'));
    if ls.len() == 0 {
        assert(m.push(Seq::<char>::empty()) == seq![Seq::<char>::empty()]);
    } else {
        let t = ls.drop_last();
        assert forall|k: int, i: int| 0 <= k < t.len() && 0 <= i < t[k].len() implies #[trigger] t[k][i]
            != '\n' by {
            assert(t[k] == ls[k]);
        }
        lemma_text_lines_of_lines_text(t);
        let mt = t.map_values(|l: Seq<char>| l.push('\r'));
        let a = lines_text(t);
        let l = ls.last();
        let lr = l.push('\r');
        assert forall|i: int| 0 <= i < lr.len() implies !is_delim(d, #[trigger] lr[i]) by {
            if i < l.len() {
                assert(lr[i] == ls[ls.len() - 1][i]);
            }
        }
        lemma_split_by_append(a, lr, d);
        lemma_split_by_push_delim(a + lr, '\n', d);
        assert(lines_text(ls) == (a + lr).push('\n'));
        let sa = split_by(a, d);
        assert(sa == mt.push(Seq::<char>::empty()));
        assert(sa.update(sa.len() - 1, sa.last() + lr) == mt.push(lr));
        assert(m == mt.push(lr));
    }
    let p = split_by(lines_text(ls), d);
    assert(p.drop_last() == m);
    assert(m.map_values(|l: Seq<char>| strip_cr(l)) =~= ls) by {
        assert forall|k: int| 0 <= k < ls.len() implies m.map_values(|l: Seq<char>| strip_cr(l))[k]
            == ls[k] by {
            assert(ls[k].push('\r').drop_last() == ls[k]);
        }
    }
}

proof fn lemma_text_lines_no_lf(s: Seq<char>)
    ensures
        forall|k: int, i: int|
            0 <= k < text_lines(s).len() && 0 <= i < text_lines(s)[k].len() ==> #[trigger] text_lines(
                s,
            )[k][i] != '\n',
{
    let d = Delim::Char('\n');
    lemma_split_by_chars(s, d, |c: char| true);
    lemma_split_by_nonempty(s, d);
    let p = split_by(s, d);
    let tl = text_lines(s);
    assert forall|k: int, i: int| 0 <= k < tl.len() && 0 <= i < tl[k].len() implies #[trigger] tl[k][i]
        != '\n' by {
        if k < p.len() - 1 {
            assert(tl[k] == strip_cr(p[k]));
            assert(tl[k][i] == p[k][i]);
            assert(!is_delim(d, p[k][i]));
        } else {
            assert(tl[k] == p.last());
            assert(!is_delim(d, p[p.len() - 1][i]));
        }
    }
}

proof fn lemma_drop_trailing_empty(ls: Seq<Seq<char>>)
    ensures
        drop_trailing_empty(ls).len() <= ls.len(),
        drop_trailing_empty(ls) == ls.take(drop_trailing_empty(ls).len() as int),
        drop_trailing_empty(ls).len() > 0 ==> drop_trailing_empty(ls).last().len() > 0,
    decreases ls.len(),
{
    if ls.len() > 0 && ls.last().len() == 0 {
        lemma_drop_trailing_empty(ls.drop_last());
        let r = drop_trailing_empty(ls.drop_last());
        assert(ls.drop_last().take(r.len() as int) == ls.take(r.len() as int));
    } else {
        assert(ls.take(ls.len() as int) == ls);
    }
}

/// The "relaxed" body canonicalization always ends with `\r\n`, and applying
/// it to its own output changes nothing.
pub proof fn lemma_relaxed_body_canonical(b: Seq<u8>)
    ensures
        ends_with_crlf(relaxed_body(b)),
        relaxed_body(relaxed_body(b)) == relaxed_body(b),
{
    let tl = text_lines(lossy_text(b));
    let m = tl.map_values(|l: Seq<char>| relaxed_line(l));
    let ls = drop_trailing_empty(m);
    lemma_drop_trailing_empty(m);
    lemma_text_lines_no_lf(lossy_text(b));
    assert forall|k: int| 0 <= k < ls.len() implies relaxed_form(#[trigger] ls[k]) && (forall|i: int|
        0 <= i < ls[k].len() ==> #[trigger] ls[k][i] != '\n') by {
        assert(ls[k] == m[k]);
        assert(m[k] == relaxed_line(tl[k]));
        lemma_relaxed_line_form(tl[k]);
        assert forall|i: int| 0 <= i < tl[k].len() implies #[trigger] tl[k][i] != '\n' by {}
        lemma_relaxed_line_no_lf(tl[k]);
    }
    let big_l = if ls.len() == 0 {
        seq![Seq::<char>::empty()]
    } else {
        ls
    };
    assert forall|k: int| 0 <= k < big_l.len() implies relaxed_form(#[trigger] big_l[k]) && (forall|
        i: int,
    | 0 <= i < big_l[k].len() ==> #[trigger] big_l[k][i] != '\n') by {
        if ls.len() > 0 {
            assert(big_l[k] == ls[k]);
        }
    }
    let c = relaxed_body(b);
    lemma_lines_bytes(big_l);
    if ls.len() == 0 {
        assert(lines_text(big_l) == seq!['\r', '\n']) by {
            assert(big_l.drop_last() =~= Seq::<Seq<char>>::empty());
            assert(big_l.last() == Seq::<char>::empty());
            assert(lines_text(Seq::<Seq<char>>::empty()) == Seq::<char>::empty());
            assert(Seq::<char>::empty() + Seq::<char>::empty() + seq!['\r', '\n'] == seq![
                '\r',
                '\n',
            ]);
        }
        lemma_encode_crlf();
    }
    assert(c == encode_utf8(lines_text(big_l)));
    vstd::utf8::encode_utf8_valid_utf8(lines_text(big_l));
    vstd::utf8::encode_utf8_decode_utf8(lines_text(big_l));
    assert(lossy_text(c) == lines_text(big_l));
    assert forall|k: int, i: int| 0 <= k < big_l.len() && 0 <= i < big_l[k].len() implies #[trigger] big_l[k][i]
        != '\n' by {}
    lemma_text_lines_of_lines_text(big_l);
    let m2 = big_l.map_values(|l: Seq<char>| relaxed_line(l));
    assert(m2 =~= big_l) by {
        assert forall|k: int| 0 <= k < big_l.len() implies m2[k] == big_l[k] by {
            lemma_relaxed_form_fixed(big_l[k]);
        }
    }
    if ls.len() == 0 {
        assert(big_l.last().len() == 0);
        assert(big_l.drop_last().len() == 0);
        assert(drop_trailing_empty(big_l) == drop_trailing_empty(big_l.drop_last()));
        assert(relaxed_lines(c).len() == 0);
        assert(ends_with_crlf(c));
    } else {
        assert(drop_trailing_empty(big_l) == big_l);
        assert(relaxed_lines(c) == ls);
        assert(ls.drop_last().len() < ls.len());
    }
}

/// Removes each `\r\n` pair, scanning from the front (`str::replace("\r\n", "")`).
pub open spec fn remove_crlf(s: Seq<char>) -> Seq<char>
    decreases s.len(),
{
    if s.len() < 2 {
        s
    } else if s[0] == '\r' && s[1] == '\n' {
        remove_crlf(s.skip(2))
    } else {
        seq![s[0]] + remove_crlf(s.skip(1))
    }
}

/// A header value under "relaxed" canonicalization: unfolded, whitespace runs
/// compressed to one space, no whitespace at either end.
pub open spec fn relaxed_header_value(v: Seq<char>) -> Seq<char> {
    trim_end(
        join(words(remove_delims(remove_crlf(v), Delim::Char('\n')), Delim::Whitespace), seq![' ']),
    )
}

/// A header line under "relaxed" canonicalization.
pub open spec fn relaxed_header(name: Seq<char>, value: Seq<char>) -> Seq<char> {
    lower_text(name) + seq![':'] + relaxed_header_value(value)
}

/// Every whitespace character of `s` is a single space between two
/// non-whitespace characters.
pub open spec fn whitespace_compressed(s: Seq<char>) -> bool {
    forall|i: int|
        0 <= i < s.len() && is_ws(#[trigger] s[i]) ==> s[i] == ' ' && 0 < i < s.len() - 1 && !is_ws(
            s[i - 1],
        ) && !is_ws(s[i + 1])
}

proof fn lemma_join_ws_shape(ws: Seq<Seq<char>>)
    requires
        forall|k: int| 0 <= k < ws.len() ==> (#[trigger] ws[k]).len() > 0,
        forall|k: int, i: int| 0 <= k < ws.len() && 0 <= i < ws[k].len() ==> !is_ws(#[trigger] ws[k][i]),
    ensures
        ({
            let j = join(ws, seq![' ']);
            &&& whitespace_compressed(j)
            &&& ws.len() > 0 ==> j.len() > 0 && !is_ws(j[0]) && !is_ws(j.last())
        }),
    decreases ws.len(),
{
    let j = join(ws, seq![' ']);
    if ws.len() == 1 {
        assert forall|i: int| 0 <= i < j.len() && is_ws(#[trigger] j[i]) implies false by {
            assert(!is_ws(ws[0][i]));
        }
        assert(!is_ws(ws[0][0]));
        assert(!is_ws(ws[0][ws[0].len() - 1]));
    } else if ws.len() > 1 {
        let t = ws.drop_last();
        assert forall|k: int| 0 <= k < t.len() implies (#[trigger] t[k]).len() > 0 by {
            assert(t[k] == ws[k]);
        }
        assert forall|k: int, i: int| 0 <= k < t.len() && 0 <= i < t[k].len() implies !is_ws(
            #[trigger] t[k][i],
        ) by {
            assert(t[k] == ws[k]);
        }
        lemma_join_ws_shape(t);
        let a = join(t, seq![' ']);
        let w = ws.last();
        assert(w.len() > 0);
        assert(j == a + seq![' '] + w);
        assert(!is_ws(ws[ws.len() - 1][0]));
        assert(!is_ws(ws[ws.len() - 1][w.len() - 1]));
        assert forall|i: int| 0 <= i < j.len() && is_ws(#[trigger] j[i]) implies j[i] == ' ' && 0 < i
            < j.len() - 1 && !is_ws(j[i - 1]) && !is_ws(j[i + 1]) by {
            if i < a.len() {
                assert(j[i] == a[i]);
                assert(is_ws(a[i]));
                assert(j[i - 1] == a[i - 1] && j[i + 1] == a[i + 1]);
            } else if i == a.len() {
                assert(j[i - 1] == a.last());
                assert(j[i + 1] == w[0]);
            } else {
                assert(j[i] == w[i - a.len() - 1]);
                assert(!is_ws(ws[ws.len() - 1][i - a.len() - 1]));
            }
        }
        assert(j[0] == a[0]);
        assert(j.last() == w.last());
    }
}

/// A relaxed header value holds no whitespace but single spaces between
/// non-whitespace characters: it is unfolded, compressed and trimmed.
pub proof fn lemma_relaxed_header_value_compressed(v: Seq<char>)
    ensures
        whitespace_compressed(relaxed_header_value(v)),
{
    let x = remove_delims(remove_crlf(v), Delim::Char('\n'));
    let pieces = split_by(x, Delim::Whitespace);
    lemma_split_by_chars(x, Delim::Whitespace, |c: char| true);
    let q = |w: Seq<char>| forall|i: int| 0 <= i < w.len() ==> !is_ws(#[trigger] w[i]);
    assert forall|k: int| 0 <= k < pieces.len() implies q(#[trigger] pieces[k]) by {
        assert forall|i: int| 0 <= i < pieces[k].len() implies !is_ws(#[trigger] pieces[k][i]) by {
            assert(!is_delim(Delim::Whitespace, pieces[k][i]));
        }
    }
    lemma_drop_empty(pieces, q);
    let ws = drop_empty(pieces);
    assert forall|k: int, i: int| 0 <= k < ws.len() && 0 <= i < ws[k].len() implies !is_ws(
        #[trigger] ws[k][i],
    ) by {
        assert(q(ws[k]));
    }
    lemma_join_ws_shape(ws);
    let j = join(ws, seq![' ']);
    if ws.len() == 0 {
        assert(j.len() == 0);
    }
    assert(trim_end(j) == j);
}

fn remove_crlf_chars(s: &[char]) -> (r: Vec<char>)
    ensures
        r@ == remove_crlf(s@),
{
    let mut r: Vec<char> = Vec::new();
    let mut i: usize = 0;
    assert(s@.skip(0) == s@);
    while i < s.len()
        invariant
            i <= s.len(),
            r@ + remove_crlf(s@.skip(i as int)) == remove_crlf(s@),
        decreases s.len() - i,
    {
        let ghost t = s@.skip(i as int);
        if i + 1 < s.len() && s[i] == '\r' && s[i + 1] == '\n' {
            assert(t.skip(2) == s@.skip(i + 2));
            i = i + 2;
        } else {
            assert(t.skip(1) == s@.skip(i + 1));
            proof {
                if t.len() < 2 {
                    assert(t == seq![t[0]] + t.skip(1));
                }
            }
            r.push(s[i]);
            i = i + 1;
            assert(r@ + remove_crlf(s@.skip(i as int)) == remove_crlf(s@));
        }
    }
    assert(s@.skip(s.len() as int).len() == 0);
    r
}

pub fn remove_delim_chars(s: &[char], d: Delim) -> (r: Vec<char>)
    ensures
        r@ == remove_delims(s@, d),
{
    let mut r: Vec<char> = Vec::new();
    let mut i: usize = 0;
    assert(s@.take(0) == Seq::<char>::empty());
    while i < s.len()
        invariant
            i <= s.len(),
            r@ == remove_delims(s@.take(i as int), d),
        decreases s.len() - i,
    {
        assert(s@.take(i + 1).drop_last() == s@.take(i as int));
        if !d.matches(s[i]) {
            r.push(s[i]);
        }
        i = i + 1;
    }
    assert(s@.take(s.len() as int) == s@);
    r
}

/// `relaxed_header` on vectors.
pub fn relaxed_header_chars(name: &[char], value: &[char]) -> (r: Vec<char>)
    ensures
        r@ == relaxed_header(name@, value@),
{
    let unfolded = remove_crlf_chars(value);
    let unfolded = remove_delim_chars(&unfolded, Delim::Char('\n'));
    let parts = split_chars(&unfolded, Delim::Whitespace);
    let ws = drop_empty_parts(&parts);
    let mut sep: Vec<char> = Vec::new();
    sep.push(' ');
    let joined = join_chars(&ws, &sep);
    let v = trim_end_chars(&joined);
    let mut r = lowercase_chars(name);
    r.push(':');
    extend_chars(&mut r, &v);
    r
}

/// "Relaxed" header canonicalization: `name:value` with the name lowercased
/// and the value unfolded and whitespace-compressed.
pub fn canonicalize_header_relaxed(name: &str, value: &str) -> (r: String)
    ensures
        r@ == relaxed_header(name@, value@),
{
    let n = chars_of(name);
    let v = chars_of(value);
    let r = relaxed_header_chars(&n, &v);
    string_of(&r)
}

} // verus!
