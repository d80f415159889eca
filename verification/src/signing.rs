//! The data that a DKIM signature signs (RFC 6376 section 3.7).
use crate::canon::{crlf, extend_bytes, relaxed_header, relaxed_header_chars};
use crate::signature::{Canon, DkimSignature, SpecDkimSignature};
use crate::smtp::SmtpHeader;
use crate::strings::{chars_of, string_of};
use crate::text::{
    chars_eq_ignore_ascii_case, eq_ignore_ascii_case, extend_chars, find_char, index_of_char,
    is_ws, subrange, trim_end, trim_end_index,
};
use vstd::prelude::*;
use vstd::utf8::encode_utf8;

verus! {

/// `s[j..j + 2]` is `b=`.
pub open spec fn b_eq_at(s: Seq<char>, j: int) -> bool {
    s[j] == 'b' && s[j + 1] == '='
}

/// A `b=` after `before` starts a tag when `before`, without trailing
/// whitespace, is empty or ends with `;`.
pub open spec fn starts_tag(before: Seq<char>) -> bool {
    let t = trim_end(before);
    t.len() == 0 || t.last() == ';'
}

/// The `b` tag starts at `j`: a `b=` that follows the start of the value or a
/// `;` (whitespace between them ignored).
pub open spec fn b_tag_at(s: Seq<char>, j: int) -> bool {
    0 <= j && j + 2 <= s.len() && b_eq_at(s, j) && starts_tag(s.take(j))
}

/// Index of the first `b` tag at or after `k`.
pub open spec fn find_b_tag_from(s: Seq<char>, k: int) -> Option<int>
    decreases s.len() - k,
{
    if k < 0 || k + 2 > s.len() {
        None
    } else if b_tag_at(s, k) {
        Some(k)
    } else {
        find_b_tag_from(s, k + 1)
    }
}

/// Index of the `b` tag: the first `b=` that starts a tag.
pub open spec fn find_b_tag(s: Seq<char>) -> Option<int> {
    find_b_tag_from(s, 0)
}

/// What follows a tag value: from the next `;` on, or nothing.
pub open spec fn after_value(t: Seq<char>) -> Seq<char> {
    match find_char(t, ';') {
        Some(q) => t.skip(q),
        None => Seq::empty(),
    }
}

/// The header value with the value of its `b` tag removed (the tag name, its
/// `=` and everything from the next `;` on stay); unchanged when it has no
/// `b` tag.
pub open spec fn strip_b(s: Seq<char>) -> Seq<char> {
    match find_b_tag(s) {
        None => s,
        Some(a) => s.take(a + 2) + after_value(s.skip(a + 2)),
    }
}

proof fn lemma_find_b_tag_from(s: Seq<char>, k: int)
    requires
        0 <= k,
    ensures
        match find_b_tag_from(s, k) {
            Some(a) => k <= a && b_tag_at(s, a) && forall|j: int| k <= j < a ==> !#[trigger] b_tag_at(s, j),
            None => forall|j: int| k <= j ==> !#[trigger] b_tag_at(s, j),
        },
    decreases s.len() - k,
{
    if k + 2 <= s.len() && !b_tag_at(s, k) {
        lemma_find_b_tag_from(s, k + 1);
    }
}

/// The first index from `k` on where the `b` tag starts, if any, is found.
proof fn lemma_find_b_tag_is(s: Seq<char>, k: int, a: int)
    requires
        0 <= k <= a,
        b_tag_at(s, a),
        forall|j: int| k <= j < a ==> !#[trigger] b_tag_at(s, j),
    ensures
        find_b_tag_from(s, k) == Some(a),
    decreases a - k,
{
    if k < a {
        assert(!b_tag_at(s, k));
        lemma_find_b_tag_is(s, k + 1, a);
    }
}

/// Removing the `b=` value again changes nothing.
pub proof fn lemma_strip_b_idempotent(s: Seq<char>)
    ensures
        strip_b(strip_b(s)) == strip_b(s),
{
    lemma_find_b_tag_from(s, 0);
    match find_b_tag(s) {
        None => {},
        Some(a) => {
            let after = s.skip(a + 2);
            let tail = after_value(after);
            let r = s.take(a + 2) + tail;
            assert(r.take(a + 2) == s.take(a + 2));
            assert(r.skip(a + 2) == tail);
            assert forall|j: int| 0 <= j < a implies !#[trigger] b_tag_at(r, j) by {
                assert(r.take(j) == s.take(j));
                assert(r[j] == s[j] && r[j + 1] == s[j + 1]);
                assert(!b_tag_at(s, j));
            }
            assert(r.take(a) == s.take(a));
            assert(b_tag_at(r, a));
            lemma_find_b_tag_is(r, 0, a);
            crate::text::lemma_find_char(after, ';');
            match find_char(after, ';') {
                Some(q) => {
                    crate::text::lemma_find_char(tail, ';');
                    assert(tail[0] == ';');
                    assert(tail.skip(0) == tail);
                },
                None => {},
            }
        },
    }
}

/// Whitespace at the end of a text, of any kind, is all that `trim_end` removes.
proof fn lemma_trim_end_ws_suffix(p: Seq<char>, w: Seq<char>)
    requires
        p.len() > 0,
        !is_ws(p.last()),
        forall|i: int| 0 <= i < w.len() ==> is_ws(#[trigger] w[i]),
    ensures
        trim_end(p + w) == p,
    decreases w.len(),
{
    if w.len() > 0 {
        assert((p + w).last() == w.last());
        assert((p + w).drop_last() == p + w.drop_last());
        lemma_trim_end_ws_suffix(p, w.drop_last());
    } else {
        assert(p + w == p);
    }
}

/// A `b=` that follows a `;` and whitespace of any kind (spaces, or the line
/// break and tab of a folded header) starts the `b` tag: when the text before
/// the `;` has no `b` tag, the value up to the next `;` is what is removed,
/// and everything else stays.
pub proof fn lemma_strip_b_after_separator(
    p: Seq<char>,
    w: Seq<char>,
    v: Seq<char>,
    rest: Seq<char>,
)
    requires
        find_b_tag(p) is None,
        p.len() > 0,
        p.last() == ';',
        forall|i: int| 0 <= i < w.len() ==> is_ws(#[trigger] w[i]),
        forall|i: int| 0 <= i < v.len() ==> #[trigger] v[i] != ';',
        rest.len() == 0 || rest[0] == ';',
    ensures
        strip_b(p + w + "b="@ + v + rest) == p + w + "b="@ + rest,
{
    reveal_strlit("b=");
    let x = p + w + "b="@ + v + rest;
    let a: int = (p.len() + w.len()) as int;
    lemma_find_b_tag_from(p, 0);
    assert(x.take(a) == p + w);
    lemma_trim_end_ws_suffix(p, w);
    assert(x[a] == 'b' && x[a + 1] == '=');
    assert(b_tag_at(x, a));
    assert forall|j: int| 0 <= j < a implies !#[trigger] b_tag_at(x, j) by {
        if j + 1 < p.len() {
            assert(x.take(j) == p.take(j));
            assert(x[j] == p[j] && x[j + 1] == p[j + 1]);
            assert(!b_tag_at(p, j));
        } else if j + 1 == p.len() {
            assert(x[j] == ';');
        } else {
            assert(x[j] == w[j - p.len()]);
            assert(is_ws(x[j]));
        }
    }
    lemma_find_b_tag_is(x, 0, a);
    assert(x.take(a + 2) == p + w + "b="@);
    let after = x.skip(a + 2);
    assert(after == v + rest);
    crate::text::lemma_find_char(after, ';');
    if rest.len() == 0 {
        assert(after == v);
        assert(p + w + "b="@ + rest == p + w + "b="@);
    } else {
        assert(after[v.len() as int] == ';');
        match find_char(after, ';') {
            Some(q) => {
                if q < v.len() {
                    assert(after[q] == v[q]);
                }
                assert(q == v.len());
                assert(after.skip(q) == rest);
            },
            None => {},
        }
    }
}

/// `trim_end` keeps every character up to the last one that is not whitespace.
proof fn lemma_trim_end_keeps(s: Seq<char>, m: int)
    requires
        0 <= m < s.len(),
        !is_ws(s[m]),
    ensures
        trim_end(s).len() > m,
    decreases s.len(),
{
    if is_ws(s.last()) {
        assert(s.drop_last()[m] == s[m]);
        lemma_trim_end_keeps(s.drop_last(), m);
    }
}

/// A `b=` inside another tag's value does not start the `b` tag: when the
/// text before it, trailing whitespace removed, is not empty and does not end
/// with `;`, and no `;` follows, the header value is left as it is.
pub proof fn lemma_strip_b_inside_value(p: Seq<char>, v: Seq<char>)
    requires
        find_b_tag(p) is None,
        trim_end(p).len() > 0,
        trim_end(p).last() != ';',
        forall|i: int| 0 <= i < v.len() ==> #[trigger] v[i] != ';',
    ensures
        strip_b(p + "b="@ + v) == p + "b="@ + v,
{
    reveal_strlit("b=");
    let x = p + "b="@ + v;
    let n = p.len() as int;
    lemma_find_b_tag_from(p, 0);
    lemma_find_b_tag_from(x, 0);
    assert(x[n + 1] == '=');
    assert forall|j: int| 0 <= j implies !#[trigger] b_tag_at(x, j) by {
        if j + 1 < n {
            assert(x.take(j) == p.take(j));
            assert(x[j] == p[j] && x[j + 1] == p[j + 1]);
            assert(!b_tag_at(p, j));
        } else if j + 1 == n {
            assert(x[j + 1] == 'b');
        } else if j == n {
            assert(x.take(j) == p);
        } else if j == n + 1 {
        } else if j + 2 <= x.len() {
            let q = x.take(j);
            assert(q[n + 1] == '=');
            lemma_trim_end_keeps(q, n + 1);
            crate::text::lemma_trim_end(q);
            let t = trim_end(q);
            assert(t.last() == q[t.len() - 1]);
            if t.len() - 1 > n + 1 {
                assert(q[t.len() - 1] == v[t.len() - 1 - n - 2]);
            }
            assert(!starts_tag(q));
        }
    }
}

/// Whether the `b=` at `j` starts the `b` tag.
fn is_b_tag_at(s: &[char], j: usize) -> (r: bool)
    requires
        j + 2 <= s.len(),
    ensures
        r == b_tag_at(s@, j as int),
{
    if !(s[j] == 'b' && s[j + 1] == '=') {
        return false;
    }
    let prefix = subrange(s, 0, j);
    assert(prefix@ == s@.take(j as int));
    let k = trim_end_index(&prefix);
    k == 0 || prefix[k - 1] == ';'
}

fn strip_b_chars(s: &[char]) -> (r: Vec<char>)
    ensures
        r@ == strip_b(s@),
{
    proof {
        lemma_find_b_tag_from(s@, 0);
    }
    let mut j: usize = 0;
    while s.len() >= 2 && j <= s.len() - 2
        invariant
            j <= s.len(),
            find_b_tag(s@) == find_b_tag_from(s@, j as int),
        decreases s.len() - j,
    {
        if is_b_tag_at(s, j) {
            let mut result = subrange(s, 0, j + 2);
            assert(result@ == s@.take(j + 2));
            let after = subrange(s, j + 2, s.len());
            assert(after@ == s@.skip(j + 2));
            match index_of_char(&after, ';') {
                Some(q) => {
                    let tail = subrange(&after, q, after.len());
                    assert(tail@ == after@.skip(q as int));
                    extend_chars(&mut result, &tail);
                },
                None => {},
            }
            return result;
        }
        j = j + 1;
    }
    crate::text::copy_chars(s)
}

/// Removes the value of the `b=` tag from a DKIM-Signature header value,
/// keeping the tag name and the delimiters. The `b` tag is the first `b=`
/// that follows the start of the value or a `;`; a `b=` inside another tag's
/// value is left alone.
pub fn strip_b_value(header_value: &str) -> (r: String)
    ensures
        r@ == strip_b(header_value@),
{
    let v = chars_of(header_value);
    let r = strip_b_chars(&v);
    string_of(&r)
}

/// A signed header as it enters the signing input.
pub open spec fn header_line(h: SmtpHeader, canon: Canon) -> Seq<char> {
    match canon {
        Canon::Relaxed => relaxed_header(h.name@, h.value@),
        Canon::Simple => h.name@ + ": "@ + h.value@,
    }
}

/// The largest index below `k` of a header that is not used yet and whose
/// name equals `name` up to ASCII case.
pub open spec fn last_unused_match(
    headers: Seq<SmtpHeader>,
    used: Seq<bool>,
    name: Seq<char>,
    k: int,
) -> Option<int>
    decreases k,
{
    if k <= 0 {
        None
    } else if !used[k - 1] && eq_ignore_ascii_case(headers[k - 1].name@, name) {
        Some(k - 1)
    } else {
        last_unused_match(headers, used, name, k - 1)
    }
}

/// The lines of the signed headers, in the order of `names`, each header used
/// at most once and the bottom-most first; with the headers used.
pub open spec fn signed_lines(headers: Seq<SmtpHeader>, names: Seq<Seq<char>>, canon: Canon) -> (
    Seq<u8>,
    Seq<bool>,
)
    decreases names.len(),
{
    if names.len() == 0 {
        (Seq::empty(), Seq::new(headers.len(), |i: int| false))
    } else {
        let (b, used) = signed_lines(headers, names.drop_last(), canon);
        match last_unused_match(headers, used, names.last(), headers.len() as int) {
            None => (b, used),
            Some(i) => (b + encode_utf8(header_line(headers[i], canon)) + crlf(), used.update(
                i,
                true,
            )),
        }
    }
}

/// The DKIM-Signature header line, with its `b=` value removed.
pub open spec fn dkim_line(value: Seq<char>, canon: Canon) -> Seq<char> {
    match canon {
        Canon::Relaxed => relaxed_header("dkim-signature"@, strip_b(value)),
        Canon::Simple => "DKIM-Signature: "@ + strip_b(value),
    }
}

/// The data that was signed: the signed header lines, each ending with
/// `\r\n`, then the DKIM-Signature header line without a line ending.
pub open spec fn signing_input(
    headers: Seq<SmtpHeader>,
    dkim_value: Seq<char>,
    sig: SpecDkimSignature,
) -> Seq<u8> {
    signed_lines(headers, sig.signed_headers, sig.header_canon).0 + encode_utf8(
        dkim_line(dkim_value, sig.header_canon),
    )
}

fn header_line_chars(h: &SmtpHeader, canon: Canon) -> (r: Vec<char>)
    ensures
        r@ == header_line(*h, canon),
{
    let name = chars_of(h.name.as_str());
    let value = chars_of(h.value.as_str());
    match canon {
        Canon::Relaxed => relaxed_header_chars(&name, &value),
        Canon::Simple => {
            let sep = chars_of(": ");
            crate::text::concat3(&name, &sep, &value)
        },
    }
}

fn find_last_unused(headers: &[SmtpHeader], used: &Vec<bool>, name: &[char]) -> (r: Option<usize>)
    requires
        used.len() == headers.len(),
    ensures
        match r {
            Some(i) => i < headers.len() && last_unused_match(
                headers@,
                used@,
                name@,
                headers.len() as int,
            ) == Some(i as int),
            None => last_unused_match(headers@, used@, name@, headers.len() as int) is None,
        },
{
    let mut k: usize = headers.len();
    while k > 0
        invariant
            k <= headers.len() == used.len(),
            last_unused_match(headers@, used@, name@, headers.len() as int) == last_unused_match(
                headers@,
                used@,
                name@,
                k as int,
            ),
        decreases k,
    {
        let hn = chars_of(headers[k - 1].name.as_str());
        if !used[k - 1] && chars_eq_ignore_ascii_case(&hn, name) {
            return Some(k - 1);
        }
        k = k - 1;
    }
    None
}

/// Reconstructs the data that was signed per RFC 6376 section 3.7: each header
/// named by `h=`, in that order (for a repeated name, the headers from the
/// bottom up, each at most once), in the signature's header canonicalization
/// and followed by `\r\n`; then the DKIM-Signature header with its `b=` value
/// emptied and no line ending.
pub fn build_signing_input(headers: &[SmtpHeader], dkim_header_value: &str, sig: &DkimSignature) -> (r:
    Vec<u8>)
    ensures
        r@ == signing_input(headers@, dkim_header_value@, sig@),
{
    let mut result: Vec<u8> = Vec::new();
    let mut used: Vec<bool> = Vec::new();
    let mut j: usize = 0;
    while j < headers.len()
        invariant
            j <= headers.len(),
            used@ == Seq::new(j as nat, |i: int| false),
        decreases headers.len() - j,
    {
        used.push(false);
        j = j + 1;
    }
    let ghost names = sig@.signed_headers;
    let ghost canon = sig.header_canon;
    let mut k: usize = 0;
    assert(names.take(0) == Seq::<Seq<char>>::empty());
    while k < sig.signed_headers.len()
        invariant
            k <= sig.signed_headers.len(),
            names == sig@.signed_headers,
            canon == sig.header_canon,
            used.len() == headers.len(),
            (result@, used@) == signed_lines(headers@, names.take(k as int), canon),
        decreases sig.signed_headers.len() - k,
    {
        assert(names.take(k + 1).drop_last() == names.take(k as int));
        assert(names.take(k + 1).last() == sig.signed_headers@[k as int]@);
        let name = chars_of(sig.signed_headers[k].as_str());
        match find_last_unused(headers, &used, &name) {
            Some(idx) => {
                used.set(idx, true);
                let line = header_line_chars(&headers[idx], sig.header_canon);
                let s = string_of(&line);
                extend_bytes(&mut result, s.as_str().as_bytes());
                result.push(13u8);
                result.push(10u8);
            },
            None => {},
        }
        k = k + 1;
    }
    assert(names.take(sig.signed_headers.len() as int) == names);
    let stripped = strip_b_value(dkim_header_value);
    let sv = chars_of(stripped.as_str());
    let line = match sig.header_canon {
        Canon::Relaxed => {
            let n = chars_of("dkim-signature");
            relaxed_header_chars(&n, &sv)
        },
        Canon::Simple => {
            let mut l = chars_of("DKIM-Signature: ");
            extend_chars(&mut l, &sv);
            l
        },
    };
    let s = string_of(&line);
    extend_bytes(&mut result, s.as_str().as_bytes());
    result
}

} // verus!
