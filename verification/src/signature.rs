//! The DKIM-Signature header field: its tag list and what the verifier reads
//! from it.
use crate::crypto::{base64_decode, base64_decode_standard};
use crate::strings::{
    chars_of, lower_text, lowercase_chars, parse_usize, string_of, unsigned_numeral,
    usize_parse_error_text,
};
use crate::text::{
    chars_eq, extend_chars, find_char, index_of_char, is_ws, remove_delims, split_by,
    split_chars, subrange, trim, trim_chars, Delim,
};
use vstd::prelude::*;
use vstd::utf8::encode_utf8;

verus! {

/// A canonicalization algorithm.
#[derive(Clone, Copy, Debug, PartialEq, Eq, Structural)]
pub enum Canon {
    Simple,
    Relaxed,
}

/// The fields of a DKIM-Signature that the verifier uses.
#[derive(Clone, Debug)]
pub struct DkimSignature {
    pub algorithm: String,
    pub domain: String,
    pub selector: String,
    pub signed_headers: Vec<String>,
    pub body_hash: Vec<u8>,
    pub signature: Vec<u8>,
    pub header_canon: Canon,
    pub body_canon: Canon,
    pub body_length: Option<usize>,
}

/// The mathematical value of a `DkimSignature`.
pub ghost struct SpecDkimSignature {
    pub algorithm: Seq<char>,
    pub domain: Seq<char>,
    pub selector: Seq<char>,
    pub signed_headers: Seq<Seq<char>>,
    pub body_hash: Seq<u8>,
    pub signature: Seq<u8>,
    pub header_canon: Canon,
    pub body_canon: Canon,
    pub body_length: Option<usize>,
}

impl View for DkimSignature {
    type V = SpecDkimSignature;

    open spec fn view(&self) -> SpecDkimSignature {
        SpecDkimSignature {
            algorithm: self.algorithm@,
            domain: self.domain@,
            selector: self.selector@,
            signed_headers: self.signed_headers@.map_values(|s: String| s@),
            body_hash: self.body_hash@,
            signature: self.signature@,
            header_canon: self.header_canon,
            body_canon: self.body_canon,
            body_length: self.body_length,
        }
    }
}

/// One `tag=value` item, already trimmed: the lowercased tag name and the value.
pub open spec fn tag_of(part: Seq<char>) -> Result<(Seq<char>, Seq<char>), Seq<char>> {
    match find_char(part, '=') {
        None => Err("Invalid tag: "@ + part),
        Some(i) => Ok((lower_text(trim(part.take(i))), trim(part.skip(i + 1)))),
    }
}

/// The tag list: each non-empty item between `;` in order, or the first error.
pub open spec fn tags_of(parts: Seq<Seq<char>>) -> Result<Seq<(Seq<char>, Seq<char>)>, Seq<char>>
    decreases parts.len(),
{
    if parts.len() == 0 {
        Ok(Seq::empty())
    } else {
        match tags_of(parts.drop_last()) {
            Err(e) => Err(e),
            Ok(ts) => {
                let p = trim(parts.last());
                if p.len() == 0 {
                    Ok(ts)
                } else {
                    match tag_of(p) {
                        Err(e) => Err(e),
                        Ok(t) => Ok(ts.push(t)),
                    }
                }
            },
        }
    }
}

/// The value of the first tag with the given name.
pub open spec fn lookup_tag(tags: Seq<(Seq<char>, Seq<char>)>, name: Seq<char>) -> Option<
    Seq<char>,
>
    decreases tags.len(),
{
    if tags.len() == 0 {
        None
    } else if tags[0].0 == name {
        Some(tags[0].1)
    } else {
        lookup_tag(tags.drop_first(), name)
    }
}

pub open spec fn required_tag(tags: Seq<(Seq<char>, Seq<char>)>, name: Seq<char>) -> Result<
    Seq<char>,
    Seq<char>,
> {
    match lookup_tag(tags, name) {
        Some(v) => Ok(v),
        None => Err("Missing DKIM tag: "@ + name),
    }
}

/// A base64 tag value with its whitespace removed, decoded.
pub open spec fn decoded_tag(raw: Seq<char>, err_prefix: Seq<char>) -> Result<Seq<u8>, Seq<char>> {
    match base64_decode(encode_utf8(remove_delims(raw, Delim::Whitespace))) {
        Ok(b) => Ok(b),
        Err(e) => Err(err_prefix + e),
    }
}

proof fn lemma_remove_delims_append(a: Seq<char>, b: Seq<char>, d: Delim)
    ensures
        remove_delims(a + b, d) == remove_delims(a, d) + remove_delims(b, d),
    decreases b.len(),
{
    if b.len() == 0 {
        assert(a + b == a);
        assert(remove_delims(a, d) + remove_delims(b, d) == remove_delims(a, d));
    } else {
        assert((a + b).drop_last() == a + b.drop_last());
        assert((a + b).last() == b.last());
        lemma_remove_delims_append(a, b.drop_last(), d);
    }
}

proof fn lemma_remove_whitespace(s: Seq<char>)
    ensures
        (forall|i: int| 0 <= i < s.len() ==> is_ws(#[trigger] s[i])) ==> remove_delims(
            s,
            Delim::Whitespace,
        ) == Seq::<char>::empty(),
        (forall|i: int| 0 <= i < s.len() ==> !is_ws(#[trigger] s[i])) ==> remove_delims(
            s,
            Delim::Whitespace,
        ) == s,
    decreases s.len(),
{
    if s.len() > 0 {
        lemma_remove_whitespace(s.drop_last());
        assert(s.drop_last().push(s.last()) == s);
        assert(s.last() == s[s.len() - 1]);
    }
}

/// Whitespace of every kind (spaces, tabs, the line breaks of a folded
/// header) inside a `b=` or `bh=` value does not change what is decoded.
pub proof fn lemma_decoded_tag_ignores_whitespace(
    x: Seq<char>,
    w: Seq<char>,
    y: Seq<char>,
    err_prefix: Seq<char>,
)
    requires
        forall|i: int| 0 <= i < w.len() ==> is_ws(#[trigger] w[i]),
    ensures
        decoded_tag(x + w + y, err_prefix) == decoded_tag(x + y, err_prefix),
{
    lemma_remove_delims_append(x + w, y, Delim::Whitespace);
    lemma_remove_delims_append(x, w, Delim::Whitespace);
    lemma_remove_delims_append(x, y, Delim::Whitespace);
    lemma_remove_whitespace(w);
    assert(remove_delims(x, Delim::Whitespace) + Seq::<char>::empty() == remove_delims(
        x,
        Delim::Whitespace,
    ));
}

/// A value without whitespace is decoded as base64 as it stands; a decoding
/// error is reported after the given prefix.
pub proof fn lemma_decoded_tag_plain(raw: Seq<char>, err_prefix: Seq<char>)
    requires
        forall|i: int| 0 <= i < raw.len() ==> !is_ws(#[trigger] raw[i]),
    ensures
        decoded_tag(raw, err_prefix) == match base64_decode(encode_utf8(raw)) {
            Ok(b) => Ok::<Seq<u8>, Seq<char>>(b),
            Err(e) => Err::<Seq<u8>, Seq<char>>(err_prefix + e),
        },
{
    lemma_remove_whitespace(raw);
}

pub open spec fn canon_name(s: Seq<char>) -> Option<Canon> {
    if s == "simple"@ {
        Some(Canon::Simple)
    } else if s == "relaxed"@ {
        Some(Canon::Relaxed)
    } else {
        None
    }
}

/// The `c=` tag value: `header[/body]`, the body part "simple" when absent.
pub open spec fn spec_parse_canonicalization(value: Seq<char>) -> Result<(Canon, Canon), Seq<char>> {
    let parts = split_by(value, Delim::Char('/'));
    let h = trim(parts[0]);
    match canon_name(h) {
        None => Err("Unknown header canonicalization: "@ + h),
        Some(hc) => if parts.len() > 1 {
            let b = trim(parts[1]);
            match canon_name(b) {
                None => Err("Unknown body canonicalization: "@ + b),
                Some(bc) => Ok((hc, bc)),
            }
        } else {
            Ok((hc, Canon::Simple))
        },
    }
}

pub open spec fn canon_of(tags: Seq<(Seq<char>, Seq<char>)>) -> Result<(Canon, Canon), Seq<char>> {
    match lookup_tag(tags, "c"@) {
        None => Ok((Canon::Simple, Canon::Simple)),
        Some(v) => spec_parse_canonicalization(v),
    }
}

pub open spec fn body_length_of(tags: Seq<(Seq<char>, Seq<char>)>) -> Result<
    Option<usize>,
    Seq<char>,
> {
    match lookup_tag(tags, "l"@) {
        None => Ok(None),
        Some(v) => match unsigned_numeral(v) {
            Some(n) => if n <= usize::MAX {
                Ok(Some(n as usize))
            } else {
                Err("Invalid body length: "@ + usize_parse_error_text(v))
            },
            None => Err("Invalid body length: "@ + usize_parse_error_text(v)),
        },
    }
}

/// The `h=` list: names between `:`, trimmed and lowercased.
pub open spec fn signed_header_names(h: Seq<char>) -> Seq<Seq<char>> {
    split_by(h, Delim::Char(':')).map_values(|x: Seq<char>| lower_text(trim(x)))
}

/// The signature that a tag list describes, or the first error.
pub open spec fn signature_from_tags(tags: Seq<(Seq<char>, Seq<char>)>) -> Result<
    SpecDkimSignature,
    Seq<char>,
> {
    match required_tag(tags, "v"@) {
        Err(e) => Err(e),
        Ok(version) => if version != "1"@ {
            Err("Unsupported DKIM version: "@ + version)
        } else {
            match required_tag(tags, "a"@) {
                Err(e) => Err(e),
                Ok(algorithm) => match required_tag(tags, "d"@) {
                    Err(e) => Err(e),
                    Ok(domain) => match required_tag(tags, "s"@) {
                        Err(e) => Err(e),
                        Ok(selector) => match required_tag(tags, "h"@) {
                            Err(e) => Err(e),
                            Ok(h) => match required_tag(tags, "bh"@) {
                                Err(e) => Err(e),
                                Ok(bh) => match decoded_tag(bh, "Invalid base64 in bh: "@) {
                                    Err(e) => Err(e),
                                    Ok(body_hash) => match required_tag(tags, "b"@) {
                                        Err(e) => Err(e),
                                        Ok(b) => match decoded_tag(b, "Invalid base64 in b: "@) {
                                            Err(e) => Err(e),
                                            Ok(signature) => match canon_of(tags) {
                                                Err(e) => Err(e),
                                                Ok(c) => match body_length_of(tags) {
                                                    Err(e) => Err(e),
                                                    Ok(l) => Ok(
                                                        SpecDkimSignature {
                                                            algorithm,
                                                            domain,
                                                            selector,
                                                            signed_headers: signed_header_names(h),
                                                            body_hash,
                                                            signature,
                                                            header_canon: c.0,
                                                            body_canon: c.1,
                                                            body_length: l,
                                                        },
                                                    ),
                                                },
                                            },
                                        },
                                    },
                                },
                            },
                        },
                    },
                },
            }
        },
    }
}

/// What `parse_dkim_signature` gives for a header value.
pub open spec fn spec_parse_dkim_signature(value: Seq<char>) -> Result<
    SpecDkimSignature,
    Seq<char>,
> {
    match tags_of(split_by(value, Delim::Char(';'))) {
        Err(e) => Err(e),
        Ok(tags) => signature_from_tags(tags),
    }
}

/// The fields of a parsed signature come from the tags of the same name:
/// version `1`, the `a=`, `d=` and `s=` values as they stand, and the body
/// hash and signature decoded from the `bh=` and `b=` values (with their
/// whitespace removed, as `decoded_tag` does).
pub proof fn lemma_parsed_signature_fields(value: Seq<char>)
    requires
        spec_parse_dkim_signature(value) is Ok,
    ensures
        ({
            let sig = spec_parse_dkim_signature(value)->Ok_0;
            &&& tags_of(split_by(value, Delim::Char(';'))) matches Ok(tags) && {
                &&& lookup_tag(tags, "v"@) == Some("1"@)
                &&& lookup_tag(tags, "a"@) == Some(sig.algorithm)
                &&& lookup_tag(tags, "d"@) == Some(sig.domain)
                &&& lookup_tag(tags, "s"@) == Some(sig.selector)
                &&& lookup_tag(tags, "bh"@) matches Some(bh) && decoded_tag(
                    bh,
                    "Invalid base64 in bh: "@,
                ) == Ok::<Seq<u8>, Seq<char>>(sig.body_hash)
                &&& lookup_tag(tags, "b"@) matches Some(b) && decoded_tag(
                    b,
                    "Invalid base64 in b: "@,
                ) == Ok::<Seq<u8>, Seq<char>>(sig.signature)
            }
        }),
{
}

/// The string `prefix` followed by `detail`.
pub fn message(prefix: &str, detail: &[char]) -> (r: String)
    ensures
        r@ == prefix@ + detail@,
{
    let mut v = chars_of(prefix);
    extend_chars(&mut v, detail);
    string_of(&v)
}

pub open spec fn tags_view(tags: Seq<(Vec<char>, Vec<char>)>) -> Seq<(Seq<char>, Seq<char>)> {
    tags.map_values(|t: (Vec<char>, Vec<char>)| (t.0@, t.1@))
}

fn parse_tag(part: &[char]) -> (r: Result<(Vec<char>, Vec<char>), String>)
    ensures
        match r {
            Ok(t) => tag_of(part@) == Ok::<(Seq<char>, Seq<char>), Seq<char>>((t.0@, t.1@)),
            Err(e) => tag_of(part@) == Err::<(Seq<char>, Seq<char>), Seq<char>>(e@),
        },
{
    match index_of_char(part, '=') {
        None => Err(message("Invalid tag: ", part)),
        Some(i) => {
            let key = subrange(part, 0, i);
            let val = subrange(part, i + 1, part.len());
            assert(part@.take(i as int) == key@);
            assert(part@.skip(i + 1) == val@);
            let key = trim_chars(&key);
            let key = lowercase_chars(&key);
            let val = trim_chars(&val);
            Ok((key, val))
        },
    }
}

fn parse_tags(value: &[char]) -> (r: Result<Vec<(Vec<char>, Vec<char>)>, String>)
    ensures
        match r {
            Ok(ts) => tags_of(split_by(value@, Delim::Char(';'))) == Ok::<
                Seq<(Seq<char>, Seq<char>)>,
                Seq<char>,
            >(tags_view(ts@)),
            Err(e) => tags_of(split_by(value@, Delim::Char(';'))) == Err::<
                Seq<(Seq<char>, Seq<char>)>,
                Seq<char>,
            >(e@),
        },
{
    let parts = split_chars(value, Delim::Char(';'));
    let ghost pv = parts@.map_values(|v: Vec<char>| v@);
    let mut tags: Vec<(Vec<char>, Vec<char>)> = Vec::new();
    let mut i: usize = 0;
    assert(pv.take(0) == Seq::<Seq<char>>::empty());
    assert(tags_view(tags@) =~= Seq::<(Seq<char>, Seq<char>)>::empty());
    while i < parts.len()
        invariant
            i <= parts.len(),
            pv == parts@.map_values(|v: Vec<char>| v@),
            pv == split_by(value@, Delim::Char(';')),
            tags_of(pv.take(i as int)) == Ok::<Seq<(Seq<char>, Seq<char>)>, Seq<char>>(
                tags_view(tags@),
            ),
        decreases parts.len() - i,
    {
        assert(pv.take(i + 1).drop_last() == pv.take(i as int));
        assert(pv.take(i + 1).last() == parts@[i as int]@);
        let part = trim_chars(&parts[i]);
        if part.len() > 0 {
            match parse_tag(&part) {
                Err(e) => {
                    proof {
                        lemma_tags_of_error_extends(pv, i as int + 1);
                    }
                    return Err(e);
                },
                Ok(t) => {
                    let ghost prev = tags@;
                    tags.push(t);
                    assert(tags_view(tags@) =~= tags_view(prev).push((t.0@, t.1@)));
                },
            }
        }
        i = i + 1;
    }
    assert(pv.take(parts.len() as int) == pv);
    Ok(tags)
}

/// An error in the first `k` parts is the error of the whole list.
proof fn lemma_tags_of_error_extends(parts: Seq<Seq<char>>, k: int)
    requires
        0 <= k <= parts.len(),
        tags_of(parts.take(k)) is Err,
    ensures
        tags_of(parts) == tags_of(parts.take(k)),
    decreases parts.len() - k,
{
    if k < parts.len() {
        assert(parts.take(k + 1).drop_last() == parts.take(k));
        lemma_tags_of_error_extends(parts, k + 1);
    } else {
        assert(parts.take(k) == parts);
    }
}

fn find_tag(tags: &Vec<(Vec<char>, Vec<char>)>, name: &str) -> (r: Option<Vec<char>>)
    ensures
        match r {
            Some(v) => lookup_tag(tags_view(tags@), name@) == Some(v@),
            None => lookup_tag(tags_view(tags@), name@) is None,
        },
{
    let n = chars_of(name);
    let ghost tv = tags_view(tags@);
    let mut i: usize = 0;
    assert(tv.skip(0) == tv);
    while i < tags.len()
        invariant
            i <= tags.len(),
            tv == tags_view(tags@),
            n@ == name@,
            lookup_tag(tv, name@) == lookup_tag(tv.skip(i as int), name@),
        decreases tags.len() - i,
    {
        assert(tv.skip(i as int)[0] == (tags@[i as int].0@, tags@[i as int].1@));
        if chars_eq(&tags[i].0, &n) {
            return Some(crate::text::copy_chars(&tags[i].1));
        }
        assert(tv.skip(i as int).drop_first() == tv.skip(i + 1));
        i = i + 1;
    }
    None
}

fn get_tag(tags: &Vec<(Vec<char>, Vec<char>)>, name: &str) -> (r: Result<Vec<char>, String>)
    ensures
        match r {
            Ok(v) => required_tag(tags_view(tags@), name@) == Ok::<Seq<char>, Seq<char>>(v@),
            Err(e) => required_tag(tags_view(tags@), name@) == Err::<Seq<char>, Seq<char>>(e@),
        },
{
    match find_tag(tags, name) {
        Some(v) => Ok(v),
        None => {
            let n = chars_of(name);
            Err(message("Missing DKIM tag: ", &n))
        },
    }
}

fn decode_tag(raw: &[char], err_prefix: &str) -> (r: Result<Vec<u8>, String>)
    ensures
        match r {
            Ok(v) => decoded_tag(raw@, err_prefix@) == Ok::<Seq<u8>, Seq<char>>(v@),
            Err(e) => decoded_tag(raw@, err_prefix@) == Err::<Seq<u8>, Seq<char>>(e@),
        },
{
    let cleaned = crate::canon::remove_delim_chars(raw, Delim::Whitespace);
    let s = string_of(&cleaned);
    match base64_decode_standard(s.as_str().as_bytes()) {
        Ok(v) => Ok(v),
        Err(e) => {
            let detail = chars_of(e.as_str());
            Err(message(err_prefix, &detail))
        },
    }
}

fn canon_from_name(s: &[char]) -> (r: Option<Canon>)
    ensures
        r == canon_name(s@),
{
    let simple = chars_of("simple");
    let relaxed = chars_of("relaxed");
    if chars_eq(s, &simple) {
        Some(Canon::Simple)
    } else if chars_eq(s, &relaxed) {
        Some(Canon::Relaxed)
    } else {
        None
    }
}

fn parse_canonicalization_chars(value: &[char]) -> (r: Result<(Canon, Canon), String>)
    ensures
        match r {
            Ok(c) => spec_parse_canonicalization(value@) == Ok::<(Canon, Canon), Seq<char>>(c),
            Err(e) => spec_parse_canonicalization(value@) == Err::<(Canon, Canon), Seq<char>>(e@),
        },
{
    let parts = split_chars(value, Delim::Char('/'));
    proof {
        crate::text::lemma_split_by_nonempty(value@, Delim::Char('/'));
    }
    let ghost pv = parts@.map_values(|v: Vec<char>| v@);
    assert(pv[0] == parts@[0]@);
    let h = trim_chars(&parts[0]);
    let header = match canon_from_name(&h) {
        Some(c) => c,
        None => {
            return Err(message("Unknown header canonicalization: ", &h));
        },
    };
    if parts.len() > 1 {
        assert(pv[1] == parts@[1]@);
        let b = trim_chars(&parts[1]);
        match canon_from_name(&b) {
            Some(c) => Ok((header, c)),
            None => Err(message("Unknown body canonicalization: ", &b)),
        }
    } else {
        Ok((header, Canon::Simple))
    }
}

/// Reads the `c=` tag value: header and body canonicalization.
pub fn parse_canonicalization(value: &str) -> (r: Result<(Canon, Canon), String>)
    ensures
        match r {
            Ok(c) => spec_parse_canonicalization(value@) == Ok::<(Canon, Canon), Seq<char>>(c),
            Err(e) => spec_parse_canonicalization(value@) == Err::<(Canon, Canon), Seq<char>>(e@),
        },
{
    let v = chars_of(value);
    parse_canonicalization_chars(&v)
}

fn body_length_from_tags(tags: &Vec<(Vec<char>, Vec<char>)>) -> (r: Result<Option<usize>, String>)
    ensures
        match r {
            Ok(l) => body_length_of(tags_view(tags@)) == Ok::<Option<usize>, Seq<char>>(l),
            Err(e) => body_length_of(tags_view(tags@)) == Err::<Option<usize>, Seq<char>>(e@),
        },
{
    match find_tag(tags, "l") {
        None => Ok(None),
        Some(v) => {
            let s = string_of(&v);
            match parse_usize(s.as_str()) {
                Ok(n) => Ok(Some(n)),
                Err(e) => {
                    let detail = chars_of(e.as_str());
                    Err(message("Invalid body length: ", &detail))
                },
            }
        },
    }
}

fn signed_header_list(h: &[char]) -> (r: Vec<String>)
    ensures
        r@.map_values(|s: String| s@) == signed_header_names(h@),
{
    let parts = split_chars(h, Delim::Char(':'));
    let ghost pv = parts@.map_values(|v: Vec<char>| v@);
    let ghost target = pv.map_values(|x: Seq<char>| lower_text(trim(x)));
    let mut r: Vec<String> = Vec::new();
    let mut i: usize = 0;
    while i < parts.len()
        invariant
            i <= parts.len(),
            r.len() == i,
            pv == parts@.map_values(|v: Vec<char>| v@),
            target == pv.map_values(|x: Seq<char>| lower_text(trim(x))),
            r@.map_values(|s: String| s@) == target.take(i as int),
        decreases parts.len() - i,
    {
        assert(pv[i as int] == parts@[i as int]@);
        let t = trim_chars(&parts[i]);
        let l = lowercase_chars(&t);
        let s = string_of(&l);
        let ghost prev = r@;
        r.push(s);
        let ghost rm = r@.map_values(|s: String| s@);
        let ghost qm = prev.map_values(|s: String| s@);
        assert forall|j: int| 0 <= j < i + 1 implies #[trigger] rm[j] == target.take(i + 1)[j] by {
            if j < i {
                assert(qm[j] == target.take(i as int)[j]);
            }
        }
        assert(rm =~= target.take(i + 1));
        i = i + 1;
    }
    assert(target.take(parts.len() as int) == target);
    r
}

/// Parses the value of a DKIM-Signature header: a `;`-separated tag list with
/// the tags `v` (which must be "1"), `a`, `d`, `s`, `h`, `bh` and `b`, and
/// optionally `c` and `l`. The first error met is returned.
pub fn parse_dkim_signature(value: &str) -> (r: Result<DkimSignature, String>)
    ensures
        match r {
            Ok(sig) => spec_parse_dkim_signature(value@) == Ok::<SpecDkimSignature, Seq<char>>(
                sig@,
            ),
            Err(e) => spec_parse_dkim_signature(value@) == Err::<SpecDkimSignature, Seq<char>>(
                e@,
            ),
        },
{
    let chars = chars_of(value);
    let tags = match parse_tags(&chars) {
        Ok(t) => t,
        Err(e) => return Err(e),
    };
    let ghost tv = tags_view(tags@);
    let version = match get_tag(&tags, "v") {
        Ok(v) => v,
        Err(e) => return Err(e),
    };
    let one = chars_of("1");
    if !chars_eq(&version, &one) {
        return Err(message("Unsupported DKIM version: ", &version));
    }
    let algorithm = match get_tag(&tags, "a") {
        Ok(v) => v,
        Err(e) => return Err(e),
    };
    let domain = match get_tag(&tags, "d") {
        Ok(v) => v,
        Err(e) => return Err(e),
    };
    let selector = match get_tag(&tags, "s") {
        Ok(v) => v,
        Err(e) => return Err(e),
    };
    let h = match get_tag(&tags, "h") {
        Ok(v) => v,
        Err(e) => return Err(e),
    };
    let signed_headers = signed_header_list(&h);
    let bh_raw = match get_tag(&tags, "bh") {
        Ok(v) => v,
        Err(e) => return Err(e),
    };
    let body_hash = match decode_tag(&bh_raw, "Invalid base64 in bh: ") {
        Ok(v) => v,
        Err(e) => return Err(e),
    };
    let b_raw = match get_tag(&tags, "b") {
        Ok(v) => v,
        Err(e) => return Err(e),
    };
    let signature = match decode_tag(&b_raw, "Invalid base64 in b: ") {
        Ok(v) => v,
        Err(e) => return Err(e),
    };
    let (header_canon, body_canon) = match find_tag(&tags, "c") {
        Some(v) => match parse_canonicalization_chars(&v) {
            Ok(c) => c,
            Err(e) => return Err(e),
        },
        None => (Canon::Simple, Canon::Simple),
    };
    let body_length = match body_length_from_tags(&tags) {
        Ok(l) => l,
        Err(e) => return Err(e),
    };
    let sig = DkimSignature {
        algorithm: string_of(&algorithm),
        domain: string_of(&domain),
        selector: string_of(&selector),
        signed_headers,
        body_hash,
        signature,
        header_canon,
        body_canon,
        body_length,
    };
    Ok(sig)
}

} // verus!
