//! DNS-over-HTTPS lookup of DKIM keys: the query, the TXT data of an answer,
//! and the canonical form of a response that replicas agree on.
use crate::dkim::{key_view, parse_dkim_public_key, spec_parse_dkim_public_key, DkimPublicKey};
use crate::signature::message;
use crate::strings::{chars_of, string_of};
use crate::text::{extend_chars, subrange};
use serde_json::Value;
use vstd::prelude::*;

verus! {

/// The DNS record type of TXT records.
pub const DNS_TYPE_TXT: u64 = 16;

/// One record of the `Answer` section of a DoH JSON response: its `type`
/// when that is an unsigned integer, and its `data` when that is a string.
#[derive(Clone, Debug)]
pub struct DohAnswer {
    pub record_type: Option<u64>,
    pub data: Option<String>,
}

/// An answer as plain values: its type and its data.
pub type AnswerView = (Option<u64>, Option<Seq<char>>);

impl View for DohAnswer {
    type V = AnswerView;

    open spec fn view(&self) -> AnswerView {
        (
            self.record_type,
            match self.data {
                Some(d) => Some(d@),
                None => None,
            },
        )
    }
}

/// The answers of a vector, as plain values.
pub open spec fn answers_of(v: Seq<DohAnswer>) -> Seq<AnswerView> {
    v.map_values(|a: DohAnswer| a@)
}

/// The DNS name that holds the key of a selector: `selector._domainkey.domain`.
pub fn dkim_query_name(selector: &str, domain: &str) -> (r: String)
    ensures
        r@ == selector@ + "._domainkey."@ + domain@,
{
    let mut v = chars_of(selector);
    let mid = chars_of("._domainkey.");
    extend_chars(&mut v, &mid);
    let d = chars_of(domain);
    extend_chars(&mut v, &d);
    string_of(&v)
}

/// The DoH URL that asks for the TXT records of a name.
pub fn doh_query_url(query_name: &str) -> (r: String)
    ensures
        r@ == "https://dns.google/resolve?name="@ + query_name@ + "&type=TXT"@,
{
    let mut v = chars_of("https://dns.google/resolve?name=");
    let q = chars_of(query_name);
    extend_chars(&mut v, &q);
    let t = chars_of("&type=TXT");
    extend_chars(&mut v, &t);
    string_of(&v)
}

/// `s` without the `"` characters at its start and at its end (`trim_matches('"')`).
pub open spec fn trim_quotes(s: Seq<char>) -> Seq<char>
    decreases s.len(),
{
    if s.len() > 0 && s[0] == '"' {
        trim_quotes(s.drop_first())
    } else if s.len() > 0 && s.last() == '"' {
        trim_quotes(s.drop_last())
    } else {
        s
    }
}

fn trim_quotes_chars(s: &[char]) -> (r: Vec<char>)
    ensures
        r@ == trim_quotes(s@),
{
    let mut lo: usize = 0;
    let mut hi: usize = s.len();
    assert(s@.subrange(0, s.len() as int) == s@);
    while lo < hi && (s[lo] == '"' || s[hi - 1] == '"')
        invariant
            lo <= hi <= s.len(),
            trim_quotes(s@) == trim_quotes(s@.subrange(lo as int, hi as int)),
        decreases hi - lo,
    {
        let ghost t = s@.subrange(lo as int, hi as int);
        if s[lo] == '"' {
            assert(t.drop_first() == s@.subrange(lo + 1, hi as int));
            lo = lo + 1;
        } else {
            assert(t.drop_last() == s@.subrange(lo as int, hi - 1));
            hi = hi - 1;
        }
    }
    subrange(s, lo, hi)
}

/// Whether an answer is a TXT record with string data.
pub open spec fn is_txt_data(a: AnswerView) -> bool {
    a.0 == Some(DNS_TYPE_TXT) && a.1 is Some
}

/// The data of the TXT answers, unquoted and concatenated in order.
pub open spec fn txt_data(answers: Seq<AnswerView>) -> Seq<char>
    decreases answers.len(),
{
    if answers.len() == 0 {
        Seq::empty()
    } else {
        let a = answers.last();
        if is_txt_data(a) {
            txt_data(answers.drop_last()) + trim_quotes(a.1->0)
        } else {
            txt_data(answers.drop_last())
        }
    }
}

pub open spec fn answers_view(answers: Option<&Vec<DohAnswer>>) -> Option<Seq<AnswerView>> {
    match answers {
        Some(a) => Some(answers_of(a@)),
        None => None,
    }
}

/// What `dkim_txt_record` gives.
pub open spec fn spec_dkim_txt_record(answers: Option<Seq<AnswerView>>, query_name: Seq<char>) -> Result<
    Seq<char>,
    Seq<char>,
> {
    match answers {
        None => Err("No Answer section in DoH response"@),
        Some(a) => {
            let t = txt_data(a);
            if t.len() == 0 {
                Err("No DKIM TXT record found for "@ + query_name)
            } else {
                Ok(t)
            }
        },
    }
}

/// The DKIM TXT record in a DoH response's `Answer` section (`None` when the
/// response has none): the data of its TXT answers, concatenated.
pub fn dkim_txt_record(answers: Option<&Vec<DohAnswer>>, query_name: &str) -> (r: Result<
    String,
    String,
>)
    ensures
        match r {
            Ok(t) => spec_dkim_txt_record(answers_view(answers), query_name@)
                == Ok::<Seq<char>, Seq<char>>(t@),
            Err(e) => spec_dkim_txt_record(answers_view(answers), query_name@)
                == Err::<Seq<char>, Seq<char>>(e@),
        },
{
    let answers = match answers {
        Some(a) => a,
        None => {
            return Err(string_of(&chars_of("No Answer section in DoH response")));
        },
    };
    let mut txt: Vec<char> = Vec::new();
    let mut i: usize = 0;
    let ghost av = answers_of(answers@);
    assert(av.take(0) == Seq::<AnswerView>::empty());
    while i < answers.len()
        invariant
            i <= answers.len(),
            av == answers_of(answers@),
            txt@ == txt_data(av.take(i as int)),
        decreases answers.len() - i,
    {
        assert(av.take(i + 1).drop_last() == av.take(i as int));
        assert(av.take(i + 1).last() == answers@[i as int]@);
        if answers[i].record_type == Some(DNS_TYPE_TXT) {
            match &answers[i].data {
                Some(d) => {
                    let dc = chars_of(d.as_str());
                    let unquoted = trim_quotes_chars(&dc);
                    extend_chars(&mut txt, &unquoted);
                },
                None => {},
            }
        }
        i = i + 1;
    }
    assert(av.take(answers.len() as int) == av);
    if txt.len() == 0 {
        let q = chars_of(query_name);
        return Err(message("No DKIM TXT record found for ", &q));
    }
    Ok(string_of(&txt))
}

/// The public key that a DoH response publishes for a query: its TXT record,
/// parsed.
pub fn dkim_key_from_doh_answers(answers: Option<&Vec<DohAnswer>>, query_name: &str) -> (r: Result<
    DkimPublicKey,
    String,
>)
    ensures
        key_view(r) == spec_dkim_key_from_answers(answers_view(answers), query_name@),
{
    let txt = match dkim_txt_record(answers, query_name) {
        Ok(t) => t,
        Err(e) => return Err(e),
    };
    parse_dkim_public_key(txt.as_str())
}

/// What `dkim_key_from_doh_answers` gives.
pub open spec fn spec_dkim_key_from_answers(
    answers: Option<Seq<AnswerView>>,
    query_name: Seq<char>,
) -> Result<Seq<u8>, Seq<char>> {
    match spec_dkim_txt_record(answers, query_name) {
        Err(e) => Err(e),
        Ok(t) => spec_parse_dkim_public_key(t),
    }
}

/// What `serde_json` reads from a DoH response body: the error's text when
/// the body is no JSON, else the compact JSON text of its `Status` member
/// (`null` when there is none) and, when its `Answer` member is an array,
/// the `type` (when an unsigned integer) and `data` (when a string) of each
/// of its elements.
pub uninterp spec fn doh_json(body: Seq<u8>) -> Result<
    (Seq<char>, Option<Seq<(Option<u64>, Option<Seq<char>>)>>),
    Seq<char>,
>;

pub open spec fn doh_json_view(r: Result<(String, Option<Vec<DohAnswer>>), String>) -> Result<
    (Seq<char>, Option<Seq<AnswerView>>),
    Seq<char>,
> {
    match r {
        Ok((status, answers)) => Ok(
            (
                status@,
                match answers {
                    Some(a) => Some(answers_of(a@)),
                    None => None,
                },
            ),
        ),
        Err(e) => Err(e@),
    }
}

/// Parses a DoH response body with `serde_json::from_slice` into a
/// `serde_json::Value` and reads its `Status` and `Answer` members. The
/// contract only names the result (`doh_json`): what JSON `serde_json`
/// accepts is its own.
#[verifier::external_body]
pub(crate) fn read_doh_json(body: &[u8]) -> (r: Result<(String, Option<Vec<DohAnswer>>), String>)
    ensures
        doh_json_view(r) == doh_json(body@),
{
    let v: Value = serde_json::from_slice(body).map_err(|e| e.to_string())?;
    let answers = v["Answer"].as_array().map(|a| {
        a.iter().map(|x| DohAnswer {
            record_type: x["type"].as_u64(),
            data: x["data"].as_str().map(|d| d.to_string()),
        }).collect()
    });
    Ok((v["Status"].to_string(), answers))
}

/// What `serde_json::to_vec` writes for the object
/// `{"Status": status, "Answer": [{"type": record_type, "data": d}, ...]}`
/// with one element for each record `d`, `status` read back as JSON text;
/// the error's text when either step fails.
pub uninterp spec fn doh_canonical_json(
    status: Seq<char>,
    record_type: u64,
    records: Seq<Seq<char>>,
) -> Result<Seq<u8>, Seq<char>>;

pub open spec fn bytes_view(r: Result<Vec<u8>, String>) -> Result<Seq<u8>, Seq<char>> {
    match r {
        Ok(b) => Ok(b@),
        Err(e) => Err(e@),
    }
}

/// Builds the canonical DoH response object with `serde_json` (the status
/// parsed back with `serde_json::from_str`) and serialises it with
/// `serde_json::to_vec`. The contract only names the result
/// (`doh_canonical_json`).
#[verifier::external_body]
fn write_doh_json(status: &str, record_type: u64, records: &Vec<String>) -> (r: Result<Vec<u8>, String>)
    ensures
        bytes_view(r) == doh_canonical_json(status@, record_type, records@.map_values(|d: String| d@)),
{
    let status: Value = serde_json::from_str(status).map_err(|e| e.to_string())?;
    let answer: Vec<Value> = records.iter().map(|d| Value::Object(serde_json::Map::from_iter([
        ("type".to_string(), Value::from(record_type)),
        ("data".to_string(), Value::from(d.as_str())),
    ]))).collect();
    let top = serde_json::Map::from_iter([("Status".to_string(), status), ("Answer".to_string(), Value::Array(answer))]);
    serde_json::to_vec(&Value::Object(top)).map_err(|e| e.to_string())
}

/// What `dkim_key_from_doh_body` gives.
pub open spec fn spec_dkim_key_from_doh_body(body: Seq<u8>, query_name: Seq<char>) -> Result<
    Seq<u8>,
    Seq<char>,
> {
    match doh_json(body) {
        Err(e) => Err("Invalid DoH JSON response: "@ + e),
        Ok((_, answers)) => spec_dkim_key_from_answers(answers, query_name),
    }
}

/// The public key that the body of a DoH response publishes for a query:
/// the body read as JSON, then its `Answer` section as
/// `dkim_key_from_doh_answers` reads it.
pub fn dkim_key_from_doh_body(body: &[u8], query_name: &str) -> (r: Result<DkimPublicKey, String>)
    ensures
        key_view(r) == spec_dkim_key_from_doh_body(body@, query_name@),
{
    match read_doh_json(body) {
        Err(e) => {
            let ec = chars_of(e.as_str());
            Err(message("Invalid DoH JSON response: ", &ec))
        },
        Ok((_, answers)) => dkim_key_from_doh_answers(answers.as_ref(), query_name),
    }
}

/// What `canonical_doh_response` gives.
pub open spec fn spec_canonical_doh_response(status_is_200: bool, body: Seq<u8>) -> Result<
    Seq<u8>,
    Seq<char>,
> {
    if !status_is_200 {
        Err("DoH request returned non-200 status"@)
    } else {
        match doh_json(body) {
            Err(_) => Err("Invalid DoH JSON"@),
            Ok((status, answers)) => {
                let a = match answers {
                    Some(a) => a,
                    None => Seq::empty(),
                };
                match doh_canonical_json(status, DNS_TYPE_TXT, sorted_txt_records(a)) {
                    Ok(b) => Ok(b),
                    Err(_) => Err("Failed to serialize canonical DoH response"@),
                }
            },
        }
    }
}

/// The canonical form of a DoH response that every replica agrees on: its
/// `Status` and its TXT data in sorted order, as JSON. A response whose HTTP
/// status is not 200, or whose body is no JSON, is refused.
pub fn canonical_doh_response(status_is_200: bool, body: &[u8]) -> (r: Result<Vec<u8>, String>)
    ensures
        bytes_view(r) == spec_canonical_doh_response(status_is_200, body@),
{
    if !status_is_200 {
        return Err(string_of(&chars_of("DoH request returned non-200 status")));
    }
    let (status, answers) = match read_doh_json(body) {
        Err(_) => return Err(string_of(&chars_of("Invalid DoH JSON"))),
        Ok(p) => p,
    };
    let answers = match answers {
        Some(a) => a,
        None => Vec::new(),
    };
    proof {
        assert(answers_of(Seq::<DohAnswer>::empty()) == Seq::<AnswerView>::empty());
    }
    let records = canonical_txt_records(&answers);
    match write_doh_json(status.as_str(), DNS_TYPE_TXT, &records) {
        Ok(b) => Ok(b),
        Err(_) => Err(string_of(&chars_of("Failed to serialize canonical DoH response"))),
    }
}

/// Lexicographic order of character sequences (that of `String`).
pub open spec fn lex_le(a: Seq<char>, b: Seq<char>) -> bool
    decreases a.len(),
{
    if a.len() == 0 {
        true
    } else if b.len() == 0 {
        false
    } else if (a[0] as u32) < (b[0] as u32) {
        true
    } else if (a[0] as u32) > (b[0] as u32) {
        false
    } else {
        lex_le(a.drop_first(), b.drop_first())
    }
}

pub proof fn lemma_lex_le_total(a: Seq<char>, b: Seq<char>)
    ensures
        lex_le(a, b) || lex_le(b, a),
    decreases a.len(),
{
    if a.len() > 0 && b.len() > 0 && (a[0] as u32) == (b[0] as u32) {
        lemma_lex_le_total(a.drop_first(), b.drop_first());
    }
}

pub proof fn lemma_lex_le_transitive(a: Seq<char>, b: Seq<char>, c: Seq<char>)
    requires
        lex_le(a, b),
        lex_le(b, c),
    ensures
        lex_le(a, c),
    decreases a.len(),
{
    if a.len() > 0 && b.len() > 0 && c.len() > 0 && (a[0] as u32) == (b[0] as u32) && (b[0] as u32)
        == (c[0] as u32) {
        lemma_lex_le_transitive(a.drop_first(), b.drop_first(), c.drop_first());
    }
}

pub proof fn lemma_lex_le_antisymmetric(a: Seq<char>, b: Seq<char>)
    requires
        lex_le(a, b),
        lex_le(b, a),
    ensures
        a == b,
    decreases a.len(),
{
    if a.len() > 0 && b.len() > 0 {
        lemma_lex_le_antisymmetric(a.drop_first(), b.drop_first());
        vstd::utf8::char_u32_cast(a[0], a[0] as u32);
        vstd::utf8::char_u32_cast(b[0], b[0] as u32);
        assert(a == seq![a[0]] + a.drop_first());
        assert(b == seq![b[0]] + b.drop_first());
    }
}

fn lex_le_chars(a: &[char], b: &[char]) -> (r: bool)
    ensures
        r == lex_le(a@, b@),
{
    let mut i: usize = 0;
    assert(a@.skip(0) == a@);
    assert(b@.skip(0) == b@);
    while i < a.len() && i < b.len() && a[i] == b[i]
        invariant
            i <= a.len(),
            i <= b.len(),
            lex_le(a@, b@) == lex_le(a@.skip(i as int), b@.skip(i as int)),
        decreases a.len() - i,
    {
        assert(a@.skip(i as int).drop_first() == a@.skip(i + 1));
        assert(b@.skip(i as int).drop_first() == b@.skip(i + 1));
        i = i + 1;
    }
    if i == a.len() {
        true
    } else if i == b.len() {
        false
    } else {
        proof {
            vstd::utf8::char_u32_cast(a@[i as int], a@[i as int] as u32);
            vstd::utf8::char_u32_cast(b@[i as int], b@[i as int] as u32);
            assert(a@.skip(i as int)[0] == a@[i as int]);
            assert(b@.skip(i as int)[0] == b@[i as int]);
        }
        (a[i] as u32) < (b[i] as u32)
    }
}

pub open spec fn sorted_lex(s: Seq<Seq<char>>) -> bool {
    forall|i: int, j: int| 0 <= i < j < s.len() ==> lex_le(#[trigger] s[i], #[trigger] s[j])
}

proof fn lemma_sorted_drop_first(x: Seq<Seq<char>>)
    requires
        sorted_lex(x),
        x.len() > 0,
    ensures
        sorted_lex(x.drop_first()),
{
    let t = x.drop_first();
    assert forall|i: int, j: int| 0 <= i < j < t.len() implies lex_le(#[trigger] t[i], #[trigger] t[j]) by {
        assert(t[i] == x[i + 1] && t[j] == x[j + 1]);
    }
}

/// Two sorted sequences with the same elements are equal.
pub proof fn lemma_sorted_same_elements_equal(x: Seq<Seq<char>>, y: Seq<Seq<char>>)
    requires
        sorted_lex(x),
        sorted_lex(y),
        x.to_multiset() == y.to_multiset(),
    ensures
        x == y,
    decreases x.len(),
{
    x.to_multiset_ensures();
    y.to_multiset_ensures();
    if x.len() > 0 {
        assert(x.contains(x[0]));
        assert(x.to_multiset().count(x[0]) > 0);
        assert(y.to_multiset().count(x[0]) > 0);
        assert(y.contains(x[0]));
        assert(y.contains(y[0]));
        assert(y.to_multiset().count(y[0]) > 0);
        assert(x.to_multiset().count(y[0]) > 0);
        assert(x.contains(y[0]));
        let j = choose|j: int| 0 <= j < y.len() && y[j] == x[0];
        let i = choose|i: int| 0 <= i < x.len() && x[i] == y[0];
        if x[0] != y[0] {
            assert(i > 0 && j > 0);
            assert(lex_le(x[0], x[i]));
            assert(lex_le(y[0], y[j]));
            lemma_lex_le_antisymmetric(x[0], y[0]);
        }
        assert(x.remove(0) == x.drop_first());
        assert(y.remove(0) == y.drop_first());
        lemma_sorted_drop_first(x);
        lemma_sorted_drop_first(y);
        lemma_sorted_same_elements_equal(x.drop_first(), y.drop_first());
        assert(x == seq![x[0]] + x.drop_first());
        assert(y == seq![y[0]] + y.drop_first());
    } else {
        assert(y.len() == 0);
    }
}

pub proof fn lemma_lex_le_reflexive(a: Seq<char>)
    ensures
        lex_le(a, a),
    decreases a.len(),
{
    if a.len() > 0 {
        lemma_lex_le_reflexive(a.drop_first());
    }
}

/// `lex_le` is a total order.
pub proof fn lemma_lex_le_total_ordering()
    ensures
        vstd::relations::total_ordering(|x: Seq<char>, y: Seq<char>| lex_le(x, y)),
{
    assert forall|x: Seq<char>| lex_le(x, x) by {
        lemma_lex_le_reflexive(x);
    }
    assert forall|x: Seq<char>, y: Seq<char>| lex_le(x, y) && lex_le(y, x) implies x == y by {
        lemma_lex_le_antisymmetric(x, y);
    }
    assert forall|x: Seq<char>, y: Seq<char>, z: Seq<char>|
        lex_le(x, y) && lex_le(y, z) implies lex_le(x, z) by {
        lemma_lex_le_transitive(x, y, z);
    }
    assert forall|x: Seq<char>, y: Seq<char>| lex_le(x, y) || lex_le(y, x) by {
        lemma_lex_le_total(x, y);
    }
}

/// The TXT data of the answers in sorted order.
pub open spec fn sorted_txt_records(answers: Seq<AnswerView>) -> Seq<Seq<char>> {
    txt_records(answers).sort_by(|x: Seq<char>, y: Seq<char>| lex_le(x, y))
}

/// A sorted sequence with the elements of the TXT data is the sorted TXT data.
pub proof fn lemma_sorted_txt_records_unique(r: Seq<Seq<char>>, answers: Seq<AnswerView>)
    requires
        sorted_lex(r),
        r.to_multiset() == txt_records(answers).to_multiset(),
    ensures
        r == sorted_txt_records(answers),
{
    let leq = |x: Seq<char>, y: Seq<char>| lex_le(x, y);
    lemma_lex_le_total_ordering();
    txt_records(answers).lemma_sort_by_ensures(leq);
    let s = sorted_txt_records(answers);
    assert(sorted_lex(s)) by {
        assert forall|i: int, j: int| 0 <= i < j < s.len() implies lex_le(
            #[trigger] s[i],
            #[trigger] s[j],
        ) by {
            assert(leq(s[i], s[j]));
        }
    }
    lemma_sorted_same_elements_equal(r, s);
}

/// Replicas that see the same TXT answers in different orders publish the
/// same canonical records: the sorted TXT data depends only on which TXT
/// data occur, and how often.
pub proof fn lemma_canonical_records_order_independent(a1: Seq<AnswerView>, a2: Seq<AnswerView>)
    requires
        txt_records(a1).to_multiset() == txt_records(a2).to_multiset(),
    ensures
        sorted_txt_records(a1) == sorted_txt_records(a2),
{
    let leq = |x: Seq<char>, y: Seq<char>| lex_le(x, y);
    lemma_lex_le_total_ordering();
    txt_records(a1).lemma_sort_by_ensures(leq);
    let s = sorted_txt_records(a1);
    assert(sorted_lex(s)) by {
        assert forall|i: int, j: int| 0 <= i < j < s.len() implies lex_le(
            #[trigger] s[i],
            #[trigger] s[j],
        ) by {
            assert(leq(s[i], s[j]));
        }
    }
    lemma_sorted_txt_records_unique(s, a2);
}

/// The data of the TXT answers, in order.
pub open spec fn txt_records(answers: Seq<AnswerView>) -> Seq<Seq<char>>
    decreases answers.len(),
{
    if answers.len() == 0 {
        Seq::empty()
    } else {
        let a = answers.last();
        if is_txt_data(a) {
            txt_records(answers.drop_last()).push(a.1->0)
        } else {
            txt_records(answers.drop_last())
        }
    }
}

/// Inserts `x` into a sorted vector, keeping it sorted.
fn insert_sorted(v: &mut Vec<Vec<char>>, x: Vec<char>)
    requires
        sorted_lex(old(v)@.map_values(|s: Vec<char>| s@)),
    ensures
        sorted_lex(final(v)@.map_values(|s: Vec<char>| s@)),
        final(v)@.map_values(|s: Vec<char>| s@).to_multiset() == old(v)@.map_values(
            |s: Vec<char>| s@,
        ).to_multiset().insert(x@),
{
    let ghost old_v = v@.map_values(|s: Vec<char>| s@);
    let mut k: usize = 0;
    while k < v.len() && lex_le_chars(&v[k], &x)
        invariant
            k <= v.len(),
            v@.map_values(|s: Vec<char>| s@) == old_v,
            forall|j: int| 0 <= j < k ==> lex_le(#[trigger] old_v[j], x@),
        decreases v.len() - k,
    {
        assert(old_v[k as int] == v@[k as int]@);
        k = k + 1;
    }
    let ghost xv = x@;
    proof {
        if k < v.len() {
            assert(old_v[k as int] == v@[k as int]@);
            assert(!lex_le(old_v[k as int], xv));
            lemma_lex_le_total(old_v[k as int], xv);
        }
    }
    v.insert(k, x);
    let ghost nv = v@.map_values(|s: Vec<char>| s@);
    assert(nv =~= old_v.insert(k as int, xv));
    proof {
        old_v.insert_ensures(k as int, xv);
        assert forall|i: int, j: int| 0 <= i < j < nv.len() implies lex_le(
            #[trigger] nv[i],
            #[trigger] nv[j],
        ) by {
            if j < k {
            } else if j == k {
                assert(lex_le(old_v[i], xv));
            } else if i < k {
                assert(nv[j] == old_v[j - 1]);
                assert(lex_le(old_v[i], xv));
                assert(lex_le(xv, old_v[k as int]));
                if j - 1 > k {
                    assert(lex_le(old_v[k as int], old_v[j - 1]));
                    lemma_lex_le_transitive(xv, old_v[k as int], old_v[j - 1]);
                }
                lemma_lex_le_transitive(old_v[i], xv, old_v[j - 1]);
            } else if i == k {
                assert(nv[j] == old_v[j - 1]);
                if j - 1 > k {
                    assert(lex_le(old_v[k as int], old_v[j - 1]));
                    lemma_lex_le_transitive(xv, old_v[k as int], old_v[j - 1]);
                }
            } else {
                assert(nv[i] == old_v[i - 1]);
                assert(nv[j] == old_v[j - 1]);
            }
        }
        old_v.to_multiset_ensures();
        nv.to_multiset_ensures();
        vstd::seq_lib::to_multiset_insert(old_v, k as int, xv);
    }
}

/// The TXT data of the answers in sorted order, as the response transform
/// publishes them so that every replica sees the same response.
pub fn canonical_txt_records(answers: &Vec<DohAnswer>) -> (r: Vec<String>)
    ensures
        r@.map_values(|s: String| s@) == sorted_txt_records(answers_of(answers@)),
{
    let mut sorted: Vec<Vec<char>> = Vec::new();
    let mut i: usize = 0;
    let ghost av = answers_of(answers@);
    assert(av.take(0) == Seq::<AnswerView>::empty());
    assert(sorted@.map_values(|s: Vec<char>| s@) =~= Seq::<Seq<char>>::empty());
    while i < answers.len()
        invariant
            i <= answers.len(),
            av == answers_of(answers@),
            sorted_lex(sorted@.map_values(|s: Vec<char>| s@)),
            sorted@.map_values(|s: Vec<char>| s@).to_multiset() == txt_records(
                av.take(i as int),
            ).to_multiset(),
        decreases answers.len() - i,
    {
        assert(av.take(i + 1).drop_last() == av.take(i as int));
        assert(av.take(i + 1).last() == answers@[i as int]@);
        if answers[i].record_type == Some(DNS_TYPE_TXT) {
            match &answers[i].data {
                Some(d) => {
                    let dc = chars_of(d.as_str());
                    insert_sorted(&mut sorted, dc);
                    proof {
                        txt_records(av.take(i as int)).to_multiset_ensures();
                    }
                },
                None => {},
            }
        }
        i = i + 1;
    }
    assert(av.take(answers.len() as int) == av);
    let mut r: Vec<String> = Vec::new();
    let mut j: usize = 0;
    let ghost sv = sorted@.map_values(|s: Vec<char>| s@);
    while j < sorted.len()
        invariant
            j <= sorted.len(),
            r.len() == j,
            sv == sorted@.map_values(|s: Vec<char>| s@),
            r@.map_values(|s: String| s@) == sv.take(j as int),
        decreases sorted.len() - j,
    {
        assert(sv[j as int] == sorted@[j as int]@);
        let s = string_of(&sorted[j]);
        let ghost prev = r@;
        r.push(s);
        let ghost rm = r@.map_values(|s: String| s@);
        let ghost qm = prev.map_values(|s: String| s@);
        assert forall|k: int| 0 <= k < j + 1 implies #[trigger] rm[k] == sv.take(j + 1)[k] by {
            if k < j {
                assert(qm[k] == sv.take(j as int)[k]);
            }
        }
        assert(rm =~= sv.take(j + 1));
        j = j + 1;
    }
    assert(sv.take(sorted.len() as int) == sv);
    proof {
        lemma_sorted_txt_records_unique(sv, av);
    }
    r
}

} // verus!
