//! DKIM verification of an e-mail: body hash, DNS public key, RSA signature,
//! and the steps that tie them together around the key fetch.
use crate::canon::{canonicalize_body_relaxed, canonicalize_body_simple, relaxed_body, simple_body};
use crate::crypto::{
    base64_decode, base64_decode_standard, check_rsa_public_key_der, rsa_pkcs1v15_sha256_verify,
    rsa_public_key_der, rsa_verify_pkcs1v15_sha256, sha256, sha256_digest,
};
use crate::signature::{
    message, parse_dkim_signature, spec_parse_dkim_signature, Canon, DkimSignature,
    SpecDkimSignature,
};
use crate::signing::{build_signing_input, signing_input};
use crate::smtp::SmtpHeader;
use crate::strings::{chars_of, string_of};
use crate::text::{
    chars_eq, chars_eq_ignore_ascii_case, eq_ignore_ascii_case, find_char, index_of_char,
    remove_delims, split_by, split_chars, subrange, trim, trim_chars, Delim,
};
use vstd::prelude::*;
use vstd::utf8::encode_utf8;

verus! {

/// The body as the signature's body canonicalization makes it.
pub open spec fn canonical_body(raw: Seq<u8>, sig: SpecDkimSignature) -> Seq<u8> {
    match sig.body_canon {
        Canon::Simple => simple_body(raw),
        Canon::Relaxed => relaxed_body(raw),
    }
}

/// The part of the canonical body that is hashed: all of it, or its first
/// `l=` bytes.
pub open spec fn hashed_body(raw: Seq<u8>, sig: SpecDkimSignature) -> Seq<u8> {
    let c = canonical_body(raw, sig);
    match sig.body_length {
        Some(len) => if len < c.len() {
            c.take(len as int)
        } else {
            c
        },
        None => c,
    }
}

/// The bytes that the body hash covers: without `l=`, the whole body in the
/// signature's body canonicalization (simple or relaxed); with `l=`, the first
/// `l` bytes of it (all of it when it is shorter). Either way they are in
/// canonical form: canonicalizing them again changes nothing.
pub proof fn lemma_hashed_body_canonicalization(raw: Seq<u8>, sig: SpecDkimSignature)
    ensures
        sig.body_canon == Canon::Simple && sig.body_length is None ==> hashed_body(raw, sig)
            == simple_body(raw) && simple_body(hashed_body(raw, sig)) == hashed_body(raw, sig),
        sig.body_canon == Canon::Relaxed && sig.body_length is None ==> hashed_body(raw, sig)
            == relaxed_body(raw) && relaxed_body(hashed_body(raw, sig)) == hashed_body(raw, sig),
        sig.body_length matches Some(len) ==> {
            let c = if sig.body_canon == Canon::Simple {
                simple_body(raw)
            } else {
                relaxed_body(raw)
            };
            &&& hashed_body(raw, sig).len() == if len < c.len() { len as int } else { c.len() as int }
            &&& hashed_body(raw, sig) == c.take(hashed_body(raw, sig).len() as int)
        },
{
    crate::canon::lemma_simple_body_canonical(raw);
    crate::canon::lemma_relaxed_body_canonical(raw);
    let c = canonical_body(raw, sig);
    assert(c.take(c.len() as int) == c);
}

pub open spec fn body_hash_matches(raw: Seq<u8>, sig: SpecDkimSignature) -> bool {
    sha256(hashed_body(raw, sig)) == sig.body_hash
}

fn bytes_eq(a: &[u8], b: &[u8]) -> (r: bool)
    ensures
        r == (a@ == b@),
{
    if a.len() != b.len() {
        return false;
    }
    let mut i: usize = 0;
    while i < a.len()
        invariant
            a.len() == b.len(),
            i <= a.len(),
            forall|j: int| 0 <= j < i ==> a@[j] == b@[j],
        decreases a.len() - i,
    {
        if a[i] != b[i] {
            return false;
        }
        i = i + 1;
    }
    assert(a@ == b@);
    true
}

/// Checks the body hash: the SHA-256 digest of the canonicalized body, cut to
/// the `l=` length when there is one, must equal the `bh=` value.
pub fn verify_body_hash(raw_body: &[u8], sig: &DkimSignature) -> (r: Result<(), String>)
    ensures
        r is Ok <==> body_hash_matches(raw_body@, sig@),
        r matches Err(e) ==> e@ == "Body hash does not match"@,
{
    let canonicalized = match sig.body_canon {
        Canon::Simple => canonicalize_body_simple(raw_body),
        Canon::Relaxed => canonicalize_body_relaxed(raw_body),
    };
    let n = match sig.body_length {
        Some(len) => if len < canonicalized.len() {
            len
        } else {
            canonicalized.len()
        },
        None => canonicalized.len(),
    };
    let mut body_to_hash: Vec<u8> = Vec::new();
    crate::canon::extend_bytes_prefix(&mut body_to_hash, &canonicalized, n);
    assert(canonicalized@.take(canonicalized@.len() as int) == canonicalized@);
    let computed = sha256_digest(&body_to_hash);
    if !bytes_eq(&computed, &sig.body_hash) {
        return Err(string_of(&chars_of("Body hash does not match")));
    }
    Ok(())
}

/// An RSA public key from a DKIM DNS record, kept as its DER encoding
/// (SubjectPublicKeyInfo), which `rsa` accepts.
pub struct DkimPublicKey {
    der: Vec<u8>,
}

impl DkimPublicKey {
    #[verifier::type_invariant]
    spec fn well_formed(self) -> bool {
        rsa_public_key_der(self.der@) is Ok
    }
}

impl View for DkimPublicKey {
    type V = Seq<u8>;

    closed spec fn view(&self) -> Seq<u8> {
        self.der@
    }
}

/// What `verify_rsa_sha256` answers.
pub open spec fn rsa_sha256_result(key: Seq<u8>, input: Seq<u8>, signature: Seq<u8>) -> Result<
    (),
    Seq<char>,
> {
    match rsa_pkcs1v15_sha256_verify(key, sha256(input), signature) {
        Ok(()) => Ok(()),
        Err(e) => Err("RSA verification failed: "@ + e),
    }
}

/// Checks an RSASSA-PKCS1-v1_5 signature with SHA-256 over `signing_input`.
pub fn verify_rsa_sha256(signing_input: &[u8], signature: &[u8], public_key: &DkimPublicKey) -> (r:
    Result<(), String>)
    ensures
        match r {
            Ok(()) => rsa_sha256_result(public_key@, signing_input@, signature@) == Ok::<
                (),
                Seq<char>,
            >(()),
            Err(e) => rsa_sha256_result(public_key@, signing_input@, signature@) == Err::<
                (),
                Seq<char>,
            >(e@),
        },
{
    proof {
        use_type_invariant(public_key);
    }
    let hashed = sha256_digest(signing_input);
    match rsa_verify_pkcs1v15_sha256(&public_key.der, &hashed, signature) {
        Ok(()) => Ok(()),
        Err(e) => {
            let detail = chars_of(e.as_str());
            Err(message("RSA verification failed: ", &detail))
        },
    }
}

/// The `p=` value of a DKIM DNS record: that of the last item whose tag is `p`,
/// without whitespace.
pub open spec fn p_tag_of(parts: Seq<Seq<char>>) -> Option<Seq<char>>
    decreases parts.len(),
{
    if parts.len() == 0 {
        None
    } else {
        let prev = p_tag_of(parts.drop_last());
        let part = trim(parts.last());
        match find_char(part, '=') {
            Some(i) => if trim(part.take(i)) == "p"@ {
                Some(remove_delims(trim(part.skip(i + 1)), Delim::Whitespace))
            } else {
                prev
            },
            None => prev,
        }
    }
}

/// What `parse_dkim_public_key` gives: the key's DER bytes, or the error.
pub open spec fn spec_parse_dkim_public_key(txt: Seq<char>) -> Result<Seq<u8>, Seq<char>> {
    match p_tag_of(split_by(txt, Delim::Char(';'))) {
        None => Err("Missing p= tag in DKIM DNS record"@),
        Some(p) => match base64_decode(encode_utf8(p)) {
            Err(e) => Err("Invalid base64 in DKIM public key: "@ + e),
            Ok(der) => match rsa_public_key_der(der) {
                Err(e) => Err("Invalid DKIM public key DER: "@ + e),
                Ok(()) => Ok(der),
            },
        },
    }
}

/// Parses a DKIM DNS TXT record value (e.g. "v=DKIM1; k=rsa; p=MIGfMA0G...")
/// into an RSA public key.
pub fn parse_dkim_public_key(txt_record: &str) -> (r: Result<DkimPublicKey, String>)
    ensures
        match r {
            Ok(k) => spec_parse_dkim_public_key(txt_record@) == Ok::<Seq<u8>, Seq<char>>(k@),
            Err(e) => spec_parse_dkim_public_key(txt_record@) == Err::<Seq<u8>, Seq<char>>(e@),
        },
{
    let chars = chars_of(txt_record);
    let parts = split_chars(&chars, Delim::Char(';'));
    let ghost pv = parts@.map_values(|v: Vec<char>| v@);
    let mut p_value: Option<Vec<char>> = None;
    let mut i: usize = 0;
    let p_name = chars_of("p");
    assert(pv.take(0) == Seq::<Seq<char>>::empty());
    while i < parts.len()
        invariant
            i <= parts.len(),
            pv == parts@.map_values(|v: Vec<char>| v@),
            p_name@ == "p"@,
            match p_value {
                Some(v) => p_tag_of(pv.take(i as int)) == Some(v@),
                None => p_tag_of(pv.take(i as int)) is None,
            },
        decreases parts.len() - i,
    {
        assert(pv.take(i + 1).drop_last() == pv.take(i as int));
        assert(pv.take(i + 1).last() == parts@[i as int]@);
        let part = trim_chars(&parts[i]);
        match index_of_char(&part, '=') {
            Some(k) => {
                let key = subrange(&part, 0, k);
                let val = subrange(&part, k + 1, part.len());
                assert(key@ == part@.take(k as int));
                assert(val@ == part@.skip(k + 1));
                let key = trim_chars(&key);
                if chars_eq(&key, &p_name) {
                    let val = trim_chars(&val);
                    p_value = Some(crate::canon::remove_delim_chars(&val, Delim::Whitespace));
                }
            },
            None => {},
        }
        i = i + 1;
    }
    assert(pv.take(parts.len() as int) == pv);
    let p = match p_value {
        Some(p) => p,
        None => {
            return Err(string_of(&chars_of("Missing p= tag in DKIM DNS record")));
        },
    };
    let p_string = string_of(&p);
    let der = match base64_decode_standard(p_string.as_str().as_bytes()) {
        Ok(d) => d,
        Err(e) => {
            let detail = chars_of(e.as_str());
            return Err(message("Invalid base64 in DKIM public key: ", &detail));
        },
    };
    match check_rsa_public_key_der(&der) {
        Ok(()) => Ok(DkimPublicKey { der }),
        Err(e) => {
            let detail = chars_of(e.as_str());
            Err(message("Invalid DKIM public key DER: ", &detail))
        },
    }
}

/// The outcome of DKIM verification of an e-mail.
#[derive(Clone, Debug)]
pub enum DkimVerificationStatus {
    Verified,
    Unverified { reason: String },
}

/// The mathematical value of a `DkimVerificationStatus`.
pub ghost enum SpecDkimStatus {
    Verified,
    Unverified(Seq<char>),
}

impl View for DkimVerificationStatus {
    type V = SpecDkimStatus;

    open spec fn view(&self) -> SpecDkimStatus {
        match self {
            DkimVerificationStatus::Verified => SpecDkimStatus::Verified,
            DkimVerificationStatus::Unverified { reason } => SpecDkimStatus::Unverified(reason@),
        }
    }
}

fn unverified_with(reason: &[char]) -> (r: DkimVerificationStatus)
    ensures
        r@ == SpecDkimStatus::Unverified(reason@),
{
    let reason = string_of(reason);
    DkimVerificationStatus::Unverified { reason }
}

fn unverified(prefix: &str, detail: &[char]) -> (r: DkimVerificationStatus)
    ensures
        r@ == SpecDkimStatus::Unverified(prefix@ + detail@),
{
    DkimVerificationStatus::Unverified { reason: message(prefix, detail) }
}

/// Index of the first header named DKIM-Signature (in any ASCII case).
pub open spec fn dkim_header_index(headers: Seq<SmtpHeader>) -> Option<int>
    decreases headers.len(),
{
    if headers.len() == 0 {
        None
    } else if eq_ignore_ascii_case(headers[0].name@, "dkim-signature"@) {
        Some(0)
    } else {
        match dkim_header_index(headers.drop_first()) {
            Some(i) => Some(i + 1),
            None => None,
        }
    }
}

/// The DKIM-Signature header that verification reads is the first one: the
/// index found names a header called DKIM-Signature (in any ASCII case), and
/// no header before it is so called; when none is found, no header is.
pub proof fn lemma_dkim_header_index_is_first(headers: Seq<SmtpHeader>)
    ensures
        match dkim_header_index(headers) {
            Some(i) => {
                &&& 0 <= i < headers.len()
                &&& eq_ignore_ascii_case(headers[i].name@, "dkim-signature"@)
                &&& forall|j: int|
                    0 <= j < i ==> !eq_ignore_ascii_case(#[trigger] headers[j].name@, "dkim-signature"@)
            },
            None => forall|j: int|
                0 <= j < headers.len() ==> !eq_ignore_ascii_case(
                    #[trigger] headers[j].name@,
                    "dkim-signature"@,
                ),
        },
    decreases headers.len(),
{
    if headers.len() > 0 && !eq_ignore_ascii_case(headers[0].name@, "dkim-signature"@) {
        let t = headers.drop_first();
        lemma_dkim_header_index_is_first(t);
        assert forall|j: int| 1 <= j < headers.len() implies headers[j] == t[j - 1] by {}
        match dkim_header_index(t) {
            Some(i) => {
                assert forall|j: int| 0 <= j < i + 1 implies !eq_ignore_ascii_case(
                    #[trigger] headers[j].name@,
                    "dkim-signature"@,
                ) by {
                    if j > 0 {
                        assert(headers[j] == t[j - 1]);
                    }
                }
            },
            None => {
                assert forall|j: int| 0 <= j < headers.len() implies !eq_ignore_ascii_case(
                    #[trigger] headers[j].name@,
                    "dkim-signature"@,
                ) by {
                    if j > 0 {
                        assert(headers[j] == t[j - 1]);
                    }
                }
            },
        }
    }
}

/// The headers that the signature must cover, in the order they are checked.
pub open spec fn required_signed_headers() -> Seq<Seq<char>> {
    seq!["from"@, "to"@, "subject"@]
}

/// The first of `required` that is not among `signed`.
pub open spec fn first_missing(required: Seq<Seq<char>>, signed: Seq<Seq<char>>) -> Option<
    Seq<char>,
>
    decreases required.len(),
{
    if required.len() == 0 {
        None
    } else if !signed.contains(required[0]) {
        Some(required[0])
    } else {
        first_missing(required.drop_first(), signed)
    }
}

/// A verification that has passed every check that needs no public key, and
/// waits for the key of `signature.selector` at `signature.domain`.
#[derive(Clone, Debug)]
pub struct PendingDkimVerification {
    pub dkim_header_value: String,
    pub signature: DkimSignature,
}

/// Where a verification stands before the key is fetched.
#[derive(Clone, Debug)]
pub enum DkimVerificationStep {
    Done(DkimVerificationStatus),
    FetchKey(PendingDkimVerification),
}

/// The mathematical value of a `DkimVerificationStep`.
pub ghost enum SpecDkimStep {
    Done(SpecDkimStatus),
    FetchKey(Seq<char>, SpecDkimSignature),
}

impl View for DkimVerificationStep {
    type V = SpecDkimStep;

    open spec fn view(&self) -> SpecDkimStep {
        match self {
            DkimVerificationStep::Done(s) => SpecDkimStep::Done(s@),
            DkimVerificationStep::FetchKey(p) => SpecDkimStep::FetchKey(
                p.dkim_header_value@,
                p.signature@,
            ),
        }
    }
}

/// The checks that precede the key fetch: a DKIM-Signature header exists and
/// parses, its algorithm is rsa-sha256, it signs From, To and Subject, and the
/// body hash matches.
pub open spec fn spec_start_dkim_verification(headers: Seq<SmtpHeader>, raw_body: Seq<u8>) -> SpecDkimStep {
    match dkim_header_index(headers) {
        None => SpecDkimStep::Done(SpecDkimStatus::Unverified("No DKIM-Signature header"@)),
        Some(i) => match spec_parse_dkim_signature(headers[i].value@) {
            Err(e) => SpecDkimStep::Done(
                SpecDkimStatus::Unverified("Failed to parse DKIM-Signature: "@ + e),
            ),
            Ok(sig) => if sig.algorithm != "rsa-sha256"@ {
                SpecDkimStep::Done(
                    SpecDkimStatus::Unverified("Unsupported algorithm: "@ + sig.algorithm),
                )
            } else {
                match first_missing(required_signed_headers(), sig.signed_headers) {
                    Some(req) => SpecDkimStep::Done(
                        SpecDkimStatus::Unverified(
                            "Required header '"@ + req + "' not in DKIM-signed headers"@,
                        ),
                    ),
                    None => {
                        if body_hash_matches(raw_body, sig) {
                            SpecDkimStep::FetchKey(headers[i].value@, sig)
                        } else {
                            SpecDkimStep::Done(
                                SpecDkimStatus::Unverified(
                                    "Body hash mismatch: "@ + "Body hash does not match"@,
                                ),
                            )
                        }
                    },
                }
            }
        },
    }
}

/// A key is fetched only for the first DKIM-Signature header, and only when
/// it parses, uses rsa-sha256, and its body hash matches the body; the
/// pending verification carries that header's value and its parsed form.
pub proof fn lemma_key_fetched_for_first_signature(headers: Seq<SmtpHeader>, raw_body: Seq<u8>)
    requires
        spec_start_dkim_verification(headers, raw_body) is FetchKey,
    ensures
        ({
            let value = spec_start_dkim_verification(headers, raw_body)->FetchKey_0;
            let sig = spec_start_dkim_verification(headers, raw_body)->FetchKey_1;
            exists|i: int|
                0 <= i < headers.len() && eq_ignore_ascii_case(
                    #[trigger] headers[i].name@,
                    "dkim-signature"@,
                ) && (forall|j: int|
                    0 <= j < i ==> !eq_ignore_ascii_case(
                        #[trigger] headers[j].name@,
                        "dkim-signature"@,
                    )) && value == headers[i].value@
        }),
        spec_parse_dkim_signature(spec_start_dkim_verification(headers, raw_body)->FetchKey_0)
            == Ok::<SpecDkimSignature, Seq<char>>(
            spec_start_dkim_verification(headers, raw_body)->FetchKey_1,
        ),
        spec_start_dkim_verification(headers, raw_body)->FetchKey_1.algorithm == "rsa-sha256"@,
        body_hash_matches(raw_body, spec_start_dkim_verification(headers, raw_body)->FetchKey_1),
{
    lemma_dkim_header_index_is_first(headers);
    let i = dkim_header_index(headers)->Some_0;
    assert(eq_ignore_ascii_case(headers[i].name@, "dkim-signature"@));
}

/// The outcome once the key fetch has answered.
pub open spec fn spec_finish_dkim_verification(
    headers: Seq<SmtpHeader>,
    dkim_header_value: Seq<char>,
    sig: SpecDkimSignature,
    key: Result<Seq<u8>, Seq<char>>,
) -> SpecDkimStatus {
    match key {
        Err(e) => SpecDkimStatus::Unverified("Failed to fetch DKIM key: "@ + e),
        Ok(k) => match rsa_sha256_result(
            k,
            signing_input(headers, dkim_header_value, sig),
            sig.signature,
        ) {
            Ok(()) => SpecDkimStatus::Verified,
            Err(e) => SpecDkimStatus::Unverified("Signature verification failed: "@ + e),
        },
    }
}

fn find_dkim_header(headers: &[SmtpHeader]) -> (r: Option<usize>)
    ensures
        match r {
            Some(i) => i < headers.len() && dkim_header_index(headers@) == Some(i as int),
            None => dkim_header_index(headers@) is None,
        },
{
    let target = chars_of("dkim-signature");
    let mut i: usize = 0;
    assert(headers@.skip(0) == headers@);
    while i < headers.len()
        invariant
            i <= headers.len(),
            target@ == "dkim-signature"@,
            dkim_header_index(headers@) == match dkim_header_index(headers@.skip(i as int)) {
                Some(k) => Some(k + i),
                None => None,
            },
        decreases headers.len() - i,
    {
        assert(headers@.skip(i as int)[0] == headers@[i as int]);
        let n = chars_of(headers[i].name.as_str());
        if chars_eq_ignore_ascii_case(&n, &target) {
            return Some(i);
        }
        assert(headers@.skip(i as int).drop_first() == headers@.skip(i + 1));
        i = i + 1;
    }
    None
}

fn contains_string(list: &Vec<String>, x: &str) -> (r: bool)
    ensures
        r == list@.map_values(|s: String| s@).contains(x@),
{
    let xc = chars_of(x);
    let ghost lv = list@.map_values(|s: String| s@);
    let mut i: usize = 0;
    while i < list.len()
        invariant
            i <= list.len(),
            lv == list@.map_values(|s: String| s@),
            xc@ == x@,
            forall|j: int| 0 <= j < i ==> lv[j] != x@,
        decreases list.len() - i,
    {
        let c = chars_of(list[i].as_str());
        if chars_eq(&c, &xc) {
            assert(lv[i as int] == x@);
            return true;
        }
        i = i + 1;
    }
    false
}

/// Runs the checks of a DKIM verification that come before the public key:
/// either the verification is over, or the key of the signature's selector
/// and domain is needed next.
pub fn start_dkim_verification(headers: &[SmtpHeader], raw_body: &[u8]) -> (r: DkimVerificationStep)
    ensures
        r@ == spec_start_dkim_verification(headers@, raw_body@),
{
    let idx = match find_dkim_header(headers) {
        Some(i) => i,
        None => {
            return DkimVerificationStep::Done(unverified_with(&chars_of("No DKIM-Signature header")));
        },
    };
    let value = &headers[idx].value;
    let sig = match parse_dkim_signature(value.as_str()) {
        Ok(s) => s,
        Err(e) => {
            let detail = chars_of(e.as_str());
            return DkimVerificationStep::Done(
                unverified("Failed to parse DKIM-Signature: ", &detail),
            );
        },
    };
    let alg = chars_of(sig.algorithm.as_str());
    let rsa_sha256 = chars_of("rsa-sha256");
    if !chars_eq(&alg, &rsa_sha256) {
        return DkimVerificationStep::Done(unverified("Unsupported algorithm: ", &alg));
    }
    let ghost signed = sig@.signed_headers;
    let ghost req = required_signed_headers();
    assert(req.drop_first() == seq!["to"@, "subject"@]);
    assert(req.drop_first().drop_first() == seq!["subject"@]);
    assert(req.drop_first().drop_first().drop_first().len() == 0);
    proof {
        reveal_with_fuel(first_missing, 4);
    }
    if !contains_string(&sig.signed_headers, "from") {
        let d = chars_of("from");
        let reason = crate::text::concat3(
            &chars_of("Required header '"),
            &d,
            &chars_of("' not in DKIM-signed headers"),
        );
        return DkimVerificationStep::Done(unverified_with(&reason));
    }
    if !contains_string(&sig.signed_headers, "to") {
        let d = chars_of("to");
        let reason = crate::text::concat3(
            &chars_of("Required header '"),
            &d,
            &chars_of("' not in DKIM-signed headers"),
        );
        return DkimVerificationStep::Done(unverified_with(&reason));
    }
    if !contains_string(&sig.signed_headers, "subject") {
        let d = chars_of("subject");
        let reason = crate::text::concat3(
            &chars_of("Required header '"),
            &d,
            &chars_of("' not in DKIM-signed headers"),
        );
        return DkimVerificationStep::Done(unverified_with(&reason));
    }
    match verify_body_hash(raw_body, &sig) {
        Ok(()) => {},
        Err(e) => {
            let detail = chars_of(e.as_str());
            return DkimVerificationStep::Done(unverified("Body hash mismatch: ", &detail));
        },
    }
    let dkim_header_value = string_of(&chars_of(value.as_str()));
    DkimVerificationStep::FetchKey(PendingDkimVerification { dkim_header_value, signature: sig })
}

/// The whole verification of an e-mail, given what the key fetch answered.
pub open spec fn spec_verify_email_dkim(
    headers: Seq<SmtpHeader>,
    raw_body: Seq<u8>,
    key: Result<Seq<u8>, Seq<char>>,
) -> SpecDkimStatus {
    match spec_start_dkim_verification(headers, raw_body) {
        SpecDkimStep::Done(s) => s,
        SpecDkimStep::FetchKey(v, sig) => spec_finish_dkim_verification(headers, v, sig, key),
    }
}

/// An e-mail is reported verified only when its first DKIM-Signature header
/// parses, names rsa-sha256, signs From, To and Subject, the body hash
/// matches, a key was obtained, and the RSA signature over the signing input
/// verifies with that key.
pub proof fn lemma_verified_requires_every_check(
    headers: Seq<SmtpHeader>,
    raw_body: Seq<u8>,
    key: Result<Seq<u8>, Seq<char>>,
)
    requires
        spec_verify_email_dkim(headers, raw_body, key) == SpecDkimStatus::Verified,
    ensures
        dkim_header_index(headers) is Some,
        spec_parse_dkim_signature(headers[dkim_header_index(headers)->0].value@) is Ok,
        key is Ok,
        ({
            let v = headers[dkim_header_index(headers)->0].value@;
            let sig = spec_parse_dkim_signature(v)->Ok_0;
            &&& sig.algorithm == "rsa-sha256"@
            &&& sig.signed_headers.contains("from"@)
            &&& sig.signed_headers.contains("to"@)
            &&& sig.signed_headers.contains("subject"@)
            &&& body_hash_matches(raw_body, sig)
            &&& rsa_pkcs1v15_sha256_verify(
                key->Ok_0,
                sha256(signing_input(headers, v, sig)),
                sig.signature,
            ) is Ok
        }),
{
    reveal_with_fuel(first_missing, 4);
    let req = required_signed_headers();
    assert(req.drop_first() == seq!["to"@, "subject"@]);
    assert(req.drop_first().drop_first() == seq!["subject"@]);
    assert(req.drop_first().drop_first().drop_first().len() == 0);
}

pub open spec fn key_view(key: Result<DkimPublicKey, String>) -> Result<Seq<u8>, Seq<char>> {
    match key {
        Ok(k) => Ok(k@),
        Err(e) => Err(e@),
    }
}

/// Completes a DKIM verification with the outcome of the key fetch: the
/// signature must verify over the reconstructed signing input.
pub fn finish_dkim_verification(
    headers: &[SmtpHeader],
    pending: &PendingDkimVerification,
    key: Result<DkimPublicKey, String>,
) -> (r: DkimVerificationStatus)
    ensures
        r@ == spec_finish_dkim_verification(
            headers@,
            pending.dkim_header_value@,
            pending.signature@,
            key_view(key),
        ),
{
    let public_key = match key {
        Ok(k) => k,
        Err(e) => {
            let detail = chars_of(e.as_str());
            return unverified("Failed to fetch DKIM key: ", &detail);
        },
    };
    let signing_input = build_signing_input(
        headers,
        pending.dkim_header_value.as_str(),
        &pending.signature,
    );
    match verify_rsa_sha256(&signing_input, &pending.signature.signature, &public_key) {
        Ok(()) => DkimVerificationStatus::Verified,
        Err(e) => {
            let detail = chars_of(e.as_str());
            unverified("Signature verification failed: ", &detail)
        },
    }
}

} // verus!
