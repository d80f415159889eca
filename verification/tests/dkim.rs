use internet_identity::canon::{
    canonicalize_body_relaxed, canonicalize_body_simple, canonicalize_header_relaxed,
};
use internet_identity::dkim::{
    finish_dkim_verification, parse_dkim_public_key, start_dkim_verification,
    verify_body_hash, verify_rsa_sha256, DkimVerificationStatus, DkimVerificationStep,
};
use internet_identity::doh::{
    canonical_doh_response, canonical_txt_records, dkim_key_from_doh_answers,
    dkim_key_from_doh_body, dkim_query_name, dkim_txt_record, doh_query_url, DohAnswer,
};
use internet_identity::signature::{parse_canonicalization, parse_dkim_signature, Canon};
use internet_identity::signing::{build_signing_input, strip_b_value};
use internet_identity::smtp::SmtpHeader;

const KEY_P: &str = "MIGfMA0GCSqGSIb3DQEBAQUAA4GNADCBiQKBgQDlL45X9SqA0YintBjucuPuR1/mdc+Nqp6H2DqHsOagtFsjDx6OvWI4thXN2ASXfCdxOMjD8hbu43xYIPrddWl9r1arpbAkzXr878vdAMWtTluqWZKGP7vm56f2dAbXW+E8x5HC92yNaYKiIeZIu4hESE1zyVuNTEJSjgEt02Xe+wIDAQAB";
const SIGNED_DKIM: &str = "v=1; a=rsa-sha256; c=simple/simple; d=example.com; s=sel; h=from:to:subject; bh=WW1FSS/hyzxJzoCGF0pVaNWkNPLk/N0U80m2GGH/yJU=; b=f9oZgxaJYTe6PSb3fHFPH50RgO2t0ljKcBznWYsO3WwRYju05jITGl5BLdeNC5vJgMEtvAmaGWi9vJ7rXbNgYQ0EPaov71mF1gt8QtwRIJ1wCRxSI1Gk/7YnBghHvIQnAaovhot40qSxMRWONCleCJjeJ7HkI63zOxV6gbUB0RI=";
const SIGNED_BODY: &[u8] = b"Hi there,\r\nthis is a test.\r\n\r\n\r\n";

fn header(name: &str, value: &str) -> SmtpHeader {
    SmtpHeader { name: name.to_string(), value: value.to_string() }
}

fn signed_headers() -> Vec<SmtpHeader> {
    vec![
        header("From", "Alice <alice@example.com>"),
        header("To", "12345@id.ai"),
        header("Subject", "Hello"),
        header("Date", "Mon, 1 Jan 2024 00:00:00 +0000"),
        header("DKIM-Signature", SIGNED_DKIM),
    ]
}

fn key_record() -> String {
    format!("v=DKIM1; k=rsa; p={KEY_P}")
}

fn reason(s: &DkimVerificationStatus) -> String {
    match s {
        DkimVerificationStatus::Verified => "verified".to_string(),
        DkimVerificationStatus::Unverified { reason } => reason.clone(),
    }
}

fn done_reason(step: &DkimVerificationStep) -> String {
    match step {
        DkimVerificationStep::Done(s) => reason(s),
        DkimVerificationStep::FetchKey(_) => "fetch key".to_string(),
    }
}

#[test]
fn test_parse_dkim_signature() {
    let value = "v=1; a=rsa-sha256; d=example.com; s=selector1; \
                  h=from:to:subject:date; \
                  bh=MTIzNDU2Nzg5MDEyMzQ1Njc4OTAxMjM0NTY3ODkwMTI=; \
                  b=dGVzdA==";
    let sig = parse_dkim_signature(value).unwrap();
    assert_eq!(sig.algorithm, "rsa-sha256");
    assert_eq!(sig.domain, "example.com");
    assert_eq!(sig.selector, "selector1");
    assert_eq!(sig.signed_headers, vec!["from", "to", "subject", "date"]);
}

#[test]
fn test_parse_dkim_signature_with_canonicalization() {
    let value = "v=1; a=rsa-sha256; c=relaxed/relaxed; d=gmail.com; s=20230601; \
                  h=from:to:subject; bh=dGVzdA==; b=dGVzdA==";
    let sig = parse_dkim_signature(value).unwrap();
    assert!(matches!(sig.header_canon, Canon::Relaxed));
    assert!(matches!(sig.body_canon, Canon::Relaxed));
}

#[test]
fn test_strip_b_value() {
    assert_eq!(
        strip_b_value("v=1; a=rsa-sha256; b=abc123; d=example.com"),
        "v=1; a=rsa-sha256; b=; d=example.com"
    );
    // bh= should not be affected
    assert_eq!(strip_b_value("bh=hashvalue; b=sigvalue"), "bh=hashvalue; b=");
}

#[test]
fn test_canonicalize_header_relaxed() {
    assert_eq!(
        canonicalize_header_relaxed("From", "  John  Doe  <john@example.com>  "),
        "from:John Doe <john@example.com>"
    );
}

#[test]
fn test_canonicalize_body_simple_trailing_empty_lines() {
    let body = b"hello\r\n\r\n\r\n";
    let result = canonicalize_body_simple(body);
    assert_eq!(result, b"hello\r\n");
}

#[test]
fn test_canonicalize_body_simple_empty() {
    let result = canonicalize_body_simple(b"");
    assert_eq!(result, b"\r\n");
}

#[test]
fn test_parse_dkim_public_key_missing_p() {
    let result = parse_dkim_public_key("v=DKIM1; k=rsa");
    assert!(result.is_err());
}

#[test]
fn parse_signature_defaults_and_body_length() {
    let sig = parse_dkim_signature("V=1; a=rsa-sha256; d=x.org; s=s1; h= From : TO ; bh=AAAA; b=A A A A; l=+12").unwrap();
    assert_eq!(sig.header_canon, Canon::Simple);
    assert_eq!(sig.body_canon, Canon::Simple);
    assert_eq!(sig.signed_headers, vec!["from", "to"]);
    assert_eq!(sig.body_hash, vec![0u8, 0, 0]);
    assert_eq!(sig.signature, vec![0u8, 0, 0]);
    assert_eq!(sig.body_length, Some(12));
    let sig = parse_dkim_signature("v=1; a=x; d=y; s=z; h=a; bh=; b=; c=relaxed").unwrap();
    assert_eq!(sig.header_canon, Canon::Relaxed);
    assert_eq!(sig.body_canon, Canon::Simple);
    assert_eq!(sig.body_length, None);
    assert!(sig.body_hash.is_empty());
}

#[test]
fn parse_signature_errors() {
    assert_eq!(parse_dkim_signature("v=1; junk").unwrap_err(), "Invalid tag: junk");
    assert_eq!(parse_dkim_signature("a=rsa-sha256").unwrap_err(), "Missing DKIM tag: v");
    assert_eq!(parse_dkim_signature("v=2").unwrap_err(), "Unsupported DKIM version: 2");
    assert_eq!(parse_dkim_signature("v=1; a=x; d=y; s=z; h=a; bh=AAAA").unwrap_err(), "Missing DKIM tag: b");
    assert!(parse_dkim_signature("v=1; a=x; d=y; s=z; h=a; bh=@@@@; b=AAAA")
        .unwrap_err()
        .starts_with("Invalid base64 in bh: "));
    assert!(parse_dkim_signature("v=1; a=x; d=y; s=z; h=a; bh=AAAA; b=A")
        .unwrap_err()
        .starts_with("Invalid base64 in b: "));
    assert_eq!(
        parse_dkim_signature("v=1; a=x; d=y; s=z; h=a; bh=; b=; c=fancy").unwrap_err(),
        "Unknown header canonicalization: fancy"
    );
    assert!(parse_dkim_signature("v=1; a=x; d=y; s=z; h=a; bh=; b=; l=-1")
        .unwrap_err()
        .starts_with("Invalid body length: "));
}

#[test]
fn parse_canonicalization_pairs() {
    assert_eq!(parse_canonicalization("relaxed/simple").unwrap(), (Canon::Relaxed, Canon::Simple));
    assert_eq!(parse_canonicalization(" simple / relaxed ").unwrap(), (Canon::Simple, Canon::Relaxed));
    assert_eq!(parse_canonicalization("simple").unwrap(), (Canon::Simple, Canon::Simple));
    assert_eq!(
        parse_canonicalization("simple/other").unwrap_err(),
        "Unknown body canonicalization: other"
    );
}

#[test]
fn relaxed_body_canonicalization() {
    assert_eq!(canonicalize_body_relaxed(b" a \t b  \r\nc\t\r\n\r\n\r\n"), b" a b\r\nc\r\n");
    assert_eq!(canonicalize_body_relaxed(b" a\r\n"), b" a\r\n");
    assert_eq!(canonicalize_body_relaxed(b"\t\t a\r\n  \r\n"), b" a\r\n");
    assert_eq!(canonicalize_body_relaxed(b""), b"\r\n");
    assert_eq!(canonicalize_body_relaxed(b"x"), b"x\r\n");
    let once = canonicalize_body_relaxed(b"  x  y \r\n\r\nz\t\r\n\r\n");
    assert_eq!(canonicalize_body_relaxed(&once), once);
}

#[test]
fn simple_body_canonicalization_is_idempotent() {
    let once = canonicalize_body_simple(b"abc\r\n\r\n");
    assert_eq!(once, b"abc\r\n");
    assert_eq!(canonicalize_body_simple(&once), once);
    assert_eq!(canonicalize_body_simple(b"abc"), b"abc\r\n");
    assert_eq!(canonicalize_body_simple(b"\r\n\r\n"), b"\r\n");
}

#[test]
fn relaxed_header_unfolds() {
    assert_eq!(canonicalize_header_relaxed("Subject", "a\r\n b\n\tc "), "subject:a b c");
}

#[test]
fn strip_b_value_cases() {
    assert_eq!(strip_b_value("a=xb=1; b=2; c=3"), "a=xb=1; b=; c=3");
    assert_eq!(strip_b_value("v=1; b=abc"), "v=1; b=");
    assert_eq!(strip_b_value("no tag here"), "no tag here");
    assert_eq!(strip_b_value("x=ab=b=1"), "x=ab=b=1");
    assert_eq!(strip_b_value("x=ab=1; b=2"), "x=ab=1; b=");
    let once = strip_b_value("v=1;b=abc;d=e");
    assert_eq!(once, "v=1;b=;d=e");
    assert_eq!(strip_b_value(&once), once);
}

#[test]
fn body_hash_checks() {
    let sig = parse_dkim_signature(SIGNED_DKIM).unwrap();
    assert!(verify_body_hash(SIGNED_BODY, &sig).is_ok());
    assert_eq!(verify_body_hash(b"other", &sig).unwrap_err(), "Body hash does not match");
}

#[test]
fn signing_input_simple() {
    let headers = vec![
        header("X", "1"),
        header("from", "first"),
        header("FROM", "second"),
        header("DKIM-Signature", "v=1; h=from:from:from; b=zz"),
    ];
    let sig = parse_dkim_signature("v=1; a=rsa-sha256; d=d; s=s; h=from:from:from:missing; bh=; b=").unwrap();
    let input = build_signing_input(&headers, "v=1; h=from:from:from; b=zz", &sig);
    assert_eq!(
        String::from_utf8(input).unwrap(),
        "FROM: second\r\nfrom: first\r\nDKIM-Signature: v=1; h=from:from:from; b="
    );
}

#[test]
fn signing_input_relaxed() {
    let headers = vec![header("Subject", "  Hi   there ")];
    let sig = parse_dkim_signature("v=1; a=rsa-sha256; c=relaxed; d=d; s=s; h=subject; bh=; b=").unwrap();
    let input = build_signing_input(&headers, "v=1;  b=abc", &sig);
    assert_eq!(String::from_utf8(input).unwrap(), "subject:Hi there\r\ndkim-signature:v=1; b=");
}

#[test]
fn public_key_and_rsa_signature() {
    let key = parse_dkim_public_key(&key_record()).unwrap();
    let sig = parse_dkim_signature(SIGNED_DKIM).unwrap();
    let headers = signed_headers();
    let input = build_signing_input(&headers, SIGNED_DKIM, &sig);
    assert!(verify_rsa_sha256(&input, &sig.signature, &key).is_ok());
    let mut wrong = input.clone();
    wrong.push(b'x');
    assert!(verify_rsa_sha256(&wrong, &sig.signature, &key)
        .unwrap_err()
        .starts_with("RSA verification failed: "));
}

#[test]
fn public_key_errors() {
    assert_eq!(
        parse_dkim_public_key("v=DKIM1; k=rsa").err().unwrap(),
        "Missing p= tag in DKIM DNS record"
    );
    assert!(parse_dkim_public_key("p=@@@@").err().unwrap().starts_with("Invalid base64 in DKIM public key: "));
    assert!(parse_dkim_public_key("p=AAAA").err().unwrap().starts_with("Invalid DKIM public key DER: "));
    // the last p= wins, and whitespace inside it is dropped
    let spaced: String = KEY_P.chars().flat_map(|c| [c, ' ']).collect();
    assert!(parse_dkim_public_key(&format!("p=AAAA; p = {spaced}")).is_ok());
}

#[test]
fn full_verification_with_key() {
    let headers = signed_headers();
    let step = start_dkim_verification(&headers, SIGNED_BODY);
    let pending = match step {
        DkimVerificationStep::FetchKey(p) => p,
        DkimVerificationStep::Done(s) => panic!("unexpected: {}", reason(&s)),
    };
    assert_eq!(pending.signature.selector, "sel");
    assert_eq!(pending.signature.domain, "example.com");
    let key = parse_dkim_public_key(&key_record());
    let status = finish_dkim_verification(&headers, &pending, key);
    assert!(matches!(status, DkimVerificationStatus::Verified));
    let status = finish_dkim_verification(&headers, &pending, Err("timeout".to_string()));
    assert_eq!(reason(&status), "Failed to fetch DKIM key: timeout");
    let mut tampered = headers.clone();
    tampered[2].value = "Changed".to_string();
    let key = parse_dkim_public_key(&key_record());
    let status = finish_dkim_verification(&tampered, &pending, key);
    assert!(reason(&status).starts_with("Signature verification failed: RSA verification failed: "));
}

#[test]
fn verification_stops_early() {
    assert_eq!(done_reason(&start_dkim_verification(&[], b"")), "No DKIM-Signature header");
    let h = vec![header("dkim-signature", "v=2")];
    assert_eq!(
        done_reason(&start_dkim_verification(&h, b"")),
        "Failed to parse DKIM-Signature: Unsupported DKIM version: 2"
    );
    let h = vec![header("DKIM-Signature", "v=1; a=rsa-sha1; d=d; s=s; h=from; bh=; b=")];
    assert_eq!(done_reason(&start_dkim_verification(&h, b"")), "Unsupported algorithm: rsa-sha1");
    let h = vec![header("DKIM-Signature", "v=1; a=rsa-sha256; d=d; s=s; h=from:subject; bh=; b=")];
    assert_eq!(
        done_reason(&start_dkim_verification(&h, b"")),
        "Required header 'to' not in DKIM-signed headers"
    );
    let mut headers = signed_headers();
    headers.truncate(5);
    assert_eq!(
        done_reason(&start_dkim_verification(&headers, b"tampered body")),
        "Body hash mismatch: Body hash does not match"
    );
}

#[test]
fn doh_query_and_answers() {
    let q = dkim_query_name("sel", "example.com");
    assert_eq!(q, "sel._domainkey.example.com");
    assert_eq!(doh_query_url(&q), "https://dns.google/resolve?name=sel._domainkey.example.com&type=TXT");
    let answers = vec![
        DohAnswer { record_type: Some(5), data: Some("cname.example.".to_string()) },
        DohAnswer { record_type: Some(16), data: Some("\"v=DKIM1; k=rsa; \"".to_string()) },
        DohAnswer { record_type: Some(16), data: None },
        DohAnswer { record_type: Some(16), data: Some(format!("\"p={KEY_P}\"")) },
    ];
    let txt = dkim_txt_record(Some(&answers), &q).unwrap();
    assert_eq!(txt, key_record());
    assert!(dkim_key_from_doh_answers(Some(&answers), &q).is_ok());
    assert_eq!(
        dkim_txt_record(None, &q).unwrap_err(),
        "No Answer section in DoH response"
    );
    assert_eq!(
        dkim_txt_record(Some(&answers[..1].to_vec()), &q).unwrap_err(),
        "No DKIM TXT record found for sel._domainkey.example.com"
    );
}

#[test]
fn doh_canonical_records_are_sorted() {
    let answers = vec![
        DohAnswer { record_type: Some(16), data: Some("b".to_string()) },
        DohAnswer { record_type: Some(1), data: Some("zzz".to_string()) },
        DohAnswer { record_type: Some(16), data: Some("a2".to_string()) },
        DohAnswer { record_type: None, data: Some("q".to_string()) },
        DohAnswer { record_type: Some(16), data: Some("a".to_string()) },
        DohAnswer { record_type: Some(16), data: Some("b".to_string()) },
    ];
    assert_eq!(canonical_txt_records(&answers), vec!["a", "a2", "b", "b"]);
}

#[test]
fn whitespace_matches_std() {
    for u in 0u32..0x3100 {
        if let Some(c) = char::from_u32(u) {
            if c == '\r' || c == '\n' {
                continue;
            }
            let got = canonicalize_header_relaxed("x", &format!("a{c}b"));
            let expected = if c.is_whitespace() { "x:a b".to_string() } else { format!("x:a{c}b") };
            assert_eq!(got, expected, "char {u:#x}");
        }
    }
}

#[test]
fn header_names_are_lowercased() {
    assert_eq!(canonicalize_header_relaxed("ÉTÉ-Header", "v"), "été-header:v");
}

#[test]
fn doh_canonical_records_ignore_answer_order() {
    let a = |t: u64, d: &str| DohAnswer { record_type: Some(t), data: Some(d.to_string()) };
    let first = vec![a(16, "k=rsa"), a(16, "p=AB"), a(1, "1.2.3.4"), a(16, "v=DKIM1")];
    let second = vec![a(16, "v=DKIM1"), a(1, "5.6.7.8"), a(16, "p=AB"), a(16, "k=rsa")];
    assert_eq!(canonical_txt_records(&first), canonical_txt_records(&second));
    assert_eq!(canonical_txt_records(&first), vec!["k=rsa", "p=AB", "v=DKIM1"]);
}

#[test]
fn doh_body_gives_the_key() {
    let q = dkim_query_name("sel", "example.com");
    let body = format!(
        r#"{{"Status":0,"Answer":[{{"name":"x","type":5,"data":"cname."}},{{"type":16,"data":"\"v=DKIM1; k=rsa; \""}},{{"type":"16","data":"ignored"}},{{"type":16,"data":"\"p={KEY_P}\""}}]}}"#
    );
    let key = dkim_key_from_doh_body(body.as_bytes(), &q).unwrap();
    let headers = signed_headers();
    let step = start_dkim_verification(&headers, SIGNED_BODY);
    match step {
        DkimVerificationStep::FetchKey(pending) => {
            let status = finish_dkim_verification(&headers, &pending, Ok(key));
            assert!(matches!(status, DkimVerificationStatus::Verified), "{}", reason(&status));
        }
        DkimVerificationStep::Done(s) => panic!("stopped early: {}", reason(&s)),
    }
}

#[test]
fn doh_body_errors() {
    let q = dkim_query_name("sel", "example.com");
    let err = dkim_key_from_doh_body(b"not json", &q).err().expect("an error");
    assert!(err.starts_with("Invalid DoH JSON response: "), "{err}");
    assert!(err.len() > "Invalid DoH JSON response: ".len());
    assert_eq!(
        dkim_key_from_doh_body(br#"{"Status":3}"#, &q).err().expect("an error"),
        "No Answer section in DoH response"
    );
    assert_eq!(
        dkim_key_from_doh_body(br#"{"Status":0,"Answer":{"type":16,"data":"p=AB"}}"#, &q).err().expect("an error"),
        "No Answer section in DoH response"
    );
    assert_eq!(
        dkim_key_from_doh_body(br#"{"Answer":[{"type":1,"data":"1.2.3.4"}]}"#, &q).err().expect("an error"),
        "No DKIM TXT record found for sel._domainkey.example.com"
    );
    assert_eq!(
        dkim_key_from_doh_body(br#"{"Answer":[{"type":16,"data":"k=rsa"}]}"#, &q).err().expect("an error"),
        "Missing p= tag in DKIM DNS record"
    );
}

#[test]
fn doh_response_canonical_form() {
    let body = br#"{"Status":0,"TC":false,"Answer":[{"type":16,"data":"b"},{"type":1,"data":"x"},{"type":16,"data":"a"}]}"#;
    assert_eq!(
        String::from_utf8(canonical_doh_response(true, body).unwrap()).unwrap(),
        r#"{"Answer":[{"data":"a","type":16},{"data":"b","type":16}],"Status":0}"#
    );
    let reordered = br#"{"Answer":[{"type":16,"data":"a"},{"type":16,"data":"b"}],"Status":0}"#;
    assert_eq!(
        canonical_doh_response(true, reordered).unwrap(),
        canonical_doh_response(true, body).unwrap()
    );
    assert_eq!(
        String::from_utf8(canonical_doh_response(true, br#"{"Status":2}"#).unwrap()).unwrap(),
        r#"{"Answer":[],"Status":2}"#
    );
    assert_eq!(
        String::from_utf8(canonical_doh_response(true, b"{}").unwrap()).unwrap(),
        r#"{"Answer":[],"Status":null}"#
    );
}

#[test]
fn doh_response_refusals() {
    assert_eq!(
        canonical_doh_response(false, br#"{"Status":0}"#).err().expect("an error"),
        "DoH request returned non-200 status"
    );
    assert_eq!(canonical_doh_response(true, b"<html>").err().expect("an error"), "Invalid DoH JSON");
}
