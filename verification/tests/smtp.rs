use internet_identity::smtp::{
    handle_smtp_request_validate, subject_cut_is_safe, validate_envelope_only, SmtpAddress,
    SmtpEnvelope, SmtpHeader, SmtpMessage, SmtpRequest, SmtpResponse, ValidatedSmtpRequest,
};

fn addr(user: &str, domain: &str) -> SmtpAddress {
    SmtpAddress { user: user.to_string(), domain: domain.to_string() }
}

fn header(name: &str, value: &str) -> SmtpHeader {
    SmtpHeader { name: name.to_string(), value: value.to_string() }
}

fn request(to: SmtpAddress, headers: Vec<SmtpHeader>, body: &[u8], with_message: bool) -> SmtpRequest {
    SmtpRequest {
        message: if with_message {
            Some(SmtpMessage { headers, body: body.to_vec() })
        } else {
            None
        },
        envelope: Some(SmtpEnvelope { from: addr("alice", "example.com"), to }),
        gateway_flags: None,
    }
}

fn rejection(r: &SmtpResponse) -> (u64, String) {
    match r {
        SmtpResponse::Accepted {} => (0, String::new()),
        SmtpResponse::Rejected(e) => (e.code, e.message.clone()),
    }
}

#[test]
fn valid_request_is_converted() {
    let req = request(
        addr("10000", "ID.AI"),
        vec![header("x", "1"), header("SUBJECT", "Hello"), header("subject", "ignored")],
        b"body \xff",
        true,
    );
    let v = ValidatedSmtpRequest::try_from(req).unwrap();
    assert_eq!(v.sender, "alice@example.com");
    assert_eq!(v.recipient, "10000@ID.AI");
    assert_eq!(v.subject, "Hello");
    assert_eq!(v.body, "body \u{fffd}");
}

#[test]
fn subject_is_cut_and_defaults_to_empty() {
    let long = "s".repeat(300);
    let v = ValidatedSmtpRequest::try_from(request(addr("1", "id.ai"), vec![header("Subject", &long)], b"", true))
        .unwrap();
    assert_eq!(v.subject, "s".repeat(256));
    let v = ValidatedSmtpRequest::try_from(request(addr("1", "id.ai"), vec![], b"", true)).unwrap();
    assert_eq!(v.subject, "");
    let odd = format!("{}é", "s".repeat(255));
    assert!(!subject_cut_is_safe(&[header("Subject", &odd)]));
    assert!(subject_cut_is_safe(&[header("Subject", &long)]));
}

#[test]
fn envelope_errors() {
    let mut req = request(addr("1", "id.ai"), vec![], b"", true);
    req.envelope = None;
    assert_eq!(rejection(&handle_smtp_request_validate(req)), (555, "Missing envelope".to_string()));
    let req = request(addr("1", "example.org"), vec![], b"", true);
    assert_eq!(
        rejection(&handle_smtp_request_validate(req)),
        (550, "Relay not permitted: domain must be id.ai".to_string())
    );
    let req = request(addr("anchor", "id.ai"), vec![], b"", false);
    assert_eq!(
        rejection(&handle_smtp_request_validate(req)),
        (550, "Recipient user must be a valid anchor number".to_string())
    );
    let req = request(addr(&"1".repeat(65), "id.ai"), vec![], b"", false);
    assert_eq!(
        rejection(&handle_smtp_request_validate(req)),
        (555, "Recipient user part exceeds 64 bytes".to_string())
    );
    let mut req = request(addr("1", "id.ai"), vec![], b"", false);
    req.envelope.as_mut().unwrap().from = addr("a", &"d".repeat(256));
    assert_eq!(
        rejection(&validate_envelope_only(&req).unwrap_err()),
        (555, "Sender domain exceeds 255 bytes".to_string())
    );
    let req = request(addr("18446744073709551616", "id.ai"), vec![], b"", false);
    assert_eq!(
        rejection(&handle_smtp_request_validate(req)),
        (550, "Recipient user must be a valid anchor number".to_string())
    );
}

#[test]
fn message_errors() {
    let many: Vec<SmtpHeader> = (0..11).map(|i| header(&format!("h{i}"), "v")).collect();
    let req = request(addr("1", "id.ai"), many, b"", true);
    assert_eq!(
        rejection(&handle_smtp_request_validate(req)),
        (555, "Too many headers: 11 (max 10)".to_string())
    );
    let req = request(addr("1", "id.ai"), vec![header(&"n".repeat(257), "v")], b"", true);
    assert_eq!(
        rejection(&handle_smtp_request_validate(req)),
        (555, "Header name exceeds 256 bytes".to_string())
    );
    let req = request(addr("1", "id.ai"), vec![header("Big", &"v".repeat(8193))], b"", true);
    assert_eq!(
        rejection(&handle_smtp_request_validate(req)),
        (555, "Header 'Big' value exceeds 8192 bytes".to_string())
    );
    let req = request(addr("1", "id.ai"), vec![], &[b'x'; 5001], true);
    assert_eq!(
        rejection(&handle_smtp_request_validate(req)),
        (555, "Body size 5001 exceeds limit of 5000 bytes".to_string())
    );
    let req = request(addr("1", "id.ai"), vec![], &[b'x'; 5001], true);
    assert_eq!(
        rejection(&validate_envelope_only(&req).unwrap_err()),
        (555, "Body size 5001 exceeds limit of 5000 bytes".to_string())
    );
}

#[test]
fn validation_accepts() {
    let req = request(addr("+42", "id.ai"), vec![header("Subject", "s")], b"hi", true);
    assert!(matches!(handle_smtp_request_validate(req), SmtpResponse::Accepted {}));
    let req = request(addr("42", "Id.Ai"), vec![], b"", false);
    assert!(matches!(handle_smtp_request_validate(req), SmtpResponse::Accepted {}));
    let mut req = request(addr("42", "id.ai"), vec![], b"", false);
    req.message = None;
    assert!(validate_envelope_only(&req).is_ok());
    let mut req = request(addr("42", "id.ai"), vec![], b"", true);
    req.message = None;
    assert_eq!(
        rejection(&ValidatedSmtpRequest::try_from(req).err().unwrap()),
        (555, "Missing message".to_string())
    );
}

#[test]
fn anchor_numbers_follow_u64_parsing() {
    for user in ["0", "+7", "007", "18446744073709551615"] {
        let req = request(addr(user, "id.ai"), vec![], b"", false);
        assert!(validate_envelope_only(&req).is_ok(), "{user}");
    }
    for user in ["", "+", "-1", "1a", " 1", "++1", "18446744073709551616", "99999999999999999999"] {
        let req = request(addr(user, "id.ai"), vec![], b"", false);
        assert_eq!(
            rejection(&validate_envelope_only(&req).unwrap_err()),
            (550, "Recipient user must be a valid anchor number".to_string()),
            "{user}"
        );
    }
}
