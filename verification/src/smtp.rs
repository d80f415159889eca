//! SMTP gateway requests: their types, their bounds and their validation.
use crate::signature::message;
use crate::strings::{chars_of, from_utf8_lossy, parses_as_u64, string_of, unsigned_numeral, lossy_text};
use crate::text::{chars_eq_ignore_ascii_case, eq_ignore_ascii_case};
use vstd::prelude::*;
use vstd::utf8::{decode_utf8, encode_utf8, is_char_boundary};

verus! {

pub const MAX_EMAIL_USER_BYTES: usize = 64;

pub const MAX_EMAIL_DOMAIN_BYTES: usize = 255;

pub const MAX_SUBJECT_BYTES: usize = 256;

pub const MAX_BODY_BYTES: usize = 5000;

pub const MAX_HEADERS: usize = 10;

pub const MAX_HEADER_NAME_BYTES: usize = 256;

pub const MAX_HEADER_VALUE_BYTES: usize = 8192;

pub const MAX_EMAILS_PER_USER: usize = 10;

pub const ACCEPTED_DOMAIN: &'static str = "id.ai";

pub const SMTP_ERR_MAILBOX_UNAVAILABLE: u64 = 550;

pub const SMTP_ERR_SYNTAX_ERROR: u64 = 555;

/// One header field of a message.
#[derive(Clone, Debug)]
pub struct SmtpHeader {
    pub name: String,
    pub value: String,
}

/// A message: its header fields and its raw body.
#[derive(Clone, Debug)]
pub struct SmtpMessage {
    pub headers: Vec<SmtpHeader>,
    pub body: Vec<u8>,
}

/// A mailbox address `user@domain`.
#[derive(Clone, Debug)]
pub struct SmtpAddress {
    pub user: String,
    pub domain: String,
}

#[derive(Clone, Debug)]
pub struct SmtpEnvelope {
    pub from: SmtpAddress,
    pub to: SmtpAddress,
}

#[derive(Clone, Debug)]
pub struct SmtpRequest {
    pub message: Option<SmtpMessage>,
    pub envelope: Option<SmtpEnvelope>,
    pub gateway_flags: Option<Vec<String>>,
}

#[derive(Clone, Debug)]
pub struct SmtpRequestError {
    pub code: u64,
    pub message: String,
}

/// The gateway's answer: accepted, or refused with an SMTP code and a reason.
#[derive(Clone, Debug)]
pub enum SmtpResponse {
    Accepted {},
    Rejected(SmtpRequestError),
}

/// An e-mail as the postbox returns it.
#[derive(Clone, Debug)]
pub struct PostboxEmail {
    pub sender: String,
    pub recipient: String,
    pub subject: String,
    pub body: String,
}

/// A request that passed validation, reduced to what is stored.
#[derive(Clone, Debug)]
pub struct ValidatedSmtpRequest {
    pub sender: String,
    pub recipient: String,
    pub subject: String,
    pub body: String,
}

/// The mathematical value of an `SmtpResponse`.
pub ghost enum SpecSmtpResponse {
    Accepted,
    Rejected(u64, Seq<char>),
}

impl View for SmtpResponse {
    type V = SpecSmtpResponse;

    open spec fn view(&self) -> SpecSmtpResponse {
        match self {
            SmtpResponse::Accepted {  } => SpecSmtpResponse::Accepted,
            SmtpResponse::Rejected(e) => SpecSmtpResponse::Rejected(e.code, e.message@),
        }
    }
}

/// The mathematical value of a `ValidatedSmtpRequest`.
pub ghost struct SpecValidatedSmtpRequest {
    pub sender: Seq<char>,
    pub recipient: Seq<char>,
    pub subject: Seq<char>,
    pub body: Seq<char>,
}

impl View for ValidatedSmtpRequest {
    type V = SpecValidatedSmtpRequest;

    open spec fn view(&self) -> SpecValidatedSmtpRequest {
        SpecValidatedSmtpRequest {
            sender: self.sender@,
            recipient: self.recipient@,
            subject: self.subject@,
            body: self.body@,
        }
    }
}

/// The length of a string in bytes (UTF-8).
pub open spec fn byte_len(s: Seq<char>) -> nat {
    encode_utf8(s).len()
}

/// The character of a decimal digit.
pub open spec fn digit_char(d: nat) -> char {
    if d == 0 {
        '0'
    } else if d == 1 {
        '1'
    } else if d == 2 {
        '2'
    } else if d == 3 {
        '3'
    } else if d == 4 {
        '4'
    } else if d == 5 {
        '5'
    } else if d == 6 {
        '6'
    } else if d == 7 {
        '7'
    } else if d == 8 {
        '8'
    } else {
        '9'
    }
}

/// The decimal numeral of a number, as `{}` formats it.
pub open spec fn decimal(n: nat) -> Seq<char>
    decreases n,
{
    if n < 10 {
        seq![digit_char(n)]
    } else {
        decimal(n / 10).push(digit_char(n % 10))
    }
}

fn digit(d: usize) -> (c: char)
    requires
        d < 10,
    ensures
        c == digit_char(d as nat),
{
    if d == 0 {
        '0'
    } else if d == 1 {
        '1'
    } else if d == 2 {
        '2'
    } else if d == 3 {
        '3'
    } else if d == 4 {
        '4'
    } else if d == 5 {
        '5'
    } else if d == 6 {
        '6'
    } else if d == 7 {
        '7'
    } else if d == 8 {
        '8'
    } else {
        '9'
    }
}

/// The decimal numeral of `n`.
pub fn decimal_chars(n: usize) -> (r: Vec<char>)
    ensures
        r@ == decimal(n as nat),
    decreases n,
{
    if n < 10 {
        let mut r: Vec<char> = Vec::new();
        r.push(digit(n));
        r
    } else {
        let mut r = decimal_chars(n / 10);
        r.push(digit(n % 10));
        r
    }
}

pub open spec fn rejected(code: u64, msg: Seq<char>) -> SpecSmtpResponse {
    SpecSmtpResponse::Rejected(code, msg)
}

pub fn smtp_err(code: u64, message: String) -> (r: SmtpResponse)
    ensures
        r@ == rejected(code, message@),
{
    SmtpResponse::Rejected(SmtpRequestError { code, message })
}

fn smtp_err_chars(code: u64, message: &[char]) -> (r: SmtpResponse)
    ensures
        r@ == rejected(code, message@),
{
    smtp_err(code, string_of(message))
}

/// `user@domain`.
pub open spec fn address_text(addr: SmtpAddress) -> Seq<char> {
    addr.user@ + "@"@ + addr.domain@
}

pub fn format_address(addr: &SmtpAddress) -> (r: String)
    ensures
        r@ == address_text(*addr),
{
    let u = chars_of(addr.user.as_str());
    let at = chars_of("@");
    let d = chars_of(addr.domain.as_str());
    string_of(&crate::text::concat3(&u, &at, &d))
}

/// The size bounds of an address: user part and domain.
pub open spec fn spec_address_bounds(addr: SmtpAddress, label: Seq<char>) -> Result<(), SpecSmtpResponse> {
    if byte_len(addr.user@) > MAX_EMAIL_USER_BYTES {
        Err(rejected(SMTP_ERR_SYNTAX_ERROR, label + " user part exceeds 64 bytes"@))
    } else if byte_len(addr.domain@) > MAX_EMAIL_DOMAIN_BYTES {
        Err(rejected(SMTP_ERR_SYNTAX_ERROR, label + " domain exceeds 255 bytes"@))
    } else {
        Ok(())
    }
}

pub open spec fn unit_view(r: Result<(), SmtpResponse>) -> Result<(), SpecSmtpResponse> {
    match r {
        Ok(()) => Ok(()),
        Err(e) => Err(e@),
    }
}

pub fn validate_address_bounds(addr: &SmtpAddress, label: &str) -> (r: Result<(), SmtpResponse>)
    ensures
        unit_view(r) == spec_address_bounds(*addr, label@),
{
    if addr.user.as_str().as_bytes().len() > MAX_EMAIL_USER_BYTES {
        return Err(smtp_err(SMTP_ERR_SYNTAX_ERROR, message(label, &chars_of(" user part exceeds 64 bytes"))));
    }
    if addr.domain.as_str().as_bytes().len() > MAX_EMAIL_DOMAIN_BYTES {
        return Err(smtp_err(SMTP_ERR_SYNTAX_ERROR, message(label, &chars_of(" domain exceeds 255 bytes"))));
    }
    Ok(())
}

/// The checks on the envelope: address sizes, the recipient domain, and a
/// recipient user part that is an anchor number.
pub open spec fn spec_validate_envelope(env: SmtpEnvelope) -> Result<(), SpecSmtpResponse> {
    match spec_address_bounds(env.from, "Sender"@) {
        Err(e) => Err(e),
        Ok(()) => match spec_address_bounds(env.to, "Recipient"@) {
            Err(e) => Err(e),
            Ok(()) => if !eq_ignore_ascii_case(env.to.domain@, ACCEPTED_DOMAIN@) {
                Err(
                    rejected(
                        SMTP_ERR_MAILBOX_UNAVAILABLE,
                        "Relay not permitted: domain must be id.ai"@,
                    ),
                )
            } else if !(unsigned_numeral(env.to.user@) matches Some(v) && v <= u64::MAX) {
                Err(
                    rejected(
                        SMTP_ERR_MAILBOX_UNAVAILABLE,
                        "Recipient user must be a valid anchor number"@,
                    ),
                )
            } else {
                Ok(())
            },
        },
    }
}

pub fn validate_envelope(envelope: &SmtpEnvelope) -> (r: Result<(), SmtpResponse>)
    ensures
        unit_view(r) == spec_validate_envelope(*envelope),
{
    match validate_address_bounds(&envelope.from, "Sender") {
        Ok(()) => {},
        Err(e) => return Err(e),
    }
    match validate_address_bounds(&envelope.to, "Recipient") {
        Ok(()) => {},
        Err(e) => return Err(e),
    }
    let domain = chars_of(envelope.to.domain.as_str());
    let accepted = chars_of(ACCEPTED_DOMAIN);
    if !chars_eq_ignore_ascii_case(&domain, &accepted) {
        return Err(smtp_err_chars(SMTP_ERR_MAILBOX_UNAVAILABLE, &chars_of("Relay not permitted: domain must be id.ai")));
    }
    if !parses_as_u64(envelope.to.user.as_str()) {
        return Err(smtp_err_chars(SMTP_ERR_MAILBOX_UNAVAILABLE, &chars_of("Recipient user must be a valid anchor number")));
    }
    Ok(())
}

/// The first header whose name or value is too long, as an error.
pub open spec fn header_bounds(headers: Seq<SmtpHeader>) -> Result<(), SpecSmtpResponse>
    decreases headers.len(),
{
    if headers.len() == 0 {
        Ok(())
    } else {
        let h = headers[0];
        if byte_len(h.name@) > MAX_HEADER_NAME_BYTES {
            Err(rejected(SMTP_ERR_SYNTAX_ERROR, "Header name exceeds 256 bytes"@))
        } else if byte_len(h.value@) > MAX_HEADER_VALUE_BYTES {
            Err(
                rejected(
                    SMTP_ERR_SYNTAX_ERROR,
                    "Header '"@ + h.name@ + "' value exceeds 8192 bytes"@,
                ),
            )
        } else {
            header_bounds(headers.drop_first())
        }
    }
}

/// The checks on the message: number of headers, header sizes, body size.
pub open spec fn spec_validate_message(m: SmtpMessage) -> Result<(), SpecSmtpResponse> {
    if m.headers.len() > MAX_HEADERS {
        Err(
            rejected(
                SMTP_ERR_SYNTAX_ERROR,
                "Too many headers: "@ + decimal(m.headers.len() as nat) + " (max 10)"@,
            ),
        )
    } else {
        match header_bounds(m.headers@) {
            Err(e) => Err(e),
            Ok(()) => if m.body.len() > MAX_BODY_BYTES {
                Err(
                    rejected(
                        SMTP_ERR_SYNTAX_ERROR,
                        "Body size "@ + decimal(m.body.len() as nat) + " exceeds limit of 5000 bytes"@,
                    ),
                )
            } else {
                Ok(())
            },
        }
    }
}

pub fn validate_message(message: &SmtpMessage) -> (r: Result<(), SmtpResponse>)
    ensures
        unit_view(r) == spec_validate_message(*message),
{
    if message.headers.len() > MAX_HEADERS {
        let n = decimal_chars(message.headers.len());
        let text = crate::text::concat3(&chars_of("Too many headers: "), &n, &chars_of(" (max 10)"));
        return Err(smtp_err_chars(SMTP_ERR_SYNTAX_ERROR, &text));
    }
    let headers = &message.headers;
    let mut i: usize = 0;
    assert(headers@.skip(0) == headers@);
    while i < headers.len()
        invariant
            i <= headers.len(),
            headers.len() <= MAX_HEADERS,
            headers@ == message.headers@,
            header_bounds(headers@) == header_bounds(headers@.skip(i as int)),
        decreases headers.len() - i,
    {
        assert(headers@.skip(i as int)[0] == headers@[i as int]);
        assert(headers@.skip(i as int).drop_first() == headers@.skip(i + 1));
        if headers[i].name.as_str().as_bytes().len() > MAX_HEADER_NAME_BYTES {
            return Err(smtp_err_chars(SMTP_ERR_SYNTAX_ERROR, &chars_of("Header name exceeds 256 bytes")));
        }
        if headers[i].value.as_str().as_bytes().len() > MAX_HEADER_VALUE_BYTES {
            let name = chars_of(headers[i].name.as_str());
            let text = crate::text::concat3(&chars_of("Header '"), &name, &chars_of("' value exceeds 8192 bytes"));
            return Err(smtp_err_chars(SMTP_ERR_SYNTAX_ERROR, &text));
        }
        i = i + 1;
    }
    if message.body.len() > MAX_BODY_BYTES {
        let n = decimal_chars(message.body.len());
        let text = crate::text::concat3(&chars_of("Body size "), &n, &chars_of(" exceeds limit of 5000 bytes"));
        return Err(smtp_err_chars(SMTP_ERR_SYNTAX_ERROR, &text));
    }
    Ok(())
}

/// Index of the first header named Subject (in any ASCII case).
pub open spec fn subject_index(headers: Seq<SmtpHeader>) -> Option<int>
    decreases headers.len(),
{
    if headers.len() == 0 {
        None
    } else if eq_ignore_ascii_case(headers[0].name@, "subject"@) {
        Some(0)
    } else {
        match subject_index(headers.drop_first()) {
            Some(i) => Some(i + 1),
            None => None,
        }
    }
}

proof fn lemma_subject_index(headers: Seq<SmtpHeader>)
    ensures
        subject_index(headers) matches Some(i) ==> 0 <= i < headers.len(),
    decreases headers.len(),
{
    if headers.len() > 0 {
        lemma_subject_index(headers.drop_first());
    }
}

/// Cutting the subject to `MAX_SUBJECT_BYTES` bytes would split a character
/// (where `String::truncate` panics).
pub open spec fn subject_cut_splits_char(headers: Seq<SmtpHeader>) -> bool {
    match subject_index(headers) {
        Some(i) => {
            let b = encode_utf8(headers[i].value@);
            b.len() > MAX_SUBJECT_BYTES && !is_char_boundary(b, MAX_SUBJECT_BYTES as int)
        },
        None => false,
    }
}

/// The subject: the value of the first Subject header, cut to at most
/// `MAX_SUBJECT_BYTES` bytes; empty when there is none.
pub open spec fn spec_extract_subject(headers: Seq<SmtpHeader>) -> Seq<char> {
    match subject_index(headers) {
        Some(i) => {
            let v = headers[i].value@;
            if byte_len(v) <= MAX_SUBJECT_BYTES {
                v
            } else {
                decode_utf8(encode_utf8(v).take(MAX_SUBJECT_BYTES as int))
            }
        },
        None => Seq::empty(),
    }
}

fn find_subject(headers: &[SmtpHeader]) -> (r: Option<usize>)
    ensures
        match r {
            Some(i) => i < headers.len() && subject_index(headers@) == Some(i as int),
            None => subject_index(headers@) is None,
        },
{
    let target = chars_of("subject");
    let mut i: usize = 0;
    assert(headers@.skip(0) == headers@);
    while i < headers.len()
        invariant
            i <= headers.len(),
            target@ == "subject"@,
            subject_index(headers@) == match subject_index(headers@.skip(i as int)) {
                Some(k) => Some(k + i),
                None => None,
            },
        decreases headers.len() - i,
    {
        assert(headers@.skip(i as int)[0] == headers@[i as int]);
        let n = chars_of(headers[i].name.as_str());
        if chars_eq_ignore_ascii_case(&n, &target) {
            return Some(i);
        }
        assert(headers@.skip(i as int).drop_first() == headers@.skip(i + 1));
        i = i + 1;
    }
    None
}

/// Whether the subject can be cut to `MAX_SUBJECT_BYTES` bytes without
/// splitting a character.
pub fn subject_cut_is_safe(headers: &[SmtpHeader]) -> (r: bool)
    ensures
        r == !subject_cut_splits_char(headers@),
{
    match find_subject(headers) {
        Some(i) => {
            let v = headers[i].value.as_str();
            !(v.as_bytes().len() > MAX_SUBJECT_BYTES && !v.is_char_boundary(MAX_SUBJECT_BYTES))
        },
        None => true,
    }
}

pub fn extract_subject(headers: &[SmtpHeader]) -> (r: String)
    requires
        !subject_cut_splits_char(headers@),
    ensures
        r@ == spec_extract_subject(headers@),
{
    match find_subject(headers) {
        Some(i) => {
            let v = headers[i].value.as_str();
            if v.as_bytes().len() <= MAX_SUBJECT_BYTES {
                string_of(&chars_of(v))
            } else {
                let (head, _) = v.split_at(MAX_SUBJECT_BYTES);
                let r = string_of(&chars_of(head));
                proof {
                    vstd::utf8::encode_utf8_decode_utf8(head@);
                }
                r
            }
        },
        None => String::new(),
    }
}

/// Full validation of a request, as `ValidatedSmtpRequest::try_from` performs
/// it: `Ok` when the request is to be accepted.
pub open spec fn spec_validate_request(request: SmtpRequest) -> Result<(), SpecSmtpResponse> {
    match request.envelope {
        None => Err(rejected(SMTP_ERR_SYNTAX_ERROR, "Missing envelope"@)),
        Some(env) => match spec_validate_envelope(env) {
            Err(e) => Err(e),
            Ok(()) => match request.message {
                None => Err(rejected(SMTP_ERR_SYNTAX_ERROR, "Missing message"@)),
                Some(m) => spec_validate_message(m),
            },
        },
    }
}

/// What a request that passed validation becomes.
pub open spec fn spec_validated(request: SmtpRequest) -> SpecValidatedSmtpRequest {
    let env = request.envelope->0;
    let m = request.message->0;
    SpecValidatedSmtpRequest {
        sender: address_text(env.from),
        recipient: address_text(env.to),
        subject: spec_extract_subject(m.headers@),
        body: lossy_text(m.body@),
    }
}

/// A full request on which validation reaches the subject and would have to
/// split a character to cut it.
pub open spec fn subject_cut_fails(request: SmtpRequest) -> bool {
    spec_validate_request(request) is Ok && subject_cut_splits_char(request.message->0.headers@)
}

impl ValidatedSmtpRequest {
    /// Validates a request: an envelope within bounds, addressed to an anchor
    /// at the accepted domain, and a message within bounds. The result holds
    /// the two addresses, the subject (cut to `MAX_SUBJECT_BYTES` bytes) and
    /// the body read as UTF-8.
    pub fn try_from(request: SmtpRequest) -> (r: Result<ValidatedSmtpRequest, SmtpResponse>)
        requires
            !subject_cut_fails(request),
        ensures
            match r {
                Ok(v) => spec_validate_request(request) is Ok && v@ == spec_validated(request),
                Err(e) => spec_validate_request(request) == Err::<(), SpecSmtpResponse>(e@),
            },
    {
        let envelope = match &request.envelope {
            Some(e) => e,
            None => {
                return Err(smtp_err_chars(SMTP_ERR_SYNTAX_ERROR, &chars_of("Missing envelope")));
            },
        };
        match validate_envelope(envelope) {
            Ok(()) => {},
            Err(e) => return Err(e),
        }
        let message = match &request.message {
            Some(m) => m,
            None => {
                return Err(smtp_err_chars(SMTP_ERR_SYNTAX_ERROR, &chars_of("Missing message")));
            },
        };
        match validate_message(message) {
            Ok(()) => {},
            Err(e) => return Err(e),
        }
        let body = from_utf8_lossy(message.body.as_slice());
        Ok(
            ValidatedSmtpRequest {
                sender: format_address(&envelope.from),
                recipient: format_address(&envelope.to),
                subject: extract_subject(message.headers.as_slice()),
                body,
            },
        )
    }
}

/// Validation of the envelope, and of the message when there is one.
pub open spec fn spec_validate_envelope_only(request: SmtpRequest) -> Result<(), SpecSmtpResponse> {
    match request.envelope {
        None => Err(rejected(SMTP_ERR_SYNTAX_ERROR, "Missing envelope"@)),
        Some(env) => match spec_validate_envelope(env) {
            Err(e) => Err(e),
            Ok(()) => match request.message {
                None => Ok(()),
                Some(m) => spec_validate_message(m),
            },
        },
    }
}

/// Validates only the envelope portion of an SMTP request (and the message,
/// if one is present).
pub fn validate_envelope_only(request: &SmtpRequest) -> (r: Result<(), SmtpResponse>)
    ensures
        unit_view(r) == spec_validate_envelope_only(*request),
{
    let envelope = match &request.envelope {
        Some(e) => e,
        None => {
            return Err(smtp_err_chars(SMTP_ERR_SYNTAX_ERROR, &chars_of("Missing envelope")));
        },
    };
    match validate_envelope(envelope) {
        Ok(()) => {},
        Err(e) => return Err(e),
    }
    match &request.message {
        Some(message) => validate_message(message),
        None => Ok(()),
    }
}

/// What the gateway answers to a validation request.
pub open spec fn spec_validate_response(request: SmtpRequest) -> SpecSmtpResponse {
    let v = if request.message is Some {
        spec_validate_request(request)
    } else {
        spec_validate_envelope_only(request)
    };
    match v {
        Ok(()) => SpecSmtpResponse::Accepted,
        Err(e) => e,
    }
}

/// Answers a validation request: full validation when a message is present,
/// otherwise validation of the envelope.
pub fn handle_smtp_request_validate(request: SmtpRequest) -> (r: SmtpResponse)
    requires
        !subject_cut_fails(request),
    ensures
        r@ == spec_validate_response(request),
{
    if request.message.is_some() {
        return match ValidatedSmtpRequest::try_from(request) {
            Ok(_) => SmtpResponse::Accepted {  },
            Err(response) => response,
        };
    }
    match validate_envelope_only(&request) {
        Ok(()) => SmtpResponse::Accepted {  },
        Err(response) => response,
    }
}

/// When a message is present, validating only the envelope (and the message)
/// reaches the same verdict as full validation, so the validation endpoint
/// answers exactly as `validate_envelope_only` would.
pub proof fn lemma_validate_response_matches_envelope_only(request: SmtpRequest)
    ensures
        request.message is Some ==> spec_validate_request(request) == spec_validate_envelope_only(
            request,
        ),
        spec_validate_response(request) == match spec_validate_envelope_only(request) {
            Ok(()) => SpecSmtpResponse::Accepted,
            Err(e) => e,
        },
{
}

proof fn lemma_header_bounds(headers: Seq<SmtpHeader>)
    requires
        header_bounds(headers) is Ok,
    ensures
        forall|i: int|
            0 <= i < headers.len() ==> byte_len(#[trigger] headers[i].name@) <= MAX_HEADER_NAME_BYTES
                && byte_len(headers[i].value@) <= MAX_HEADER_VALUE_BYTES,
    decreases headers.len(),
{
    if headers.len() > 0 {
        lemma_header_bounds(headers.drop_first());
        assert forall|i: int| 0 < i < headers.len() implies headers[i] == headers.drop_first()[i
            - 1] by {}
    }
}

proof fn lemma_header_bounds_ok(headers: Seq<SmtpHeader>)
    requires
        forall|i: int|
            0 <= i < headers.len() ==> byte_len(#[trigger] headers[i].name@)
                <= MAX_HEADER_NAME_BYTES && byte_len(headers[i].value@) <= MAX_HEADER_VALUE_BYTES,
    ensures
        header_bounds(headers) is Ok,
    decreases headers.len(),
{
    if headers.len() > 0 {
        let t = headers.drop_first();
        assert forall|i: int| 0 <= i < t.len() implies byte_len(#[trigger] t[i].name@)
            <= MAX_HEADER_NAME_BYTES && byte_len(t[i].value@) <= MAX_HEADER_VALUE_BYTES by {
            assert(t[i] == headers[i + 1]);
        }
        assert(byte_len(headers[0].name@) <= MAX_HEADER_NAME_BYTES);
        lemma_header_bounds_ok(t);
    }
}

/// A message within every bound is accepted: at most `MAX_HEADERS` headers,
/// each name and value within its byte limit, and a body of at most
/// `MAX_BODY_BYTES` bytes (the converse of the bounds that an accepted
/// request is shown to keep).
pub proof fn lemma_message_within_bounds_accepted(m: SmtpMessage)
    requires
        m.headers.len() <= MAX_HEADERS,
        forall|i: int|
            0 <= i < m.headers.len() ==> byte_len(#[trigger] m.headers@[i].name@)
                <= MAX_HEADER_NAME_BYTES && byte_len(m.headers@[i].value@) <= MAX_HEADER_VALUE_BYTES,
        m.body.len() <= MAX_BODY_BYTES,
    ensures
        spec_validate_message(m) is Ok,
{
    lemma_header_bounds_ok(m.headers@);
}

/// A request within every bound is accepted: an envelope whose addresses are
/// within their byte limits, addressed to an anchor number at the accepted
/// domain, and a message within its bounds.
pub proof fn lemma_request_within_bounds_accepted(request: SmtpRequest)
    requires
        request.envelope is Some,
        request.message is Some,
        eq_ignore_ascii_case(request.envelope->0.to.domain@, ACCEPTED_DOMAIN@),
        unsigned_numeral(request.envelope->0.to.user@) matches Some(v) && v <= u64::MAX,
        byte_len(request.envelope->0.from.user@) <= MAX_EMAIL_USER_BYTES,
        byte_len(request.envelope->0.from.domain@) <= MAX_EMAIL_DOMAIN_BYTES,
        byte_len(request.envelope->0.to.user@) <= MAX_EMAIL_USER_BYTES,
        byte_len(request.envelope->0.to.domain@) <= MAX_EMAIL_DOMAIN_BYTES,
        request.message->0.headers.len() <= MAX_HEADERS,
        forall|i: int|
            0 <= i < request.message->0.headers.len() ==> byte_len(
                #[trigger] request.message->0.headers@[i].name@,
            ) <= MAX_HEADER_NAME_BYTES && byte_len(request.message->0.headers@[i].value@)
                <= MAX_HEADER_VALUE_BYTES,
        request.message->0.body.len() <= MAX_BODY_BYTES,
    ensures
        spec_validate_request(request) is Ok,
        spec_validate_envelope_only(request) is Ok,
{
    lemma_message_within_bounds_accepted(request.message->0);
}

/// An accepted request is addressed to an anchor number at the accepted domain,
/// stays within every bound, and its stored subject is at most
/// `MAX_SUBJECT_BYTES` bytes long.
pub proof fn lemma_accepted_request_bounds(request: SmtpRequest)
    requires
        spec_validate_request(request) is Ok,
        !subject_cut_fails(request),
    ensures
        request.envelope is Some,
        request.message is Some,
        eq_ignore_ascii_case(request.envelope->0.to.domain@, ACCEPTED_DOMAIN@),
        unsigned_numeral(request.envelope->0.to.user@) matches Some(v) && v <= u64::MAX,
        byte_len(request.envelope->0.from.user@) <= MAX_EMAIL_USER_BYTES,
        byte_len(request.envelope->0.from.domain@) <= MAX_EMAIL_DOMAIN_BYTES,
        byte_len(request.envelope->0.to.user@) <= MAX_EMAIL_USER_BYTES,
        byte_len(request.envelope->0.to.domain@) <= MAX_EMAIL_DOMAIN_BYTES,
        request.message->0.headers.len() <= MAX_HEADERS,
        request.message->0.body.len() <= MAX_BODY_BYTES,
        forall|i: int|
            0 <= i < request.message->0.headers.len() ==> byte_len(
                #[trigger] request.message->0.headers@[i].name@,
            ) <= MAX_HEADER_NAME_BYTES && byte_len(request.message->0.headers@[i].value@)
                <= MAX_HEADER_VALUE_BYTES,
        byte_len(spec_validated(request).subject) <= MAX_SUBJECT_BYTES,
{
    let m = request.message->0;
    lemma_header_bounds(m.headers@);
    lemma_subject_index(m.headers@);
    match subject_index(m.headers@) {
        Some(i) => {
            let v = m.headers@[i].value@;
            let b = encode_utf8(v);
            if byte_len(v) > MAX_SUBJECT_BYTES {
                vstd::utf8::encode_utf8_valid_utf8(v);
                vstd::utf8::valid_utf8_split(b, MAX_SUBJECT_BYTES as int);
                assert(b.take(MAX_SUBJECT_BYTES as int) == b.subrange(0, MAX_SUBJECT_BYTES as int));
                vstd::utf8::decode_utf8_encode_utf8(b.take(MAX_SUBJECT_BYTES as int));
            }
        },
        None => {
            assert(encode_utf8(Seq::<char>::empty()) == Seq::<u8>::empty());
        },
    }
}

} // verus!
