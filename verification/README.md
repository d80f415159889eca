# internet_identity (e-mail gateway core)

DKIM signature checking and SMTP request validation for the e-mail gateway of
Internet Identity, written in Verus.

- `src/text.rs`, `src/strings.rs`: the character model (whitespace, trimming,
  splitting, joining) and the std calls it rests on.
- `src/crypto.rs`: base64, SHA-256 and RSA PKCS#1 v1.5, taken from the
  `base64`, `sha2` and `rsa` crates behind trusted wrappers.
- `src/canon.rs`: header and body canonicalization (RFC 6376 section 3.4),
  with idempotence of both body canonicalizations proved.
- `src/signature.rs`: the DKIM-Signature tag list.
- `src/signing.rs`: the signed data (RFC 6376 section 3.7) and `b=` removal.
- `src/dkim.rs`: body hash, DNS key record, RSA check, and the verification
  steps before and after the key fetch.
- `src/doh.rs`: DNS-over-HTTPS query, the JSON response read with `serde_json`
  behind trusted wrappers, its TXT data, and the canonical response that
  replicas agree on.
- `src/smtp.rs`: SMTP gateway request types, bounds and validation.
- `app/`: Candid types, the HTTP outcall for the key, the asynchronous
  verification, and the storing endpoint.
