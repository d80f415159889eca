//! DKIM signature checking and SMTP request validation for the e-mail
//! gateway of Internet Identity.
pub mod text;
pub mod strings;
pub mod crypto;
pub mod canon;
pub mod signature;
pub mod smtp;
pub mod signing;
pub mod dkim;
pub mod doh;
