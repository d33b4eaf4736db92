//! Core of a JWT-guarded user service: a token codec (issue / verify of signed
//! session claims), a credential check, an authentication interceptor that
//! wraps an arbitrary downstream handler chain, and the rendering of the
//! service's responses.
//!
//! Tokens are standard JWTs (HS256): the HMAC signature comes from the
//! `jsonwebtoken` crate, while the framing — base64url and the canonical
//! claims JSON — is implemented and verified here.

pub mod auth;
pub mod b64;
pub mod http;
pub mod jsontext;
pub mod token;
pub mod views;

use vstd::prelude::*;

verus! {

/// Lifetime of a session token, in seconds from its issue time.
pub const JWT_EXPIRATION_SECS: u64 = 3600;

} // verus!
