use rust_users::token::{issue, verify, SessionJWT, TokenError};

const SECRET: &[u8] = b"test-secret";

fn claims_at(iat: u64) -> SessionJWT {
    SessionJWT {
        iat,
        exp: iat + 3600,
        email: String::from("a@b.com"),
        password: String::from("secret"),
    }
}

#[test]
fn round_trip_within_window() {
    let now: u64 = 1_700_000_000;
    let claims = claims_at(now);
    let token = issue(&claims, SECRET);
    assert!(!token.is_empty());
    let back = verify(&token, SECRET, now).expect("freshly issued token must verify");
    assert_eq!(back.iat, claims.iat);
    assert_eq!(back.exp, claims.exp);
    assert_eq!(back.email, claims.email);
    assert_eq!(back.password, claims.password);
}

#[test]
fn round_trip_with_awkward_strings() {
    let now: u64 = 42;
    let claims = SessionJWT {
        iat: now,
        exp: now + 3600,
        email: String::from("quote\"back\\slash@example.com"),
        password: String::from("tab\there\nnewline\u{1}ctl-\u{e9}\u{1F600}"),
    };
    let token = issue(&claims, SECRET);
    let back = verify(&token, SECRET, now).expect("escaped claims must round-trip");
    assert_eq!(back.email, claims.email);
    assert_eq!(back.password, claims.password);
}

#[test]
fn round_trip_extreme_numbers() {
    let claims = SessionJWT {
        iat: 0,
        exp: u64::MAX,
        email: String::new(),
        password: String::new(),
    };
    let token = issue(&claims, SECRET);
    let back = verify(&token, SECRET, 5).expect("extreme timestamps must round-trip");
    assert_eq!(back.iat, 0);
    assert_eq!(back.exp, u64::MAX);
}

#[test]
fn expired_token_is_rejected() {
    // Issued two hours ago with a one-hour lifetime: expired once expiry
    // is enforced, which this codec does at verification time.
    let now: u64 = 1_700_000_000;
    let claims = claims_at(now - 7200);
    assert_eq!(claims.exp, now - 3600);
    let token = issue(&claims, SECRET);
    let r = verify(&token, SECRET, now);
    assert!(matches!(r, Err(TokenError::Expired)));
    // At the very second of expiry the token still passes.
    assert!(verify(&token, SECRET, claims.exp).is_ok());
    assert!(matches!(verify(&token, SECRET, claims.exp + 1), Err(TokenError::Expired)));
}

#[test]
fn tampered_signature_is_bad_signature() {
    let now: u64 = 1_700_000_000;
    let token = issue(&claims_at(now), SECRET);
    let dot = token.rfind('.').expect("a token has a signature segment");
    let mut bytes = token.clone().into_bytes();
    // Flip one bit of the first signature byte (the low seven: flipping
    // the top bit leaves the ASCII range, and the bytes are then not even
    // a string that could be presented as a token).
    for flip in 0..7u8 {
        let mut tampered = bytes.clone();
        tampered[dot + 1] ^= 1 << flip;
        let tampered = String::from_utf8(tampered).expect("still ASCII after a bit flip");
        let r = verify(&tampered, SECRET, now);
        assert!(matches!(r, Err(TokenError::BadSignature)));
    }
    // Flipping a bit of every signature byte in turn also fails.
    for i in (dot + 1)..bytes.len() {
        bytes[i] ^= 0x01;
        let tampered = String::from_utf8(bytes.clone()).expect("still ASCII");
        assert!(matches!(verify(&tampered, SECRET, now), Err(TokenError::BadSignature)));
        bytes[i] ^= 0x01;
    }
}

#[test]
fn wrong_secret_is_bad_signature() {
    let now: u64 = 1_700_000_000;
    let token = issue(&claims_at(now), SECRET);
    let r = verify(&token, b"another-secret", now);
    assert!(matches!(r, Err(TokenError::BadSignature)));
}

#[test]
fn garbage_is_malformed() {
    let now: u64 = 1_700_000_000;
    for bad in ["", "x", "a.b", "a.b.c", "e30.e30.sig", "..", "..."] {
        let r = verify(bad, SECRET, now);
        assert!(matches!(r, Err(TokenError::Malformed)), "{bad:?} should be malformed");
    }
}

#[test]
fn token_is_a_real_jwt() {
    // The minted token must decode under the jsonwebtoken crate itself,
    // with the same secret and the same claims.
    let now: u64 = 1_700_000_000;
    let claims = claims_at(now);
    let token = issue(&claims, SECRET);
    let key = jsonwebtoken::DecodingKey::from_secret(SECRET);
    let mut validation = jsonwebtoken::Validation::default();
    validation.validate_exp = false;
    validation.required_spec_claims = std::collections::HashSet::new();
    let data = jsonwebtoken::decode::<serde_json::Value>(&token, &key, &validation)
        .expect("jsonwebtoken must accept the minted token");
    assert_eq!(data.claims["iat"], serde_json::Value::from(claims.iat));
    assert_eq!(data.claims["exp"], serde_json::Value::from(claims.exp));
    assert_eq!(data.claims["email"], serde_json::Value::from("a@b.com"));
    assert_eq!(data.claims["password"], serde_json::Value::from("secret"));
    assert_eq!(data.header.alg, jsonwebtoken::Algorithm::HS256);
}

#[test]
fn token_has_three_segments() {
    let token = issue(&claims_at(7), SECRET);
    assert_eq!(token.bytes().filter(|b| *b == b'.').count(), 2);
    assert!(token.is_ascii());
}
