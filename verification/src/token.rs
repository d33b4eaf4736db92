//! The session-token codec: `issue` mints a signed JWT (HS256) over the
//! session claims, `verify` checks one and returns the claims. The framing
//! (base64url segments, canonical claims JSON) is verified code in this
//! crate; only the HMAC signature itself comes from the `jsonwebtoken`
//! crate. Expiry is enforced at verification time: a token whose
//! `exp` lies before `now` is rejected as expired.
//!
//! `verify` accepts exactly the canonical token shape that `issue`
//! produces: any other byte string is `Malformed`, a canonical token
//! whose signature segment is not the signature of its first two
//! segments fails as `BadSignature`.

use crate::b64::{b64_decode, b64_dec, b64_encode, b64_of, lemma_b64_of_alphabet,
    lemma_b64_roundtrip};
use crate::jsontext::{copy_range, bytes_eq, dec_of, esc, is_digit, lemma_ascii_valid_utf8,
    lemma_dec_of_digits, lemma_jstr_roundtrip, lemma_parse_number_dec, lit_at, match_lit,
    parse_jstr, parse_jstr_at, parse_number, parse_number_at, push_bytes, push_decimal,
    push_escaped};
use vstd::prelude::*;
use vstd::utf8::{decode_utf8, encode_utf8, encode_utf8_decode_utf8, is_ascii_chars,
    is_ascii_chars_encode_utf8, valid_utf8, valid_utf8_concat};

verus! {

/// Claims carried by a session token. `iat` and `exp` are seconds since
/// the epoch; `exp` is meant to be `iat` plus the configured lifetime.
/// (That the signed claims carry the raw password is a known weakness of
/// this claims schema, kept so that the schema stays pluggable; nothing
/// should come to rely on it.)
pub struct SessionJWT {
    pub iat: u64,
    pub exp: u64,
    pub email: String,
    pub password: String,
}

/// Mathematical image of `SessionJWT`.
#[verifier::ext_equal]
pub struct ClaimsView {
    pub iat: u64,
    pub exp: u64,
    pub email: Seq<char>,
    pub password: Seq<char>,
}

impl View for SessionJWT {
    type V = ClaimsView;

    open spec fn view(&self) -> ClaimsView {
        ClaimsView { iat: self.iat, exp: self.exp, email: self.email@, password: self.password@ }
    }
}

/// Why a token was rejected.
#[derive(Clone, Copy, PartialEq, Eq, Structural, Debug)]
pub enum TokenError {
    Malformed,
    BadSignature,
    Expired,
}

/// The base64url HMAC-SHA256 signature text (as ASCII bytes) that
/// `jsonwebtoken::crypto::sign` computes for a message under a key;
/// a function of the two arguments alone.
pub uninterp spec fn sig_of(msg: Seq<u8>, key: Seq<u8>) -> Seq<u8>;

/// Relies on `jsonwebtoken::crypto::sign` with HS256: it never fails for an
/// HMAC key, its result is determined by message and key alone, and it is
/// base64url text, hence ASCII.
#[verifier::external_body]
fn hmac_sign(msg: &[u8], key: &[u8]) -> (r: Vec<u8>)
    ensures
        r@ == sig_of(msg@, key@),
        forall|i: int| 0 <= i < r@.len() ==> r@[i] < 128,
{
    let key = jsonwebtoken::EncodingKey::from_secret(key);
    jsonwebtoken::crypto::sign(msg, &key, jsonwebtoken::Algorithm::HS256).unwrap().into_bytes()
}

/// Relies on std's `String::from_utf8`: it succeeds exactly on valid UTF-8
/// and returns the string whose UTF-8 encoding is the input.
#[verifier::external_body]
pub(crate) fn string_from_utf8(b: Vec<u8>) -> (r: Option<String>)
    ensures
        match r {
            Option::Some(s) => encode_utf8(s@) == b@ && valid_utf8(b@),
            Option::None => !valid_utf8(b@),
        },
{
    String::from_utf8(b).ok()
}

/// The fixed JOSE header of every token this codec mints.
pub open spec fn header_json() -> Seq<char> {
    "{\"typ\":\"JWT\",\"alg\":\"HS256\"}"@
}

pub open spec fn header_b64() -> Seq<u8> {
    b64_of(encode_utf8(header_json()))
}

pub open spec fn lit_iat() -> Seq<u8> {
    encode_utf8("{\"iat\":"@)
}

pub open spec fn lit_exp() -> Seq<u8> {
    encode_utf8(",\"exp\":"@)
}

pub open spec fn lit_email() -> Seq<u8> {
    encode_utf8(",\"email\":\""@)
}

pub open spec fn lit_password() -> Seq<u8> {
    encode_utf8("\",\"password\":\""@)
}

pub open spec fn lit_pw_sep() -> Seq<u8> {
    encode_utf8(",\"password\":\""@)
}

pub open spec fn lit_end() -> Seq<u8> {
    encode_utf8("\"}"@)
}

pub open spec fn lit_close() -> Seq<u8> {
    encode_utf8("}"@)
}

/// The canonical claims JSON, field order fixed, strings escaped.
pub open spec fn claims_json_bytes(c: ClaimsView) -> Seq<u8> {
    lit_iat() + dec_of(c.iat as nat) + lit_exp() + dec_of(c.exp as nat) + lit_email() + esc(
        encode_utf8(c.email),
    ) + lit_password() + esc(encode_utf8(c.password)) + lit_end()
}

/// The signed part of a token: header segment, dot, claims segment.
pub open spec fn msg_bytes_of(c: ClaimsView) -> Seq<u8> {
    header_b64() + seq![46u8] + b64_of(claims_json_bytes(c))
}

/// The whole token: message, dot, signature.
pub open spec fn token_bytes_of(c: ClaimsView, key: Seq<u8>) -> Seq<u8> {
    msg_bytes_of(c) + seq![46u8] + sig_of(msg_bytes_of(c), key)
}

/// Position of the first `x` at or after `from`.
pub open spec fn find_byte(s: Seq<u8>, from: int, x: u8) -> Option<int>
    decreases s.len() - from when 0 <= from <= s.len()
{
    if from >= s.len() {
        Option::None
    } else if s[from] == x {
        Option::Some(from)
    } else {
        find_byte(s, from + 1, x)
    }
}

/// The three dot-separated segments of a token, split at the first two dots.
pub open spec fn split3(b: Seq<u8>) -> Option<(Seq<u8>, Seq<u8>, Seq<u8>)> {
    match find_byte(b, 0, 46) {
        Option::None => Option::None,
        Option::Some(d1) => match find_byte(b, d1 + 1, 46) {
            Option::None => Option::None,
            Option::Some(d2) => Option::Some(
                (b.subrange(0, d1), b.subrange(d1 + 1, d2), b.subrange(d2 + 1, b.len() as int)),
            ),
        },
    }
}

/// Parses the canonical claims JSON; `None` on anything else.
pub open spec fn parse_claims_bytes(b: Seq<u8>) -> Option<ClaimsView> {
    if !lit_at(b, 0, lit_iat()) {
        Option::None
    } else {
        match parse_number_at(b, lit_iat().len() as int) {
            Option::None => Option::None,
            Option::Some((iat, i1)) => {
                if !lit_at(b, i1, lit_exp()) {
                    Option::None
                } else {
                    match parse_number_at(b, i1 + lit_exp().len()) {
                        Option::None => Option::None,
                        Option::Some((exp, i2)) => {
                            if !lit_at(b, i2, lit_email()) {
                                Option::None
                            } else {
                                match parse_jstr_at(b, i2 + lit_email().len()) {
                                    Option::None => Option::None,
                                    Option::Some((eb, i3)) => {
                                        if !lit_at(b, i3, lit_pw_sep()) {
                                            Option::None
                                        } else {
                                            match parse_jstr_at(b, i3 + lit_pw_sep().len()) {
                                                Option::None => Option::None,
                                                Option::Some((pb, i4)) => {
                                                    if !(lit_at(b, i4, lit_close()) && i4
                                                        + lit_close().len() == b.len()) {
                                                        Option::None
                                                    } else if valid_utf8(eb) && valid_utf8(pb) {
                                                        Option::Some(
                                                            ClaimsView {
                                                                iat,
                                                                exp,
                                                                email: decode_utf8(eb),
                                                                password: decode_utf8(pb),
                                                            },
                                                        )
                                                    } else {
                                                        Option::None
                                                    }
                                                },
                                            }
                                        }
                                    },
                                }
                            }
                        },
                    }
                }
            },
        }
    }
}

/// What verifying a token's UTF-8 bytes yields: the claims of a canonical,
/// correctly signed, unexpired token; otherwise the error that names what
/// failed first (shape, then signature, then expiry).
pub open spec fn verify_bytes_spec(b: Seq<u8>, key: Seq<u8>, now: u64) -> Result<
    ClaimsView,
    TokenError,
> {
    match split3(b) {
        Option::None => Result::Err(TokenError::Malformed),
        Option::Some((h, cb, sg)) => {
            if h != header_b64() {
                Result::Err(TokenError::Malformed)
            } else {
                match b64_dec(cb) {
                    Option::None => Result::Err(TokenError::Malformed),
                    Option::Some(cj) => match parse_claims_bytes(cj) {
                        Option::None => Result::Err(TokenError::Malformed),
                        Option::Some(c) => {
                            if sg != sig_of(h + seq![46u8] + cb, key) {
                                Result::Err(TokenError::BadSignature)
                            } else if now > c.exp {
                                Result::Err(TokenError::Expired)
                            } else {
                                Result::Ok(c)
                            }
                        },
                    },
                }
            }
        },
    }
}

/// `verify` on a token string, stated over the string's UTF-8 bytes.
pub open spec fn verify_token_spec(token: Seq<char>, key: Seq<u8>, now: u64) -> Result<
    ClaimsView,
    TokenError,
> {
    verify_bytes_spec(encode_utf8(token), key, now)
}

/// Concrete shape of the literal pieces of the claims JSON.
proof fn lemma_lits()
    ensures
        lit_iat().len() == 7,
        lit_exp().len() == 7,
        lit_exp()[0] == 44,
        !is_digit(lit_exp()[0]),
        lit_email().len() == 10,
        lit_email()[0] == 44,
        !is_digit(lit_email()[0]),
        lit_password().len() == 14,
        lit_password() == seq![34u8] + lit_pw_sep(),
        lit_pw_sep().len() == 13,
        lit_end().len() == 2,
        lit_end() == seq![34u8] + lit_close(),
        lit_close().len() == 1,
{
    reveal_strlit("{\"iat\":");
    reveal_strlit(",\"exp\":");
    reveal_strlit(",\"email\":\"");
    reveal_strlit("\",\"password\":\"");
    reveal_strlit(",\"password\":\"");
    reveal_strlit("\"}");
    reveal_strlit("}");
    assert(is_ascii_chars("{\"iat\":"@));
    assert(is_ascii_chars(",\"exp\":"@));
    assert(is_ascii_chars(",\"email\":\""@));
    assert(is_ascii_chars("\",\"password\":\""@));
    assert(is_ascii_chars(",\"password\":\""@));
    assert(is_ascii_chars("\"}"@));
    assert(is_ascii_chars("}"@));
    is_ascii_chars_encode_utf8("{\"iat\":"@);
    is_ascii_chars_encode_utf8(",\"exp\":"@);
    is_ascii_chars_encode_utf8(",\"email\":\""@);
    is_ascii_chars_encode_utf8("\",\"password\":\""@);
    is_ascii_chars_encode_utf8(",\"password\":\""@);
    is_ascii_chars_encode_utf8("\"}"@);
    is_ascii_chars_encode_utf8("}"@);
    assert(lit_password() =~= seq![34u8] + lit_pw_sep());
    assert(lit_end() =~= seq![34u8] + lit_close());
}

/// Parsing inverts printing of the claims JSON, for any claims.
pub proof fn lemma_claims_roundtrip(c: ClaimsView)
    ensures
        parse_claims_bytes(claims_json_bytes(c)) == Option::Some(c),
{
    lemma_lits();
    lemma_dec_of_digits(c.iat as nat);
    lemma_dec_of_digits(c.exp as nat);
    let p1 = lit_iat();
    let p2 = dec_of(c.iat as nat);
    let p3 = lit_exp();
    let p4 = dec_of(c.exp as nat);
    let p5 = lit_email();
    let p6 = esc(encode_utf8(c.email));
    let p7 = lit_password();
    let p8 = esc(encode_utf8(c.password));
    let p9 = lit_end();
    let b = claims_json_bytes(c);
    let s2 = p1.len() as int;
    let s3 = s2 + p2.len();
    let s4 = s3 + p3.len();
    let s5 = s4 + p4.len();
    let s6 = s5 + p5.len();
    let s7 = s6 + p6.len();
    let s8 = s7 + p7.len();
    let s9 = s8 + p8.len();
    assert(b == p1 + p2 + p3 + p4 + p5 + p6 + p7 + p8 + p9);
    assert(b.len() == s9 + p9.len());
    assert(b.subrange(0, s2) =~= p1);
    assert(b.subrange(s2, s3) =~= p2);
    assert(b.subrange(s3, s4) =~= p3);
    assert(b.subrange(s4, s5) =~= p4);
    assert(b.subrange(s5, s6) =~= p5);
    assert(b.subrange(s6, s7 + 1) =~= p6.push(34u8)) by {
        assert(b[s7] == p7[0]);
    }
    assert(b.subrange(s7 + 1, s8) =~= lit_pw_sep()) by {
        assert(forall|j: int| 0 <= j < 13 ==> b[s7 + 1 + j] == #[trigger] p7[1 + j]);
    }
    assert(b.subrange(s8, s9 + 1) =~= p8.push(34u8)) by {
        assert(b[s9] == p9[0]);
    }
    assert(b.subrange(s9 + 1, s9 + 2) =~= lit_close()) by {
        assert(b[s9 + 1] == p9[1]);
    }
    // the opening literal
    assert(lit_at(b, 0, p1));
    // the iat field
    assert(b[s3] == p3[0]);
    lemma_parse_number_dec(b, s2, c.iat);
    assert(parse_number_at(b, s2) == Option::Some((c.iat, s3)));
    // the separator, then the exp field
    assert(lit_at(b, s3, p3));
    assert(b[s5] == p5[0]);
    lemma_parse_number_dec(b, s4, c.exp);
    assert(parse_number_at(b, s4) == Option::Some((c.exp, s5)));
    // the separator, then the email string
    assert(lit_at(b, s5, p5));
    lemma_jstr_roundtrip(b, encode_utf8(c.email), s6);
    assert(parse_jstr_at(b, s6) == Option::Some((encode_utf8(c.email), s7 + 1)));
    // the closing quote and separator, then the password string
    assert(lit_at(b, s7 + 1, lit_pw_sep()));
    lemma_jstr_roundtrip(b, encode_utf8(c.password), s8);
    assert(parse_jstr_at(b, s8) == Option::Some((encode_utf8(c.password), s9 + 1)));
    // closing brace, end of input
    assert(lit_at(b, s9 + 1, lit_close()));
    assert(s9 + 1 + lit_close().len() == b.len());
    vstd::utf8::encode_utf8_valid_utf8(c.email);
    vstd::utf8::encode_utf8_valid_utf8(c.password);
    encode_utf8_decode_utf8(c.email);
    encode_utf8_decode_utf8(c.password);
    assert(ClaimsView {
        iat: c.iat,
        exp: c.exp,
        email: decode_utf8(encode_utf8(c.email)),
        password: decode_utf8(encode_utf8(c.password)),
    } =~= c);
}

/// `find_byte` finds `j` when the bytes before it differ from `x`.
proof fn lemma_find_byte_from(s: Seq<u8>, from: int, j: int, x: u8)
    requires
        0 <= from <= j < s.len(),
        s[j] == x,
        forall|k: int| from <= k < j ==> s[k] != x,
    ensures
        find_byte(s, from, x) == Option::Some(j),
    decreases j - from,
{
    if from < j {
        lemma_find_byte_from(s, from + 1, j, x);
    }
}

/// What verification makes of a canonical message joined to an arbitrary
/// signature segment: the signature decides, then expiry.
pub proof fn lemma_verify_shape(c: ClaimsView, key: Seq<u8>, sg: Seq<u8>, now: u64)
    ensures
        verify_bytes_spec(msg_bytes_of(c) + seq![46u8] + sg, key, now) == (if sg != sig_of(
            msg_bytes_of(c),
            key,
        ) {
            Result::<ClaimsView, TokenError>::Err(TokenError::BadSignature)
        } else if now > c.exp {
            Result::<ClaimsView, TokenError>::Err(TokenError::Expired)
        } else {
            Result::<ClaimsView, TokenError>::Ok(c)
        }),
{
    let h = header_b64();
    let cb = b64_of(claims_json_bytes(c));
    let msg = msg_bytes_of(c);
    let tb = msg + seq![46u8] + sg;
    let hl = h.len() as int;
    let ml = msg.len() as int;
    assert(msg == h + seq![46u8] + cb);
    assert(ml == hl + 1 + cb.len());
    lemma_b64_of_alphabet(encode_utf8(header_json()));
    lemma_b64_of_alphabet(claims_json_bytes(c));
    assert forall|k: int| 0 <= k < ml implies #[trigger] tb[k] == msg[k] by {}
    assert(tb[hl] == 46) by {
        assert(msg[hl] == (h + seq![46u8])[hl]);
    }
    assert forall|k: int| 0 <= k < hl implies #[trigger] tb[k] != 46 by {
        assert(msg[k] == (h + seq![46u8])[k]);
        assert(h[k] != 46);
    }
    lemma_find_byte_from(tb, 0, hl, 46);
    assert(tb[ml] == 46);
    assert forall|k: int| hl + 1 <= k < ml implies #[trigger] tb[k] != 46 by {
        assert(msg[k] == cb[k - hl - 1]);
        assert(cb[k - hl - 1] != 46);
    }
    lemma_find_byte_from(tb, hl + 1, ml, 46);
    assert(split3(tb) == Option::Some(
        (tb.subrange(0, hl), tb.subrange(hl + 1, ml), tb.subrange(ml + 1, tb.len() as int)),
    ));
    assert(tb.subrange(0, hl) =~= h);
    assert(tb.subrange(hl + 1, ml) =~= cb);
    assert(tb.subrange(ml + 1, tb.len() as int) =~= sg);
    lemma_b64_roundtrip(claims_json_bytes(c));
    lemma_claims_roundtrip(c);
    assert(h + seq![46u8] + cb == msg);
}

/// Round trip of the codec: a token minted for claims `c` verifies back to
/// exactly `c` while `now` is at or before `c.exp`, and is `Expired` after.
pub proof fn lemma_verify_issued(c: ClaimsView, key: Seq<u8>, now: u64)
    ensures
        verify_bytes_spec(token_bytes_of(c, key), key, now) == (if now <= c.exp {
            Result::<ClaimsView, TokenError>::Ok(c)
        } else {
            Result::<ClaimsView, TokenError>::Err(TokenError::Expired)
        }),
{
    lemma_verify_shape(c, key, sig_of(msg_bytes_of(c), key), now);
}

/// Tampering with the signature: a token whose first two segments are
/// canonical for claims `c` but whose signature segment is anything other
/// than their signature — for instance a valid token with any bit of its
/// signature flipped — fails as `BadSignature`, at any time.
pub proof fn lemma_tampered_signature(c: ClaimsView, key: Seq<u8>, sg: Seq<u8>, now: u64)
    requires
        sg != sig_of(msg_bytes_of(c), key),
    ensures
        verify_bytes_spec(msg_bytes_of(c) + seq![46u8] + sg, key, now) == Result::<
            ClaimsView,
            TokenError,
        >::Err(TokenError::BadSignature),
{
    lemma_verify_shape(c, key, sg, now);
}

/// Finds the first dot at or after `from`.
fn find_dot(s: &[u8], from: usize) -> (r: Option<usize>)
    requires
        from <= s@.len(),
    ensures
        match r {
            Option::Some(j) => find_byte(s@, from as int, 46) == Option::Some(j as int) && from
                <= j < s@.len() && s@[j as int] == 46 && (forall|k: int|
                from <= k < j ==> s@[k] != 46),
            Option::None => find_byte(s@, from as int, 46) is None,
        },
{
    let n = s.len();
    let mut j = from;
    while j < n
        invariant
            from <= j <= n,
            n == s@.len(),
            find_byte(s@, from as int, 46) == find_byte(s@, j as int, 46),
            forall|k: int| from <= k < j ==> s@[k] != 46,
        decreases n - j,
    {
        if s[j] == 46 {
            return Option::Some(j);
        }
        j = j + 1;
    }
    Option::None
}

/// Builds the canonical claims JSON of `claims`.
fn claims_to_json(claims: &SessionJWT) -> (out: Vec<u8>)
    ensures
        out@ == claims_json_bytes(claims@),
{
    let mut out: Vec<u8> = Vec::new();
    push_bytes(&mut out, "{\"iat\":".as_bytes());
    push_decimal(&mut out, claims.iat);
    push_bytes(&mut out, ",\"exp\":".as_bytes());
    push_decimal(&mut out, claims.exp);
    push_bytes(&mut out, ",\"email\":\"".as_bytes());
    push_escaped(&mut out, claims.email.as_str().as_bytes());
    push_bytes(&mut out, "\",\"password\":\"".as_bytes());
    push_escaped(&mut out, claims.password.as_str().as_bytes());
    push_bytes(&mut out, "\"}".as_bytes());
    proof {
        assert(out@ =~= claims_json_bytes(claims@));
    }
    out
}

/// Parses the canonical claims JSON, as `parse_claims_bytes` describes.
fn parse_claims(b: &[u8]) -> (r: Option<SessionJWT>)
    ensures
        match r {
            Option::Some(c) => parse_claims_bytes(b@) == Option::Some(c@),
            Option::None => parse_claims_bytes(b@) is None,
        },
{
    let n = b.len();
    proof {
        assert(n == b@.len());
    }
    let l_iat = "{\"iat\":".as_bytes();
    if !match_lit(b, 0, l_iat) {
        return Option::None;
    }
    let (iat, i1) = match parse_number(b, l_iat.len()) {
        Option::Some(p) => p,
        Option::None => {
            return Option::None;
        },
    };
    let l_exp = ",\"exp\":".as_bytes();
    if !match_lit(b, i1, l_exp) {
        return Option::None;
    }
    let (exp, i2) = match parse_number(b, i1 + l_exp.len()) {
        Option::Some(p) => p,
        Option::None => {
            return Option::None;
        },
    };
    let l_email = ",\"email\":\"".as_bytes();
    if !match_lit(b, i2, l_email) {
        return Option::None;
    }
    let (ebv, i3) = match parse_jstr(b, i2 + l_email.len()) {
        Option::Some(p) => p,
        Option::None => {
            return Option::None;
        },
    };
    let l_pw = ",\"password\":\"".as_bytes();
    if !match_lit(b, i3, l_pw) {
        return Option::None;
    }
    let (pbv, i4) = match parse_jstr(b, i3 + l_pw.len()) {
        Option::Some(p) => p,
        Option::None => {
            return Option::None;
        },
    };
    let l_close = "}".as_bytes();
    if !(match_lit(b, i4, l_close) && b.len() - i4 == l_close.len()) {
        return Option::None;
    }
    let ghost ebs = ebv@;
    let ghost pbs = pbv@;
    let email = match string_from_utf8(ebv) {
        Option::Some(s) => s,
        Option::None => {
            return Option::None;
        },
    };
    let password = match string_from_utf8(pbv) {
        Option::Some(s) => s,
        Option::None => {
            return Option::None;
        },
    };
    let c = SessionJWT { iat, exp, email, password };
    proof {
        encode_utf8_decode_utf8(c.email@);
        encode_utf8_decode_utf8(c.password@);
        assert(decode_utf8(ebs) == c.email@);
        assert(decode_utf8(pbs) == c.password@);
        assert(ClaimsView { iat, exp, email: decode_utf8(ebs), password: decode_utf8(pbs) } =~= c@);
    }
    Option::Some(c)
}

/// Mints the token for `claims` under `secret`. The token is exactly the
/// canonical byte string `token_bytes_of` describes, and verifying it with
/// the same secret yields the claims back while `now` is within the expiry
/// window, and `Expired` after it.
pub fn issue(claims: &SessionJWT, secret: &[u8]) -> (token: String)
    ensures
        encode_utf8(token@) == token_bytes_of(claims@, secret@),
        forall|t: u64|
            verify_token_spec(token@, secret@, t) == (if t <= claims.exp {
                Result::<ClaimsView, TokenError>::Ok(claims@)
            } else {
                Result::<ClaimsView, TokenError>::Err(TokenError::Expired)
            }),
{
    let cj = claims_to_json(claims);
    let mut cb = b64_encode(cj.as_slice());
    let mut msg = b64_encode("{\"typ\":\"JWT\",\"alg\":\"HS256\"}".as_bytes());
    msg.push(46);
    msg.append(&mut cb);
    proof {
        assert(msg@ =~= msg_bytes_of(claims@));
    }
    let mut sig = hmac_sign(msg.as_slice(), secret);
    let ghost sigv = sig@;
    let mut tb = msg;
    tb.push(46);
    tb.append(&mut sig);
    proof {
        assert(tb@ =~= token_bytes_of(claims@, secret@));
        lemma_b64_of_alphabet(encode_utf8(header_json()));
        lemma_b64_of_alphabet(claims_json_bytes(claims@));
        lemma_ascii_valid_utf8(header_b64());
        lemma_ascii_valid_utf8(seq![46u8]);
        lemma_ascii_valid_utf8(b64_of(claims_json_bytes(claims@)));
        lemma_ascii_valid_utf8(sigv);
        valid_utf8_concat(header_b64(), seq![46u8]);
        valid_utf8_concat(header_b64() + seq![46u8], b64_of(claims_json_bytes(claims@)));
        assert(header_b64() + seq![46u8] + b64_of(claims_json_bytes(claims@)) == msg_bytes_of(
            claims@,
        ));
        valid_utf8_concat(msg_bytes_of(claims@), seq![46u8]);
        valid_utf8_concat(msg_bytes_of(claims@) + seq![46u8], sigv);
        assert(msg_bytes_of(claims@) + seq![46u8] + sigv == tb@);
        assert(valid_utf8(tb@));
    }
    let token = match string_from_utf8(tb) {
        Option::Some(s) => s,
        Option::None => {
            proof {
                assert(false);
            }
            String::new()
        },
    };
    proof {
        assert forall|t: u64|
            verify_token_spec(token@, secret@, t) == (if t <= claims.exp {
                Result::<ClaimsView, TokenError>::Ok(claims@)
            } else {
                Result::<ClaimsView, TokenError>::Err(TokenError::Expired)
            }) by {
            lemma_verify_issued(claims@, secret@, t);
        }
    }
    token
}

/// Checks a token under `secret` at time `now`; exactly `verify_token_spec`.
pub fn verify(token: &str, secret: &[u8], now: u64) -> (r: Result<SessionJWT, TokenError>)
    ensures
        match r {
            Result::Ok(c) => verify_token_spec(token@, secret@, now) == Result::<
                ClaimsView,
                TokenError,
            >::Ok(c@),
            Result::Err(e) => verify_token_spec(token@, secret@, now) == Result::<
                ClaimsView,
                TokenError,
            >::Err(e),
        },
{
    let b = token.as_bytes();
    let n = b.len();
    let dot1 = match find_dot(b, 0) {
        Option::Some(j) => j,
        Option::None => {
            return Result::Err(TokenError::Malformed);
        },
    };
    let dot2 = match find_dot(b, dot1 + 1) {
        Option::Some(j) => j,
        Option::None => {
            return Result::Err(TokenError::Malformed);
        },
    };
    let ghost h = b@.subrange(0, dot1 as int);
    let ghost cbs = b@.subrange(dot1 + 1, dot2 as int);
    let ghost sgs = b@.subrange(dot2 + 1, b@.len() as int);
    let hb = b64_encode("{\"typ\":\"JWT\",\"alg\":\"HS256\"}".as_bytes());
    if dot1 != hb.len() || !match_lit(b, 0, hb.as_slice()) {
        proof {
            if dot1 == hb.len() {
                assert(h != header_b64()) by {
                    if h == header_b64() {
                        assert(b@.subrange(0, hb@.len() as int) == hb@);
                    }
                }
            } else {
                assert(h.len() != header_b64().len());
            }
        }
        return Result::Err(TokenError::Malformed);
    }
    proof {
        assert(h == header_b64());
    }
    let cbv = copy_range(b, dot1 + 1, dot2);
    let cj = match b64_decode(cbv.as_slice()) {
        Option::Some(v) => v,
        Option::None => {
            return Result::Err(TokenError::Malformed);
        },
    };
    let claims = match parse_claims(cj.as_slice()) {
        Option::Some(c) => c,
        Option::None => {
            return Result::Err(TokenError::Malformed);
        },
    };
    let msg = copy_range(b, 0, dot2);
    proof {
        assert(msg@ =~= h + seq![46u8] + cbs);
    }
    let expected = hmac_sign(msg.as_slice(), secret);
    let sgv = copy_range(b, dot2 + 1, n);
    if !bytes_eq(sgv.as_slice(), expected.as_slice()) {
        return Result::Err(TokenError::BadSignature);
    }
    if now > claims.exp {
        return Result::Err(TokenError::Expired);
    }
    Result::Ok(claims)
}

} // verus!
