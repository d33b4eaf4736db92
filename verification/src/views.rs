//! The routes' decisions and responses: the login flow (credential check,
//! claims, token), and the rendering of the user routes' replies. The
//! repository itself — the document store — stays outside; these functions
//! take its outcome as a value and say exactly which response each outcome
//! earns.

use crate::auth::str_eq;
use crate::http::{Reply, ReplyView};
use crate::jsontext::{esc, lemma_ascii_valid_utf8, lemma_esc_utf8_valid, push_bytes, push_escaped};
use crate::token::{issue, string_from_utf8, token_bytes_of, ClaimsView, SessionJWT};
use crate::JWT_EXPIRATION_SECS;
use vstd::prelude::*;
use vstd::string::StringExecFns;
use vstd::utf8::{decode_utf8, encode_utf8, encode_utf8_decode_utf8, encode_utf8_valid_utf8,
    valid_utf8, valid_utf8_concat};

verus! {

/// Credentials submitted on login.
pub struct UserLogin {
    pub email: String,
    pub password: String,
}

/// Mathematical image of `UserLogin`.
pub struct UserLoginView {
    pub email: Seq<char>,
    pub password: Seq<char>,
}

impl View for UserLogin {
    type V = UserLoginView;

    open spec fn view(&self) -> UserLoginView {
        UserLoginView { email: self.email@, password: self.password@ }
    }
}

/// A user record as the service stores and lists it.
pub struct User {
    pub firstname: String,
    pub lastname: String,
    pub email: String,
}

/// Mathematical image of `User`.
pub struct UserView {
    pub firstname: Seq<char>,
    pub lastname: Seq<char>,
    pub email: Seq<char>,
}

impl View for User {
    type V = UserView;

    open spec fn view(&self) -> UserView {
        UserView { firstname: self.firstname@, lastname: self.lastname@, email: self.email@ }
    }
}

/// What the repository layer can report: a store error, carried as its
/// message, or an identifier that is not a valid store id.
pub enum UserError {
    Mongo(String),
    InvalidObjectId(String),
}

/// The placeholder identity check: the configured password, any email.
pub open spec fn placeholder_password() -> Seq<char> {
    "secret"@
}

pub open spec fn credentials_ok(c: UserLoginView) -> bool {
    c.password == placeholder_password()
}

/// The credential verifier: accepts exactly the placeholder password,
/// leaving the email unchecked. A stand-in for a pluggable identity
/// backend, as the service has always had.
pub fn verify_credentials(creds: &UserLogin) -> (ok: bool)
    ensures
        ok == credentials_ok(creds@),
{
    str_eq(creds.password.as_str(), "secret")
}

/// The claims a login at time `now` puts into its token.
pub open spec fn session_claims(c: UserLoginView, now: u64) -> ClaimsView
    recommends
        now + JWT_EXPIRATION_SECS <= u64::MAX,
{
    ClaimsView {
        iat: now,
        exp: (now + JWT_EXPIRATION_SECS) as u64,
        email: c.email,
        password: c.password,
    }
}

/// The login response: on the placeholder credentials, success with the
/// raw token as body; otherwise a client error with the fixed message.
pub open spec fn login_view(c: UserLoginView, key: Seq<u8>, now: u64) -> ReplyView
    recommends
        now + JWT_EXPIRATION_SECS <= u64::MAX,
{
    if credentials_ok(c) {
        ReplyView { status: 200, body: decode_utf8(token_bytes_of(session_claims(c, now), key)) }
    } else {
        ReplyView { status: 400, body: "Incorrect username or password"@ }
    }
}

/// The login flow: verify the credentials, and either mint a token for
/// claims issued at `now` and expiring one lifetime later, or refuse.
pub fn login(creds: &UserLogin, secret: &[u8], now: u64) -> (r: Reply)
    requires
        now <= u64::MAX - JWT_EXPIRATION_SECS,
    ensures
        r@ == login_view(creds@, secret@, now),
{
    if verify_credentials(creds) {
        let claims = SessionJWT {
            iat: now,
            exp: now + JWT_EXPIRATION_SECS,
            email: creds.email.clone(),
            password: creds.password.clone(),
        };
        let token = issue(&claims, secret);
        proof {
            encode_utf8_decode_utf8(token@);
            assert(claims@ =~= session_claims(creds@, now));
        }
        Reply { status: 200, body: token }
    } else {
        Reply { status: 400, body: String::from_str("Incorrect username or password") }
    }
}

/// One user as a JSON object.
pub open spec fn user_json(u: UserView) -> Seq<u8> {
    encode_utf8("{\"firstname\":\""@) + esc(encode_utf8(u.firstname)) + encode_utf8(
        "\",\"lastname\":\""@,
    ) + esc(encode_utf8(u.lastname)) + encode_utf8("\",\"email\":\""@) + esc(encode_utf8(u.email))
        + encode_utf8("\"}"@)
}

/// The users after the first, each preceded by a comma.
pub open spec fn rest_json(us: Seq<UserView>) -> Seq<u8>
    decreases us.len(),
{
    if us.len() == 0 {
        Seq::<u8>::empty()
    } else {
        seq![44u8] + user_json(us[0]) + rest_json(us.skip(1))
    }
}

/// A JSON array of users.
pub open spec fn users_json(us: Seq<UserView>) -> Seq<u8> {
    if us.len() == 0 {
        Seq::<u8>::empty()
    } else {
        user_json(us[0]) + rest_json(us.skip(1))
    }
}

/// The whole body of a successful listing.
pub open spec fn users_body(us: Seq<UserView>) -> Seq<u8> {
    encode_utf8("{\"data\":["@) + users_json(us) + encode_utf8("]}"@)
}

pub open spec fn views_of(us: Seq<User>) -> Seq<UserView> {
    us.map_values(|u: User| u@)
}

/// Every user object rendered is valid UTF-8.
proof fn lemma_user_json_valid(u: UserView)
    ensures
        valid_utf8(user_json(u)),
{
    encode_utf8_valid_utf8("{\"firstname\":\""@);
    encode_utf8_valid_utf8("\",\"lastname\":\""@);
    encode_utf8_valid_utf8("\",\"email\":\""@);
    encode_utf8_valid_utf8("\"}"@);
    lemma_esc_utf8_valid(u.firstname);
    lemma_esc_utf8_valid(u.lastname);
    lemma_esc_utf8_valid(u.email);
    valid_utf8_concat(encode_utf8("{\"firstname\":\""@), esc(encode_utf8(u.firstname)));
    valid_utf8_concat(
        encode_utf8("{\"firstname\":\""@) + esc(encode_utf8(u.firstname)),
        encode_utf8("\",\"lastname\":\""@),
    );
    valid_utf8_concat(
        encode_utf8("{\"firstname\":\""@) + esc(encode_utf8(u.firstname)) + encode_utf8(
            "\",\"lastname\":\""@,
        ),
        esc(encode_utf8(u.lastname)),
    );
    valid_utf8_concat(
        encode_utf8("{\"firstname\":\""@) + esc(encode_utf8(u.firstname)) + encode_utf8(
            "\",\"lastname\":\""@,
        ) + esc(encode_utf8(u.lastname)),
        encode_utf8("\",\"email\":\""@),
    );
    valid_utf8_concat(
        encode_utf8("{\"firstname\":\""@) + esc(encode_utf8(u.firstname)) + encode_utf8(
            "\",\"lastname\":\""@,
        ) + esc(encode_utf8(u.lastname)) + encode_utf8("\",\"email\":\""@),
        esc(encode_utf8(u.email)),
    );
    valid_utf8_concat(
        encode_utf8("{\"firstname\":\""@) + esc(encode_utf8(u.firstname)) + encode_utf8(
            "\",\"lastname\":\""@,
        ) + esc(encode_utf8(u.lastname)) + encode_utf8("\",\"email\":\""@) + esc(
            encode_utf8(u.email),
        ),
        encode_utf8("\"}"@),
    );
}

proof fn lemma_rest_json_valid(us: Seq<UserView>)
    ensures
        valid_utf8(rest_json(us)),
    decreases us.len(),
{
    if us.len() > 0 {
        lemma_user_json_valid(us[0]);
        lemma_rest_json_valid(us.skip(1));
        lemma_ascii_valid_utf8(seq![44u8]);
        valid_utf8_concat(seq![44u8], user_json(us[0]));
        valid_utf8_concat(seq![44u8] + user_json(us[0]), rest_json(us.skip(1)));
    }
}

proof fn lemma_users_body_valid(us: Seq<UserView>)
    ensures
        valid_utf8(users_body(us)),
{
    encode_utf8_valid_utf8("{\"data\":["@);
    encode_utf8_valid_utf8("]}"@);
    if us.len() > 0 {
        lemma_user_json_valid(us[0]);
        lemma_rest_json_valid(us.skip(1));
        valid_utf8_concat(user_json(us[0]), rest_json(us.skip(1)));
    }
    valid_utf8_concat(encode_utf8("{\"data\":["@), users_json(us));
    valid_utf8_concat(encode_utf8("{\"data\":["@) + users_json(us), encode_utf8("]}"@));
}

/// Appends one user as a JSON object.
fn push_user(out: &mut Vec<u8>, u: &User)
    ensures
        final(out)@ == old(out)@ + user_json(u@),
{
    push_bytes(out, "{\"firstname\":\"".as_bytes());
    push_escaped(out, u.firstname.as_str().as_bytes());
    push_bytes(out, "\",\"lastname\":\"".as_bytes());
    push_escaped(out, u.lastname.as_str().as_bytes());
    push_bytes(out, "\",\"email\":\"".as_bytes());
    push_escaped(out, u.email.as_str().as_bytes());
    push_bytes(out, "\"}".as_bytes());
    proof {
        assert(out@ =~= old(out)@ + user_json(u@));
    }
}

/// The listing route's answer to the repository's outcome: the users as
/// `{"data":[...]}` on success, the store's message with a server error
/// otherwise.
pub fn get_users(found: Result<Vec<User>, String>) -> (r: Reply)
    ensures
        match found {
            Result::Ok(us) => r@.status == 200 && encode_utf8(r@.body) == users_body(
                views_of(us@),
            ),
            Result::Err(m) => r@.status == 500 && r@.body == m@,
        },
{
    match found {
        Result::Ok(users) => {
            let ghost vs = views_of(users@);
            let mut out: Vec<u8> = Vec::new();
            push_bytes(&mut out, "{\"data\":[".as_bytes());
            let n = users.len();
            if n > 0 {
                push_user(&mut out, &users[0]);
                proof {
                    assert(vs[0] == users@[0]@);
                    assert(out@ + rest_json(vs.skip(1)) =~= encode_utf8("{\"data\":["@)
                        + users_json(vs));
                }
                let mut i: usize = 1;
                while i < n
                    invariant
                        1 <= i <= n,
                        n == users@.len(),
                        vs == views_of(users@),
                        out@ + rest_json(vs.skip(i as int)) == encode_utf8("{\"data\":["@)
                            + users_json(vs),
                    decreases n - i,
                {
                    let ghost prev = out@;
                    out.push(44);
                    push_user(&mut out, &users[i]);
                    proof {
                        let rest = rest_json(vs.skip(i as int));
                        assert(vs.skip(i as int)[0] == vs[i as int]);
                        assert(vs[i as int] == users@[i as int]@);
                        assert(vs.skip(i as int).skip(1) =~= vs.skip(i + 1));
                        assert(out@ =~= prev + (seq![44u8] + user_json(vs[i as int])));
                        assert(out@ + rest_json(vs.skip(i + 1)) =~= prev + rest_json(
                            vs.skip(i as int),
                        ));
                    }
                    i = i + 1;
                }
                proof {
                    assert(vs.skip(n as int) =~= Seq::<UserView>::empty());
                    assert(rest_json(vs.skip(n as int)) =~= Seq::<u8>::empty());
                    assert(out@ =~= encode_utf8("{\"data\":["@) + users_json(vs));
                }
            } else {
                proof {
                    assert(users_json(vs) =~= Seq::<u8>::empty());
                    assert(out@ =~= encode_utf8("{\"data\":["@) + users_json(vs));
                }
            }
            push_bytes(&mut out, "]}".as_bytes());
            proof {
                assert(out@ =~= users_body(vs));
                lemma_users_body_valid(vs);
            }
            let body = match string_from_utf8(out) {
                Option::Some(s) => s,
                Option::None => {
                    proof {
                        assert(false);
                    }
                    String::new()
                },
            };
            Reply { status: 200, body }
        },
        Result::Err(m) => Reply { status: 500, body: m },
    }
}

/// The creation route's answer to the repository's outcome.
pub fn new_user(saved: Result<(), String>) -> (r: Reply)
    ensures
        match saved {
            Result::Ok(_) => r@.status == 200 && r@.body == "Item saved!"@,
            Result::Err(m) => r@.status == 500 && r@.body == m@,
        },
{
    match saved {
        Result::Ok(_) => Reply { status: 200, body: String::from_str("Item saved!") },
        Result::Err(m) => Reply { status: 500, body: m },
    }
}

/// The delete route's answer to the repository's outcome: a bad identifier
/// is the caller's error, anything else from the store is the server's.
pub fn delete_user(outcome: Result<(), UserError>) -> (r: Reply)
    ensures
        match outcome {
            Result::Ok(_) => r@.status == 200 && r@.body == "Item deleted!"@,
            Result::Err(UserError::Mongo(m)) => r@.status == 500 && r@.body == m@,
            Result::Err(UserError::InvalidObjectId(m)) => r@.status == 400 && r@.body
                == "Invalid ObjectId: "@ + m@,
        },
{
    match outcome {
        Result::Ok(_) => Reply { status: 200, body: String::from_str("Item deleted!") },
        Result::Err(UserError::Mongo(m)) => Reply { status: 500, body: m },
        Result::Err(UserError::InvalidObjectId(m)) => {
            let mut body = String::from_str("Invalid ObjectId: ");
            body.append(m.as_str());
            Reply { status: 400, body }
        },
    }
}

/// A valid store identifier: exactly 24 hexadecimal digits.
pub open spec fn is_hex_char(c: char) -> bool {
    ('0' <= c && c <= '9') || ('a' <= c && c <= 'f') || ('A' <= c && c <= 'F')
}

pub open spec fn is_object_id_str(s: Seq<char>) -> bool {
    s.len() == 24 && forall|i: int| 0 <= i < s.len() ==> is_hex_char(#[trigger] s[i])
}

#[verifier::external_type_specification]
#[verifier::external_body]
pub struct ExObjectId(mongodb::bson::oid::ObjectId);

/// Relies on bson's `ObjectId::parse_str`: it hex-decodes the string and
/// wants twelve bytes, so it succeeds exactly on 24 hexadecimal digits;
/// on failure its error's text is handed back.
#[verifier::external_body]
fn parse_object_id(s: &str) -> (r: Result<mongodb::bson::oid::ObjectId, String>)
    ensures
        r is Ok <==> is_object_id_str(s@),
{
    mongodb::bson::oid::ObjectId::parse_str(s).map_err(|e| format!("{}", e))
}

/// First step of deleting a user: the identifier must be a valid store id.
/// An invalid one earns `InvalidObjectId` with the store's message; a valid
/// one yields the parsed identifier for the repository to delete by.
pub fn delete_by_id_begin(id: &str) -> (r: Result<mongodb::bson::oid::ObjectId, UserError>)
    ensures
        r is Ok <==> is_object_id_str(id@),
        r is Err ==> r matches Result::Err(UserError::InvalidObjectId(_)),
{
    match parse_object_id(id) {
        Result::Ok(oid) => Result::Ok(oid),
        Result::Err(m) => Result::Err(UserError::InvalidObjectId(m)),
    }
}

} // verus!
