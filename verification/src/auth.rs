//! The authentication interceptor: a middleware that wraps an arbitrary downstream
//! handler chain. Pre-flight requests and the login path pass through
//! untouched; every other request passes exactly when its bearer token
//! verifies under the process-wide secret; everything else is rejected
//! with a fixed forbidden, empty-body response, without the chain ever
//! seeing the request.

use crate::http::{forbidden, forbidden_view, Method, Reply, Request, RequestView};
use crate::jsontext::copy_range;
use crate::token::verify;
use crate::token::verify_token_spec;
use vstd::prelude::*;
use vstd::string::StrSliceExecFns;

verus! {

/// What the downstream chain looks like to the interceptor: something that
/// serves a request, with a specification of the response it gives and of
/// its own state afterwards. A caller implements it for its own downstream
/// handler — `RecordingHandler` is one such, for observing the interceptor.
/// An asynchronous chain that cannot stand behind it asks `allows` for the
/// same decision instead.
pub trait Handler: Sized {
    type Response;

    /// The response the handler gives to a request.
    spec fn response_spec(&self, req: RequestView) -> Self::Response;

    /// The handler's state after serving a request.
    spec fn next_spec(&self, req: RequestView) -> Self;

    fn handle(&mut self, req: Request) -> (resp: Self::Response)
        ensures
            resp == old(self).response_spec(req@),
            *final(self) == old(self).next_spec(req@),
    ;
}

/// The bearer token of an Authorization header value: what follows
/// `Bearer `, or empty where the header is absent or shaped otherwise.
pub open spec fn bearer_of(auth: Option<Seq<char>>) -> Seq<char> {
    match auth {
        Option::Some(h) => {
            if h.len() >= 7 && h.subrange(0, 7) == "Bearer "@ {
                h.subrange(7, h.len() as int)
            } else {
                Seq::<char>::empty()
            }
        },
        Option::None => Seq::<char>::empty(),
    }
}

/// Whether the interceptor lets a request through: pre-flight requests and
/// the login path pass before any credential check; every other request
/// passes exactly when its bearer token verifies under the secret at the
/// given time.
pub open spec fn allows_spec(r: RequestView, key: Seq<u8>, now: u64) -> bool {
    ||| r.method == Method::Options
    ||| r.path == "/login"@
    ||| verify_token_spec(bearer_of(r.authorization), key, now) is Ok
}

/// An OPTIONS request always passes the interceptor, whatever the Authorization
/// header holds — absent, malformed or expired alike; by `call`'s
/// contract its response is then the downstream chain's own.
pub proof fn lemma_options_bypass(r: RequestView, key: Seq<u8>, now: u64)
    requires
        r.method == Method::Options,
    ensures
        allows_spec(r, key, now),
{
}

/// A request for the login path always passes the interceptor, whatever the
/// Authorization header holds.
pub proof fn lemma_login_bypass(r: RequestView, key: Seq<u8>, now: u64)
    requires
        r.path == "/login"@,
    ensures
        allows_spec(r, key, now),
{
}

/// For every other request the interceptor forwards exactly when the token taken
/// from `Authorization: Bearer <token>` verifies under the process secret
/// and is not expired; `issue`'s contract makes those exactly the tokens
/// the codec issued with that secret whose expiry has not passed.
pub proof fn lemma_intercept_is_token_check(r: RequestView, key: Seq<u8>, now: u64)
    requires
        r.method != Method::Options,
        r.path != "/login"@,
    ensures
        allows_spec(r, key, now) <==> verify_token_spec(bearer_of(r.authorization), key, now) is Ok,
{
}

/// Character-for-character equality of two strings.
pub fn str_eq(a: &str, b: &str) -> (r: bool)
    ensures
        r == (a@ == b@),
{
    let la = a.unicode_len();
    let lb = b.unicode_len();
    if la != lb {
        return false;
    }
    let mut i: usize = 0;
    while i < la
        invariant
            i <= la,
            la == a@.len() && la == b@.len(),
            forall|k: int| 0 <= k < i ==> a@[k] == b@[k],
        decreases la - i,
    {
        if a.get_char(i) != b.get_char(i) {
            return false;
        }
        i = i + 1;
    }
    proof {
        assert(a@ =~= b@);
    }
    true
}

/// Extracts the bearer token of a request, as `bearer_of` describes.
pub fn bearer_token<'a>(req: &'a Request) -> (t: &'a str)
    ensures
        t@ == bearer_of(req@.authorization),
{
    match &req.authorization {
        Option::Some(h) => {
            let hs: &str = h.as_str();
            let hl = hs.unicode_len();
            if hl >= 7 {
                let prefix = hs.substring_char(0, 7);
                if str_eq(prefix, "Bearer ") {
                    hs.substring_char(7, hl)
                } else {
                    proof {
                        assert(""@ =~= Seq::<char>::empty()) by {
                            reveal_strlit("");
                        }
                    }
                    ""
                }
            } else {
                proof {
                    assert(""@ =~= Seq::<char>::empty()) by {
                        reveal_strlit("");
                    }
                }
                ""
            }
        },
        Option::None => {
            proof {
                assert(""@ =~= Seq::<char>::empty()) by {
                    reveal_strlit("");
                }
            }
            ""
        },
    }
}

/// The interceptor's decision for one request.
pub fn allows(req: &Request, secret: &[u8], now: u64) -> (allow: bool)
    ensures
        allow == allows_spec(req@, secret@, now),
{
    if req.method == Method::Options {
        return true;
    }
    if str_eq(req.path.as_str(), "/login") {
        return true;
    }
    let tok = bearer_token(req);
    match verify(tok, secret, now) {
        Result::Ok(_) => true,
        Result::Err(_) => false,
    }
}

/// Outcome of one intercepted request: the downstream response passed
/// through unchanged, or the fixed rejection.
pub enum Intercepted<R> {
    Passed(R),
    Rejected(Reply),
}

/// The middleware factory. It holds the process-wide signing secret,
/// loaded once at startup, and wraps downstream services with the interceptor's check.
pub struct Authenticator {
    pub secret: Vec<u8>,
}

/// The interceptor wrapped around one downstream service.
pub struct AuthenticatorMiddleware<S> {
    pub service: S,
    pub secret: Vec<u8>,
}

impl Authenticator {
    pub fn new(secret: Vec<u8>) -> (a: Authenticator)
        ensures
            a.secret@ == secret@,
    {
        Authenticator { secret }
    }

    /// Wraps a downstream service with the interceptor's check.
    pub fn new_transform<S: Handler>(&self, service: S) -> (m: AuthenticatorMiddleware<S>)
        ensures
            m.secret@ == self.secret@,
            m.service == service,
    {
        let secret = copy_range(self.secret.as_slice(), 0, self.secret.len());
        proof {
            assert(secret@ =~= self.secret@);
        }
        AuthenticatorMiddleware { service, secret }
    }
}

impl<S: Handler> AuthenticatorMiddleware<S> {
    /// Intercepts one request. Where the check passes, the request goes to the
    /// downstream service and its response comes back unchanged; where it
    /// does not, the fixed forbidden reply comes back and the service
    /// never sees the request.
    pub fn call(&mut self, req: Request, now: u64) -> (out: Intercepted<S::Response>)
        ensures
            allows_spec(req@, old(self).secret@, now) ==> ({
                &&& out == Intercepted::<S::Response>::Passed(old(self).service.response_spec(req@))
                &&& final(self).service == old(self).service.next_spec(req@)
                &&& final(self).secret == old(self).secret
            }),
            !allows_spec(req@, old(self).secret@, now) ==> ({
                &&& out matches Intercepted::Rejected(rep) && rep@ == forbidden_view()
                &&& *final(self) == *old(self)
            }),
    {
        let allow = allows(&req, self.secret.as_slice(), now);
        if allow {
            let resp = self.service.handle(req);
            Intercepted::Passed(resp)
        } else {
            Intercepted::Rejected(forbidden())
        }
    }
}

/// A downstream stub: replies with a fixed status and records that it was
/// called, so that a caller can observe whether the interceptor forwarded a
/// request to the chain.
pub struct RecordingHandler {
    pub status: u16,
    pub called: bool,
}

impl Handler for RecordingHandler {
    type Response = u16;

    open spec fn response_spec(&self, req: RequestView) -> u16 {
        self.status
    }

    open spec fn next_spec(&self, req: RequestView) -> Self {
        RecordingHandler { status: self.status, called: true }
    }

    fn handle(&mut self, req: Request) -> (resp: u16) {
        self.called = true;
        self.status
    }
}

} // verus!
