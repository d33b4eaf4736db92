use rust_users::auth::{allows, Authenticator, Intercepted, RecordingHandler};
use rust_users::http::{Method, Request};
use rust_users::token::{issue, SessionJWT};

const SECRET: &[u8] = b"test-secret";
const NOW: u64 = 1_700_000_000;

fn fresh_token() -> String {
    let claims = SessionJWT {
        iat: NOW,
        exp: NOW + 3600,
        email: String::from("a@b.com"),
        password: String::from("secret"),
    };
    issue(&claims, SECRET)
}

fn middleware() -> rust_users::auth::AuthenticatorMiddleware<RecordingHandler> {
    let factory = Authenticator::new(SECRET.to_vec());
    factory.new_transform(RecordingHandler { status: 200, called: false })
}

fn request(method: Method, path: &str, authorization: Option<String>) -> Request {
    Request { method, path: String::from(path), authorization }
}

#[test]
fn no_header_is_forbidden_with_empty_body() {
    let mut mw = middleware();
    let out = mw.call(request(Method::Get, "/users", None), NOW);
    match out {
        Intercepted::Rejected(rep) => {
            assert_eq!(rep.status, 403);
            assert_eq!(rep.body, "");
        }
        Intercepted::Passed(_) => panic!("must not reach the chain without a token"),
    }
    assert!(!mw.service.called);
}

#[test]
fn valid_token_reaches_downstream() {
    let mut mw = middleware();
    let header = format!("Bearer {}", fresh_token());
    let out = mw.call(request(Method::Get, "/users", Some(header)), NOW);
    match out {
        Intercepted::Passed(status) => assert_eq!(status, 200),
        Intercepted::Rejected(_) => panic!("a valid bearer token must pass the interceptor"),
    }
    assert!(mw.service.called);
}

#[test]
fn options_bypasses_whatever_the_header_holds() {
    for auth in [None, Some(String::from("garbage")), Some(String::from("Bearer not.a.token"))] {
        let mut mw = middleware();
        let out = mw.call(request(Method::Options, "/users", auth), NOW);
        assert!(matches!(out, Intercepted::Passed(200)));
        assert!(mw.service.called);
    }
}

#[test]
fn login_path_bypasses_whatever_the_header_holds() {
    for auth in [None, Some(String::from("Bearer expired.or.junk"))] {
        let mut mw = middleware();
        let out = mw.call(request(Method::Post, "/login", auth), NOW);
        assert!(matches!(out, Intercepted::Passed(200)));
        assert!(mw.service.called);
    }
}

#[test]
fn expired_token_is_forbidden() {
    let claims = SessionJWT {
        iat: NOW - 7200,
        exp: NOW - 3600,
        email: String::from("a@b.com"),
        password: String::from("secret"),
    };
    let header = format!("Bearer {}", issue(&claims, SECRET));
    let mut mw = middleware();
    let out = mw.call(request(Method::Get, "/users", Some(header)), NOW);
    assert!(matches!(out, Intercepted::Rejected(_)));
    assert!(!mw.service.called);
}

#[test]
fn header_without_bearer_prefix_is_forbidden() {
    let token = fresh_token();
    for header in [token.clone(), format!("bearer {token}"), format!("Token {token}")] {
        let mut mw = middleware();
        let out = mw.call(request(Method::Get, "/users", Some(header)), NOW);
        assert!(matches!(out, Intercepted::Rejected(_)));
        assert!(!mw.service.called);
    }
}

#[test]
fn decision_matches_middleware() {
    let header = format!("Bearer {}", fresh_token());
    assert!(allows(&request(Method::Get, "/users", Some(header)), SECRET, NOW));
    assert!(allows(&request(Method::Options, "/users", None), SECRET, NOW));
    assert!(allows(&request(Method::Post, "/login", None), SECRET, NOW));
    assert!(!allows(&request(Method::Delete, "/users/abc", None), SECRET, NOW));
}

#[test]
fn token_for_other_secret_is_forbidden() {
    let claims = SessionJWT {
        iat: NOW,
        exp: NOW + 3600,
        email: String::from("a@b.com"),
        password: String::from("secret"),
    };
    let header = format!("Bearer {}", issue(&claims, b"another-secret"));
    let mut mw = middleware();
    let out = mw.call(request(Method::Get, "/users", Some(header)), NOW);
    assert!(matches!(out, Intercepted::Rejected(_)));
    assert!(!mw.service.called);
}
