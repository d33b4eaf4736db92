use rust_users::auth::{Authenticator, Intercepted, RecordingHandler};
use rust_users::http::{Method, Request};
use rust_users::token::verify;
use rust_users::views::{
    delete_by_id_begin, delete_user, get_users, login, new_user, verify_credentials, User,
    UserError, UserLogin,
};

const SECRET: &[u8] = b"test-secret";
const NOW: u64 = 1_700_000_000;

#[test]
fn test_login_success() {
    let creds = UserLogin {
        email: String::from("test@example.com"),
        password: String::from("secret"),
    };
    let reply = login(&creds, SECRET, NOW);
    assert_eq!(reply.status, 200);
    assert!(!reply.body.is_empty());
    let claims = verify(&reply.body, SECRET, NOW).expect("login must return a valid token");
    assert_eq!(claims.email, "test@example.com");
    assert_eq!(claims.iat, NOW);
    assert_eq!(claims.exp, NOW + 3600);
}

#[test]
fn test_login_failure() {
    let creds = UserLogin {
        email: String::from("test@example.com"),
        password: String::from("wrong_password"),
    };
    let reply = login(&creds, SECRET, NOW);
    assert_eq!(reply.status, 400);
    assert_eq!(reply.body, "Incorrect username or password");
}

#[test]
fn test_create_user() {
    // The request must first pass the interceptor with the token a login returned.
    let creds = UserLogin {
        email: String::from("test@example.com"),
        password: String::from("secret"),
    };
    let token = login(&creds, SECRET, NOW).body;
    let factory = Authenticator::new(SECRET.to_vec());
    let mut mw = factory.new_transform(RecordingHandler { status: 200, called: false });
    let req = Request {
        method: Method::Post,
        path: String::from("/users"),
        authorization: Some(format!("Bearer {}", token)),
    };
    assert!(matches!(mw.call(req, NOW), Intercepted::Passed(200)));
    let _ = User {
        firstname: String::from("John"),
        lastname: String::from("Doe"),
        email: String::from("john.doe@example.com"),
    };
    let reply = new_user(Ok(()));
    assert_eq!(reply.status, 200);
    assert_eq!(reply.body, "Item saved!");
}

#[test]
fn test_get_users() {
    let users = vec![
        User {
            firstname: String::from("Test"),
            lastname: String::from("User"),
            email: String::from("test.user@example.com"),
        },
    ];
    let reply = get_users(Ok(users));
    assert_eq!(reply.status, 200);
    assert!(reply.body.contains("\"data\":["));
    assert_eq!(
        reply.body,
        "{\"data\":[{\"firstname\":\"Test\",\"lastname\":\"User\",\
         \"email\":\"test.user@example.com\"}]}"
    );
}

#[test]
fn test_delete_user() {
    // A valid store identifier is 24 hex digits; deleting by it succeeds
    // once the repository reports success.
    let id = "507f1f77bcf86cd799439011";
    assert!(delete_by_id_begin(id).is_ok());
    let reply = delete_user(Ok(()));
    assert_eq!(reply.status, 200);
    assert_eq!(reply.body, "Item deleted!");
}

#[test]
fn login_scenario_matches_contract() {
    let good = UserLogin { email: String::from("a@b.com"), password: String::from("secret") };
    let reply = login(&good, SECRET, NOW);
    assert_eq!(reply.status, 200);
    assert!(!reply.body.is_empty());
    let bad = UserLogin { email: String::from("a@b.com"), password: String::from("wrong") };
    let reply = login(&bad, SECRET, NOW);
    assert_eq!(reply.status, 400);
    assert_eq!(reply.body, "Incorrect username or password");
}

#[test]
fn credentials_check_ignores_email() {
    let creds = UserLogin { email: String::new(), password: String::from("secret") };
    assert!(verify_credentials(&creds));
    let creds = UserLogin { email: String::from("x@y.z"), password: String::from("Secret") };
    assert!(!verify_credentials(&creds));
}

#[test]
fn invalid_object_id_is_a_client_error() {
    let outcome = delete_by_id_begin("not-a-valid-id");
    let err = match outcome {
        Err(e) => e,
        Ok(_) => panic!("an invalid identifier must be refused"),
    };
    assert!(matches!(err, UserError::InvalidObjectId(_)));
    let reply = delete_user(Err(err));
    assert_eq!(reply.status, 400);
    assert!(reply.body.starts_with("Invalid ObjectId: "));
}

#[test]
fn short_or_odd_identifiers_are_refused() {
    for bad in ["", "abc", "507f1f77bcf86cd79943901", "507f1f77bcf86cd7994390111", "zzzzzzzzzzzzzzzzzzzzzzzz"] {
        assert!(delete_by_id_begin(bad).is_err(), "{bad:?} should be invalid");
    }
    assert!(delete_by_id_begin("507F1F77BCF86CD799439011").is_ok());
}

#[test]
fn repository_failures_are_server_errors() {
    let reply = get_users(Err(String::from("store unreachable")));
    assert_eq!(reply.status, 500);
    assert_eq!(reply.body, "store unreachable");
    let reply = new_user(Err(String::from("store unreachable")));
    assert_eq!(reply.status, 500);
    assert_eq!(reply.body, "store unreachable");
    let reply = delete_user(Err(UserError::Mongo(String::from("store unreachable"))));
    assert_eq!(reply.status, 500);
    assert_eq!(reply.body, "store unreachable");
}

#[test]
fn listing_escapes_user_fields() {
    let users = vec![
        User {
            firstname: String::from("Qu\"ote"),
            lastname: String::from("Back\\slash"),
            email: String::from("tab\there"),
        },
        User {
            firstname: String::from("Plain"),
            lastname: String::from("One"),
            email: String::from("p@q.r"),
        },
    ];
    let reply = get_users(Ok(users));
    assert_eq!(reply.status, 200);
    assert_eq!(
        reply.body,
        "{\"data\":[{\"firstname\":\"Qu\\\"ote\",\"lastname\":\"Back\\\\slash\",\
         \"email\":\"tab\\u0009here\"},\
         {\"firstname\":\"Plain\",\"lastname\":\"One\",\"email\":\"p@q.r\"}]}"
    );
}

#[test]
fn listing_no_users_is_empty_array() {
    let reply = get_users(Ok(Vec::new()));
    assert_eq!(reply.status, 200);
    assert_eq!(reply.body, "{\"data\":[]}");
}
