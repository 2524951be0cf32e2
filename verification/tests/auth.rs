use argon2::password_hash::{PasswordHasher, SaltString};
use argon2::Argon2;
use dash::auth::{
    check_password, parse_cookie, session_cookie, session_expiry, PasswordError, SessionLookup,
    SessionStore, SESSION_MAX_AGE,
};

#[test]
fn cookies_are_found_by_name() {
    let header = "theme=dark; dashboard_session=abc123; lang=en";
    assert_eq!(parse_cookie(header, "dashboard_session").as_deref(), Some("abc123"));
    assert_eq!(parse_cookie(header, "theme").as_deref(), Some("dark"));
    assert_eq!(parse_cookie(header, "missing"), None);
}

#[test]
fn cookie_values_keep_later_equals_signs_and_are_trimmed() {
    assert_eq!(parse_cookie("  a=b=c  ;x=1", "a").as_deref(), Some("b=c"));
    assert_eq!(parse_cookie("a; a=2", "a").as_deref(), Some("2"));
    assert_eq!(parse_cookie("a=1; a=2", "a").as_deref(), Some("1"));
    assert_eq!(parse_cookie("\u{3000}a=\u{a0}", "a").as_deref(), Some(""));
    assert_eq!(parse_cookie("", "a"), None);
    assert_eq!(parse_cookie(" a =1", "a"), None);
}

#[test]
fn session_cookie_text() {
    assert_eq!(
        session_cookie("abc"),
        "dashboard_session=abc; HttpOnly; Path=/; SameSite=Lax; Max-Age=2592000"
    );
}

#[test]
fn sessions_expire_after_thirty_days() {
    let mut store = SessionStore::new();
    let created = 1_000;
    let expires = session_expiry(created);
    assert_eq!(expires, created + 30 * 24 * 3600 * 1_000_000_000);
    store.insert("s1".to_string(), expires);
    let lookup = SessionLookup::Id("s1".to_string());
    assert!(store.is_authenticated(&lookup, created));
    assert!(store.is_authenticated(&lookup, created + SESSION_MAX_AGE - 1));
    assert!(!store.is_authenticated(&lookup, created + SESSION_MAX_AGE));
    // the expired session was dropped for good
    assert!(!store.is_authenticated(&lookup, created));
}

#[test]
fn server_calls_pass_and_cookieless_requests_fail() {
    let mut store = SessionStore::new();
    assert!(store.is_authenticated(&SessionLookup::NoContext, 0));
    assert!(!store.is_authenticated(&SessionLookup::NoId, 0));
    assert!(!store.is_authenticated(&SessionLookup::Id("x".to_string()), 0));
}

#[test]
fn creating_a_session_again_replaces_its_expiry() {
    let mut store = SessionStore::new();
    store.insert("s".to_string(), 10);
    store.insert("t".to_string(), 100);
    store.insert("s".to_string(), 50);
    assert!(store.is_authenticated(&SessionLookup::Id("s".to_string()), 20));
    assert!(store.is_authenticated(&SessionLookup::Id("t".to_string()), 60));
    assert!(!store.is_authenticated(&SessionLookup::Id("s".to_string()), 60));
}

fn hash(password: &str) -> String {
    let salt = SaltString::encode_b64(b"fixed salt bytes").unwrap();
    Argon2::default().hash_password(password.as_bytes(), &salt).unwrap().to_string()
}

#[test]
fn passwords_are_checked_against_the_stored_hash() {
    let stored = format!("{}\n", hash("hunter2"));
    assert_eq!(check_password(&stored, " hunter2\n"), Ok(true));
    assert_eq!(check_password(&stored, "hunter3"), Ok(false));
    assert_eq!(check_password("not a hash", "hunter2"), Err(PasswordError::MalformedHash));
}
