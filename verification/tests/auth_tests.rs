use buprestidae::auth::{
    any_accepted, is_valid_totp_code, is_valid_totp_code_at, login_decision, login_post,
    plus_or_minus_offset_list, step_results, totp_steps, user_with_email, AuthError, LoginForm,
};
use buprestidae::models::User;
use buprestidae::session::{SessionStore, UserSession};

const KEY: &str = "GEZDGNBVGY3TQOJQGEZDGNBVGY3TQOJQ";

fn user(id: i32, email: &str, code: &str) -> User {
    User {
        id,
        name: format!("user{}", id),
        display_name: format!("User {}", id),
        email: email.to_string(),
        code: code.to_string(),
    }
}

fn current_code() -> String {
    libreauth::oath::TOTPBuilder::new()
        .base32_key(KEY)
        .finalize()
        .unwrap()
        .generate()
}

#[test]
fn plus_or_minus_offset_list_works() {
    assert_eq!(plus_or_minus_offset_list(0), vec![0]);
    assert_eq!(plus_or_minus_offset_list(1), vec![0, -1, 1]);
    assert_eq!(plus_or_minus_offset_list(2), vec![0, -1, 1, -2, 2]);
    assert_eq!(plus_or_minus_offset_list(3), vec![0, -1, 1, -2, 2, -3, 3]);
}

#[test]
fn offset_list_covers_range_once() {
    let list = plus_or_minus_offset_list(254);
    assert_eq!(list.len(), 509);
    let mut seen = std::collections::HashSet::new();
    for v in &list {
        assert!(-254 <= *v && *v <= 254);
        assert!(seen.insert(*v));
    }
    for v in -254i16..=254 {
        assert!(seen.contains(&v));
    }
}

#[test]
fn totp_steps_step_thirty_seconds() {
    assert_eq!(totp_steps(89, 1), vec![2, 1, 3]);
    assert_eq!(totp_steps(119, 2), vec![3, 2, 4, 1, 5]);
    assert_eq!(totp_steps(1000, 0), vec![33]);
    assert_eq!(totp_steps(-1, 0), vec![u64::MAX / 30]);
}

#[test]
fn offset_list_handles_largest_tolerance() {
    let list = plus_or_minus_offset_list(255);
    assert_eq!(list.len(), 511);
    assert_eq!(list[509], -255);
    assert_eq!(list[510], 255);
    assert_eq!(totp_steps(1_000_000, 255).len(), 511);
}

#[test]
fn totp_window_rfc_examples() {
    let key = KEY.to_string();
    let code = "287082".to_string();
    assert!(is_valid_totp_code_at(&code, &key, 1, 89));
    assert!(!is_valid_totp_code_at(&code, &key, 1, 119));
    assert!(is_valid_totp_code_at(&code, &key, 2, 119));
    assert!(!is_valid_totp_code_at(&"000000".to_string(), &key, 1, 89));
    assert!(is_valid_totp_code_at(&code, &key.to_lowercase(), 1, 89));
    assert!(!is_valid_totp_code_at(&code, &"GEZDGNBVGY3TQOJQ1".to_string(), 255, 89));
}

#[test]
fn step_results_check_each_step() {
    let key = KEY.to_string();
    let code = "287082".to_string();
    assert_eq!(step_results(&code, &key, &vec![2, 1, 3]), vec![false, true, false]);
    assert_eq!(step_results(&code, &"!".to_string(), &vec![1]), vec![false]);
}

#[test]
fn any_accepted_finds_true() {
    assert!(!any_accepted(&vec![]));
    assert!(!any_accepted(&vec![false, false]));
    assert!(any_accepted(&vec![false, true, false]));
}

#[test]
fn login_decision_follows_check() {
    let form = LoginForm { email: "a@example.com".to_string(), code: "123456".to_string() };
    let mut store = SessionStore::new();
    match login_decision(&mut store, &form, user(1, "a@example.com", KEY), false, None) {
        Err(AuthError::InvalidLoginOTP(e, c)) => {
            assert_eq!(e, "a@example.com");
            assert_eq!(c, "123456");
        }
        other => panic!("unexpected {:?}", other),
    }
    assert!(matches!(
        login_decision(&mut store, &form, user(1, "a@example.com", KEY), true, None),
        Err(AuthError::SessionIdUnavailable)
    ));
    let id = login_decision(&mut store, &form, user(1, "a@example.com", KEY), true, Some("s1".to_string())).unwrap();
    assert_eq!(id, "s1");
    assert_eq!(store.get(&"s1".to_string()).unwrap().0.id, 1);
}

#[test]
fn totp_rejects_key_that_does_not_decode() {
    let code = "123456".to_string();
    let key = "not a base32 key!".to_string();
    assert!(!is_valid_totp_code(&code, &key, 1));
    assert!(!is_valid_totp_code_at(&code, &key, 1, 1_700_000_000));
}

#[test]
fn totp_accepts_current_code() {
    let code = current_code();
    assert!(is_valid_totp_code(&code, &KEY.to_string(), 1));
}

#[test]
fn totp_rejects_wrong_length_code() {
    let code = "12".to_string();
    assert!(!is_valid_totp_code(&code, &KEY.to_string(), 1));
}

#[test]
fn user_with_email_finds_first() {
    let users = vec![
        user(1, "a@example.com", KEY),
        user(2, "b@example.com", KEY),
        user(3, "b@example.com", KEY),
    ];
    let found = user_with_email(users, &"b@example.com".to_string()).unwrap();
    assert_eq!(found.id, 2);
    let users = vec![user(1, "a@example.com", KEY)];
    assert!(user_with_email(users, &"c@example.com".to_string()).is_none());
}

#[test]
fn login_unknown_email_is_refused() {
    let mut store = SessionStore::new();
    let form = LoginForm { email: "x@example.com".to_string(), code: "000000".to_string() };
    match login_post(&mut store, &form, vec![user(1, "a@example.com", KEY)]) {
        Err(AuthError::LoginEmailDoesNotExist(e)) => assert_eq!(e, "x@example.com"),
        other => panic!("unexpected {:?}", other),
    }
}

#[test]
fn login_bad_key_is_refused_with_invalid_otp() {
    let mut store = SessionStore::new();
    let form = LoginForm { email: "a@example.com".to_string(), code: "000000".to_string() };
    match login_post(&mut store, &form, vec![user(1, "a@example.com", "!!!")]) {
        Err(AuthError::InvalidLoginOTP(e, c)) => {
            assert_eq!(e, "a@example.com");
            assert_eq!(c, "000000");
        }
        other => panic!("unexpected {:?}", other),
    }
}

#[test]
fn login_with_current_code_opens_session() {
    let mut store = SessionStore::new();
    let form = LoginForm { email: "a@example.com".to_string(), code: current_code() };
    let id = login_post(&mut store, &form, vec![user(7, "a@example.com", KEY)]).unwrap();
    assert_eq!(id.len(), 64);
    let session = UserSession::from_request(&mut store, Some(&id)).unwrap();
    assert_eq!(session.0.id, 7);
    assert_eq!(session.0.email, "a@example.com");
}

#[test]
fn open_session_saves_under_given_id() {
    let mut store = SessionStore::new();
    let r = buprestidae::auth::open_session(&mut store, user(3, "c@example.com", KEY), Some("sid".to_string()));
    assert_eq!(r.unwrap(), "sid");
    assert_eq!(store.get(&"sid".to_string()).unwrap().0.id, 3);
    let r = buprestidae::auth::open_session(&mut store, user(4, "d@example.com", KEY), None);
    assert!(matches!(r, Err(AuthError::SessionIdUnavailable)));
    assert!(store.get(&"sid".to_string()).is_some());
}
