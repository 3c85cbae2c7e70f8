use buprestidae::models::User;
use buprestidae::session::{SessionStore, UserSession, SESSION_CAPACITY, SESSION_COOKIE};

fn session(id: i32) -> UserSession {
    UserSession::new(User {
        id,
        name: format!("n{}", id),
        display_name: format!("N {}", id),
        email: format!("{}@example.com", id),
        code: "GEZDGNBV".to_string(),
    })
}

#[test]
fn session_read_after_write() {
    let mut store = SessionStore::new();
    store.insert("abc".to_string(), session(1));
    let s = store.get(&"abc".to_string()).unwrap();
    assert_eq!(s.0.id, 1);
    assert_eq!(s.0.email, "1@example.com");
}

#[test]
fn session_missing_id_gives_none() {
    let mut store = SessionStore::new();
    store.insert("abc".to_string(), session(1));
    assert!(store.get(&"abd".to_string()).is_none());
}

#[test]
fn session_overwrite_keeps_latest() {
    let mut store = SessionStore::new();
    store.insert("abc".to_string(), session(1));
    store.insert("abc".to_string(), session(2));
    assert_eq!(store.get(&"abc".to_string()).unwrap().0.id, 2);
}

#[test]
fn session_store_evicts_least_recently_used() {
    let mut store = SessionStore::new();
    for i in 0..SESSION_CAPACITY {
        store.insert(format!("id{}", i), session(i as i32));
    }
    // reading id0 makes id1 the least recently used
    assert!(store.get(&"id0".to_string()).is_some());
    store.insert("new".to_string(), session(100));
    assert!(store.get(&"id1".to_string()).is_none());
    assert!(store.get(&"id0".to_string()).is_some());
    assert_eq!(store.get(&"new".to_string()).unwrap().0.id, 100);
    for i in 2..SESSION_CAPACITY {
        assert!(store.get(&format!("id{}", i)).is_some());
    }
}

#[test]
fn session_new_id_is_url_safe() {
    let id = SessionStore::new_id().unwrap();
    assert_eq!(id.chars().count(), 64);
    assert!(id.chars().all(|c| c.is_ascii_alphanumeric() || c == '-' || c == '_'));
    let other = SessionStore::new_id().unwrap();
    assert_ne!(id, other);
}

#[test]
fn session_from_request_uses_cookie() {
    let mut store = SessionStore::new();
    store.insert("tok".to_string(), session(5));
    assert!(UserSession::from_request(&mut store, None).is_none());
    assert!(UserSession::from_request(&mut store, Some(&"nope".to_string())).is_none());
    assert_eq!(UserSession::from_request(&mut store, Some(&"tok".to_string())).unwrap().0.id, 5);
    assert_eq!(SESSION_COOKIE, "BUP_SESSION");
}

#[test]
fn user_session_new_keeps_user() {
    let s = session(9);
    assert_eq!(s.0.id, 9);
    assert_eq!(s.0.name, "n9");
    let d = s.duplicate();
    assert_eq!(d.0.display_name, "N 9");
}

#[test]
fn session_survives_nine_other_logins() {
    let mut store = SessionStore::new();
    store.insert("mine".to_string(), session(1));
    for i in 0..(SESSION_CAPACITY - 1) {
        store.insert(format!("other{}", i), session(10 + i as i32));
    }
    assert_eq!(store.get(&"mine".to_string()).unwrap().0.id, 1);
    let mut store = SessionStore::new();
    store.insert("mine".to_string(), session(1));
    for i in 0..SESSION_CAPACITY {
        store.insert(format!("other{}", i), session(10 + i as i32));
    }
    assert!(store.get(&"mine".to_string()).is_none());
}

#[test]
fn session_survives_many_writes_of_few_ids() {
    let mut store = SessionStore::new();
    store.insert("mine".to_string(), session(1));
    for round in 0..50 {
        let i = round % (SESSION_CAPACITY - 1);
        store.insert(format!("other{}", i), session(10 + i as i32));
    }
    assert_eq!(store.get(&"mine".to_string()).unwrap().0.id, 1);
}
