use editor_server::backend::Backend;
use editor_server::error::ApiError;

fn user(b: &mut Backend, name: &str, pw: &str) -> u64 {
    b.creds
        .create_user(&name.as_bytes().to_vec(), &pw.as_bytes().to_vec(), 7)
        .expect("create user")
}

#[test]
fn login_then_check_returns_created_id() {
    let mut b = Backend::new(100);
    let id = user(&mut b, "alice", "secret123");
    let t = b
        .login(&b"alice".to_vec(), &b"secret123".to_vec(), 0, 11, 22)
        .expect("login");
    let uid = b.check_token(t, 1).expect("check");
    assert_eq!(uid, id);
}

#[test]
fn login_bad_password_unauthenticated() {
    let mut b = Backend::new(100);
    user(&mut b, "alice", "secret123");
    let r = b.login(&b"alice".to_vec(), &b"wrong".to_vec(), 0, 1, 2);
    assert_eq!(r, Err(ApiError::Unauthenticated));
    let r2 = b.login(&b"nobody".to_vec(), &b"secret123".to_vec(), 0, 1, 2);
    assert_eq!(r2, Err(ApiError::Unauthenticated));
}

#[test]
fn logout_is_idempotent() {
    let mut b = Backend::new(100);
    user(&mut b, "alice", "secret123");
    let t = b
        .login(&b"alice".to_vec(), &b"secret123".to_vec(), 0, 1, 2)
        .expect("login");
    assert_eq!(b.logout(t), Ok(()));
    assert_eq!(b.logout(t), Ok(()));
    assert_eq!(b.check_token(t, 1), Err(ApiError::Unauthenticated));
}

#[test]
fn logout_never_valid_token_fails() {
    let mut b = Backend::new(100);
    user(&mut b, "alice", "secret123");
    let t = b
        .login(&b"alice".to_vec(), &b"secret123".to_vec(), 0, 1, 2)
        .expect("login");
    let mut forged = t;
    forged.serial += 1;
    assert_eq!(b.logout(forged), Err(ApiError::Unauthenticated));
}

#[test]
fn sliding_expiry_keeps_session_alive() {
    let mut b = Backend::new(10);
    user(&mut b, "alice", "secret123");
    let t = b
        .login(&b"alice".to_vec(), &b"secret123".to_vec(), 0, 1, 2)
        .expect("login");
    // each call within the idle timeout of the last succeeds
    assert!(b.check_token(t, 5).is_ok());
    assert!(b.check_token(t, 14).is_ok());
    assert!(b.check_token(t, 23).is_ok());
    // the timeout elapses with no calls: 23 + 10 = 33
    assert_eq!(b.check_token(t, 33), Err(ApiError::Unauthenticated));
}

#[test]
fn expiry_without_use() {
    let mut b = Backend::new(10);
    user(&mut b, "alice", "secret123");
    let t = b
        .login(&b"alice".to_vec(), &b"secret123".to_vec(), 0, 1, 2)
        .expect("login");
    assert_eq!(b.check_token(t, 10), Err(ApiError::Unauthenticated));
}

#[test]
fn sweep_expires_sessions() {
    let mut b = Backend::new(10);
    user(&mut b, "alice", "secret123");
    let t = b
        .login(&b"alice".to_vec(), &b"secret123".to_vec(), 0, 1, 2)
        .expect("login");
    b.sweep(50);
    assert_eq!(b.check_token(t, 5), Err(ApiError::Unauthenticated));
}

#[test]
fn delete_user_revokes_all_sessions() {
    let mut b = Backend::new(100);
    let id_a = user(&mut b, "alice", "secret123");
    user(&mut b, "bob", "hunter22");
    let t1 = b
        .login(&b"alice".to_vec(), &b"secret123".to_vec(), 0, 1, 2)
        .expect("login 1");
    let t2 = b
        .login(&b"alice".to_vec(), &b"secret123".to_vec(), 0, 3, 4)
        .expect("login 2");
    let tb = b
        .login(&b"bob".to_vec(), &b"hunter22".to_vec(), 0, 5, 6)
        .expect("login bob");
    assert_eq!(b.delete_user(tb, 1, id_a), Ok(()));
    assert_eq!(b.check_token(t1, 2), Err(ApiError::Unauthenticated));
    assert_eq!(b.check_token(t2, 2), Err(ApiError::Unauthenticated));
    assert!(b.check_token(tb, 2).is_ok());
}

#[test]
fn delete_unknown_user_not_found() {
    let mut b = Backend::new(100);
    user(&mut b, "alice", "secret123");
    let t = b
        .login(&b"alice".to_vec(), &b"secret123".to_vec(), 0, 1, 2)
        .expect("login");
    assert_eq!(b.delete_user(t, 1, 999), Err(ApiError::NotFound));
}

#[test]
fn create_user_conflict_and_invalid_input() {
    let mut b = Backend::new(100);
    user(&mut b, "alice", "secret123");
    let t = b
        .login(&b"alice".to_vec(), &b"secret123".to_vec(), 0, 1, 2)
        .expect("login");
    let r = b.create_user(t, 1, &b"alice".to_vec(), &b"other9999".to_vec(), 3);
    assert_eq!(r, Err(ApiError::Conflict));
    let r2 = b.create_user(t, 2, &Vec::new(), &b"other9999".to_vec(), 3);
    assert_eq!(r2, Err(ApiError::InvalidInput));
    let r3 = b.create_user(t, 3, &b"carol".to_vec(), &Vec::new(), 3);
    assert_eq!(r3, Err(ApiError::InvalidInput));
    let r4 = b.create_user(t, 4, &b"carol".to_vec(), &b"pw123456".to_vec(), 3);
    assert!(r4.is_ok());
}

#[test]
fn protected_calls_need_token() {
    let mut b = Backend::new(100);
    user(&mut b, "alice", "secret123");
    let forged = editor_server::sessions::Token { serial: 0, entropy_hi: 0, entropy_lo: 0 };
    assert_eq!(
        b.upload(forged, 0, &Vec::new()),
        Err(ApiError::Unauthenticated)
    );
    assert_eq!(
        b.get_dancer_fiber_data(forged, 0, &b"D1".to_vec()),
        Err(ApiError::Unauthenticated)
    );
}

#[test]
fn ping_answers() {
    let b = Backend::new(100);
    assert!(b.ping());
}

#[test]
fn error_labels_are_stable() {
    assert_eq!(ApiError::Unauthenticated.label(), "unauthenticated");
    assert_eq!(ApiError::InvalidInput.label(), "invalid input");
    assert_eq!(ApiError::Conflict.label(), "conflict");
    assert_eq!(ApiError::NotFound.label(), "not found");
}
