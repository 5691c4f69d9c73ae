use rebos::lock::{is_lock_on, is_locked, lock_off, lock_on, lock_state, LockError, LockState, ProcessToken};

#[test]
fn lock_state_from_files() {
    let me = "abc".to_string();
    assert_eq!(lock_state(false, &None, &me), LockState::Unlocked);
    assert_eq!(lock_state(true, &Some("abc\n".to_string()), &me), LockState::OnOwned);
    assert_eq!(lock_state(true, &Some("xyz".to_string()), &me), LockState::OnForeign);
    assert_eq!(lock_state(true, &None, &me), LockState::OnForeign);
}

#[test]
fn lock_on_decides_by_state() {
    assert_eq!(lock_on(LockState::Unlocked), Ok(true));
    assert_eq!(lock_on(LockState::OnOwned), Ok(false));
    assert_eq!(lock_on(LockState::OnForeign), Err(LockError::Foreign));
}

#[test]
fn lock_off_only_releases_own_or_ownerless_lock() {
    let me = "abc".to_string();
    assert!(!lock_off(false, &None, &me));
    assert!(lock_off(true, &None, &me));
    assert!(lock_off(true, &Some("abc".to_string()), &me));
    assert!(!lock_off(true, &Some("xyz".to_string()), &me));
}

#[test]
fn is_lock_on_only_for_a_foreign_lock() {
    assert!(!is_lock_on(LockState::Unlocked));
    assert!(!is_lock_on(LockState::OnOwned));
    assert!(is_lock_on(LockState::OnForeign));
}

#[test]
fn is_locked_ignores_ownership() {
    assert!(!is_locked(LockState::Unlocked));
    assert!(is_locked(LockState::OnOwned));
    assert!(is_locked(LockState::OnForeign));
}

#[test]
fn tokens_are_fresh_and_well_formed() {
    let a = ProcessToken::generate();
    let b = ProcessToken::generate();
    assert_eq!(a.id.chars().count(), 43);
    assert_eq!(a.id.chars().nth(21), Some('_'));
    assert!(a.id.chars().all(|c| c.is_ascii_alphanumeric() || c == '_' || c == '-'));
    assert_ne!(a.id, b.id);
}
