use rockmail::lockfile::{
    invert_code, lock_is_stale, nfs_retries_after_error, retries_after_exists, EX_CANTCREAT,
    EX_OK, EX_TEMPFAIL,
};

#[test]
fn invert_ok() {
    assert_eq!(invert_code(EX_OK, true), EX_CANTCREAT);
}

#[test]
fn invert_cantcreat() {
    assert_eq!(invert_code(EX_CANTCREAT, true), EX_OK);
}

#[test]
fn invert_passthrough() {
    assert_eq!(invert_code(EX_TEMPFAIL, true), EX_TEMPFAIL);
}

#[test]
fn invert_noop() {
    assert_eq!(invert_code(EX_OK, false), EX_OK);
}

#[test]
fn retries_count_down() {
    assert_eq!(retries_after_exists(0), None);
    assert_eq!(retries_after_exists(3), Some(2));
    assert_eq!(retries_after_exists(-1), Some(-1));
}

#[test]
fn nfs_retries_count_down() {
    assert_eq!(nfs_retries_after_error(7), Some(6));
    assert_eq!(nfs_retries_after_error(1), None);
    assert_eq!(nfs_retries_after_error(0), None);
}

#[test]
fn stale_locks() {
    assert!(!lock_is_stale(0, false, 0, 16, Some(0), 100));
    assert!(lock_is_stale(10, false, 0, 16, Some(0), 100));
    assert!(!lock_is_stale(10, false, 0, 16, Some(95), 100));
    assert!(!lock_is_stale(10, true, 0, 16, Some(0), 100));
    assert!(!lock_is_stale(10, false, 17, 16, Some(0), 100));
    assert!(!lock_is_stale(10, false, 0, 16, None, 100));
    assert!(!lock_is_stale(10, false, 0, 16, Some(200), 100));
}
