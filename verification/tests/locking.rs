use rockmail::locking::{escape_hostname, safe_hostname, truncate_lock_path};

#[test]
fn truncate_normal() {
    let mut p = "foo.lock".to_string();
    assert!(truncate_lock_path(&mut p));
    assert_eq!(p, "foo.loc");
}

#[test]
fn truncate_too_short() {
    let mut p = "x".to_string();
    assert!(!truncate_lock_path(&mut p));
    assert_eq!(p, "x");
}

#[test]
fn truncate_slash() {
    let mut p = "/x".to_string();
    assert!(!truncate_lock_path(&mut p));
    assert_eq!(p, "/x");
}

#[test]
fn truncate_empty() {
    let mut p = String::new();
    assert!(!truncate_lock_path(&mut p));
}

#[test]
fn truncate_multibyte_last_char() {
    let mut p = "a\u{e9}".to_string();
    assert!(truncate_lock_path(&mut p));
    assert_eq!(p, "a");
}

#[test]
fn truncate_single_multibyte_char() {
    let mut p = "\u{e9}".to_string();
    assert!(truncate_lock_path(&mut p));
    assert_eq!(p, "");
}

#[test]
fn escape_hostname_plain() {
    assert_eq!(escape_hostname("mail.example.org"), "mail.example.org");
}

#[test]
fn escape_hostname_separators() {
    assert_eq!(escape_hostname("a/b:c\\d"), "a\\057b\\072c\\134d");
}

#[test]
fn safe_hostname_has_no_separators() {
    if let Some(h) = safe_hostname() {
        assert!(!h.contains('/'));
        assert!(!h.contains(':'));
    }
}
