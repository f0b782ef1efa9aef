use rockmail::dedup::{decide, CacheDecision};

/// A cache file as `decide` sees it: at most `maxlen` bytes are read,
/// and a new key leaves the file holding the recorded bytes.
fn check_cache(key: &str, cache: &mut Option<Vec<u8>>, maxlen: usize) -> bool {
    let held = cache.clone().unwrap_or_default();
    let n = held.len().min(maxlen);
    match decide(key, &held[..n], maxlen) {
        CacheDecision::Blank => false,
        CacheDecision::Duplicate => true,
        CacheDecision::Insert(v) => {
            *cache = Some(v);
            false
        }
    }
}

#[test]
fn new_key() {
    let mut c = None;
    assert!(!check_cache("abc", &mut c, 100));
    assert_eq!(c.unwrap(), b"abc\0\0");
}

#[test]
fn dup() {
    let mut c = None;
    check_cache("abc", &mut c, 100);
    assert!(check_cache("abc", &mut c, 100));
}

#[test]
fn empty_key() {
    let mut c = None;
    assert!(!check_cache("", &mut c, 100));
    assert!(!check_cache("  ", &mut c, 100));
    assert!(c.is_none());
}

/// Two entries — second reuses trailing null of first's double-null
/// terminator.
#[test]
fn two_entries() {
    let mut c = None;
    check_cache("a", &mut c, 100);
    check_cache("b", &mut c, 100);
    assert_eq!(c.unwrap(), b"a\0b\0\0");
}

/// Append at end when no gap exists.
#[test]
fn append_no_gap() {
    let mut c = Some(b"ab\0".to_vec());
    assert!(!check_cache("cd", &mut c, 100));
    assert_eq!(c.unwrap(), b"ab\0cd\0\0");
}

/// Overwrite a gap left by a shorter previous entry.
#[test]
fn reuse_gap() {
    let mut c = None;
    check_cache("aa", &mut c, 100);
    check_cache("bb", &mut c, 100);
    c = Some(b"\0\0\0\0bb\0\0".to_vec());
    assert!(!check_cache("x", &mut c, 100));
    assert_eq!(c.unwrap(), b"x\0\0");
}

/// Cache full, no gap: the key goes to the start.
#[test]
fn wrap_when_full() {
    let mut c = Some(b"xyzxyz".to_vec());
    assert!(!check_cache("a", &mut c, 6));
    assert_eq!(c.unwrap(), b"a\0\0");
}

#[test]
fn key_is_trimmed() {
    let mut c = None;
    check_cache("  id  ", &mut c, 100);
    assert!(check_cache("id", &mut c, 100));
}

#[test]
fn recorded_key_is_found_again() {
    let mut c = Some(b"one\0two\0".to_vec());
    assert!(!check_cache("three", &mut c, 100));
    assert!(check_cache("three", &mut c, 100));
}

#[test]
fn recorded_after_unterminated_entry_is_not_found() {
    let mut c = Some(b"xyz".to_vec());
    assert!(!check_cache("cd", &mut c, 100));
    assert_eq!(c.clone().unwrap(), b"xyzcd\0\0");
    assert!(!check_cache("cd", &mut c, 100));
}

#[test]
fn full_cache_round_trip() {
    // The first `maxlen` bytes of a longer cache, cut inside an entry.
    let contents = b"aaaa\0bbbbbbbbbbb".to_vec();
    let maxlen = contents.len();
    let c2 = match decide("<k@x>", &contents, maxlen) {
        CacheDecision::Insert(c2) => c2,
        other => panic!("expected Insert, got {other:?}"),
    };
    assert!(c2.len() <= maxlen);
    assert_eq!(&c2[..7], b"<k@x>\0\0");
    assert_eq!(decide("<k@x>", &c2, maxlen), CacheDecision::Duplicate);
}
