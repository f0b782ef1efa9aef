use rockmail::delivery::mbox::mbox_frame;
use rockmail::field::parse_bytes;
use rockmail::delivery::mbox::write_escaped;
use rockmail::delivery::{FolderType, Namer};

fn escaped(data: &[u8]) -> (Vec<u8>, usize) {
    let mut buf = Vec::new();
    let n = write_escaped(&mut buf, data).unwrap();
    (buf, n)
}

#[test]
fn escaped_empty() {
    let (buf, n) = escaped(b"");
    assert_eq!(buf, b"");
    assert_eq!(n, 0);
}

#[test]
fn escaped_no_from() {
    let (buf, n) = escaped(b"hello world\n");
    assert_eq!(buf, b"hello world\n");
    assert_eq!(n, 12);
}

#[test]
fn escaped_from_at_start() {
    let (buf, n) = escaped(b"From someone\n");
    assert_eq!(buf, b">From someone\n");
    assert_eq!(n, 14);
}

#[test]
fn escaped_from_after_newline() {
    let (buf, n) = escaped(b"ok\nFrom bar\n");
    assert_eq!(buf, b"ok\n>From bar\n");
    assert_eq!(n, 13);
}

#[test]
fn escaped_multiple_froms() {
    let (buf, _) = escaped(b"From a\nFrom b\nFrom c\n");
    assert_eq!(buf, b">From a\n>From b\n>From c\n");
}

#[test]
fn escaped_from_mid_line() {
    // "From " not at line start should not be escaped
    let (buf, n) = escaped(b"x From y\n");
    assert_eq!(buf, b"x From y\n");
    assert_eq!(n, 9);
}

#[test]
fn escaped_from_without_space() {
    // "From" without trailing space is not a From_ line
    let (buf, _) = escaped(b"Fromage\n");
    assert_eq!(buf, b"Fromage\n");
}

#[test]
fn escaped_no_trailing_newline() {
    let (buf, n) = escaped(b"From x");
    assert_eq!(buf, b">From x");
    assert_eq!(n, 7);
}

#[test]
fn escaped_already_escaped() {
    // >From at line start is not double-escaped
    let (buf, _) = escaped(b">From x\n");
    assert_eq!(buf, b">From x\n");
}

#[test]
fn parse_mbox() {
    let (t, p) = FolderType::parse("/var/mail/user", false);
    assert_eq!(t, FolderType::File);
    assert_eq!(p, "/var/mail/user");
}

#[test]
fn parse_maildir() {
    let (t, p) = FolderType::parse("/home/user/Maildir/", false);
    assert_eq!(t, FolderType::Maildir);
    assert_eq!(p, "/home/user/Maildir");
}

#[test]
fn parse_maildir_trailing_slashes() {
    let (t, p) = FolderType::parse("/home/user/Maildir///", false);
    assert_eq!(t, FolderType::Maildir);
    assert_eq!(p, "/home/user/Maildir");
}

#[test]
fn parse_mh() {
    let (t, p) = FolderType::parse("/home/user/Mail/inbox/.", false);
    assert_eq!(t, FolderType::Mh);
    assert_eq!(p, "/home/user/Mail/inbox");
}

#[test]
fn parse_mh_trailing_slashes() {
    let (t, p) = FolderType::parse("/home/user/Mail/inbox//.", false);
    assert_eq!(t, FolderType::Mh);
    assert_eq!(p, "/home/user/Mail/inbox");
}

#[test]
fn parse_dir() {
    let (t, p) = FolderType::parse("/home/user/backup//", false);
    assert_eq!(t, FolderType::Maildir);
    assert_eq!(p, "/home/user/backup");
}

#[test]
fn serial_increments_same_second() {
    let mut namer = Namer::new();
    let n1 = namer.filename_at(1_000_000).unwrap();
    let n2 = namer.filename_at(1_000_000).unwrap();
    assert!(n1.contains("_0."));
    assert!(n2.contains("_1."));
}

#[test]
fn serial_restarts_when_second_changes() {
    let mut namer = Namer::with_identity(42, "mx");
    assert_eq!(namer.filename_at(7).unwrap(), "7.42_0.mx");
    assert_eq!(namer.filename_at(7).unwrap(), "7.42_1.mx");
    assert_eq!(namer.filename_at(8).unwrap(), "8.42_0.mx");
}

#[test]
fn filename_has_maildir_form() {
    let mut namer = Namer::new();
    let n = namer.filename().unwrap();
    let (time, rest) = n.split_once('.').unwrap();
    assert!(time.chars().all(|c| c.is_ascii_digit()));
    let (pid, rest) = rest.split_once('_').unwrap();
    assert!(pid.chars().all(|c| c.is_ascii_digit()));
    assert!(rest.starts_with("0."));
}

#[test]
fn folder_suffixes() {
    assert_eq!(FolderType::File.suffix(), "");
    assert_eq!(FolderType::Maildir.suffix(), "/");
    assert_eq!(FolderType::Mh.suffix(), "/.");
    assert_eq!(FolderType::Dir.suffix(), "//");
}

#[test]
fn folder_locking() {
    assert!(FolderType::File.needs_lock());
    assert!(FolderType::Dir.needs_lock());
    assert!(!FolderType::Maildir.needs_lock());
    assert!(!FolderType::Mh.needs_lock());
}

#[test]
fn parse_mh_bare() {
    let (t, p) = FolderType::parse("/.", false);
    assert_eq!(t, FolderType::Mh);
    assert_eq!(p, "");
}

#[test]
fn parse_existing_dir() {
    let d = tempfile::TempDir::new().unwrap();
    let p = d.path().to_str().unwrap();
    let (t, _) = FolderType::parse(p, std::path::Path::new(p).is_dir());
    assert_eq!(t, FolderType::Dir);
}

#[test]
fn parse_plain_path_not_dir_is_file() {
    let (t, p) = FolderType::parse("/var/mail/user", false);
    assert_eq!((t, p), (FolderType::File, "/var/mail/user"));
    let (t, p) = FolderType::parse("/var/mail/", true);
    assert_eq!((t, p), (FolderType::Maildir, "/var/mail"));
}

#[test]
fn mbox_frame_adds_from_line_and_blank_line() {
    let f = parse_bytes(b"Subject: Test\n");
    let out = mbox_frame(&f, b"Hello world\n", b"From user@host Mon Jan  1 00:00:00 2024\n", false);
    assert_eq!(
        out,
        b"From user@host Mon Jan  1 00:00:00 2024\nSubject: Test\n\nHello world\n\n".to_vec()
    );
}

#[test]
fn mbox_frame_keeps_own_from_line() {
    let f = parse_bytes(b"From sender Mon Jan  1 00:00:00 2024\nSubject: Test\n");
    let out = mbox_frame(&f, b"Body\n", b"From other@host x\n", false);
    assert!(out.starts_with(b"From sender Mon"));
    assert!(!out.windows(10).any(|w| w == b"other@host"));
}

#[test]
fn mbox_frame_escapes_and_ends_blank() {
    let f = parse_bytes(b"Subject: Test\n");
    let out = mbox_frame(&f, b"From here we go\nFrom there too\n", b"From u x\n", false);
    assert!(out.ends_with(b"\n>From here we go\n>From there too\n\n"));
    let out = mbox_frame(&f, b"No newline at end", b"From u x\n", false);
    assert!(out.ends_with(b"No newline at end\n\n"));
    let out = mbox_frame(&f, b"raw", b"From u x\n", true);
    assert!(out.ends_with(b"\n\nraw"));
    let out = mbox_frame(&f, b"", b"From u x\n", false);
    assert_eq!(out, b"From u x\nSubject: Test\n\n".to_vec());
}
