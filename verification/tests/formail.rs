use rockmail::formail::headers::message_id_of;
use rockmail::formail::run::{formail_output, FormailError, OutputOpts};
use rockmail::dedup::CacheDecision;
use rockmail::field::{Field, FieldList};
use rockmail::formail::address::{addr_penalty, extract_address};
use rockmail::formail::args::{parse_header_arg, parse_skip_total};
use rockmail::formail::headers::{generate_message_id, process_headers, Args, HeaderError};
use rockmail::formail::output::{
    check_duplicate, from_line_for, log_summary, output_extracted, output_log_summary,
};
use rockmail::formail::read_headers;
use rockmail::formail::reply::generate_reply;
use rockmail::formail::sender::{find_reply_address, from_line_addr, get_sender, senders_ok, SenderMode};
use rockmail::formail::split::{
    is_header_field, output_body, parse_content_length, process_line, Quote, SplitConfig,
    SplitState,
};

fn strings(v: &[&str]) -> Vec<String> {
    v.iter().map(|s| s.to_string()).collect()
}

#[test]
fn parse_skip_total_skip_only() {
    let args = strings(&["formail", "+5", "-a", "X:"]);
    let (skip, total, rest) = parse_skip_total(&args);
    assert_eq!(skip, Some(5));
    assert_eq!(total, None);
    assert_eq!(rest, vec!["formail", "-a", "X:"]);
}

#[test]
fn parse_skip_total_total_only() {
    let args = strings(&["formail", "-10", "-f"]);
    let (skip, total, rest) = parse_skip_total(&args);
    assert_eq!(skip, None);
    assert_eq!(total, Some(10));
    assert_eq!(rest, vec!["formail", "-f"]);
}

#[test]
fn parse_skip_total_both() {
    let args = strings(&["formail", "+1", "-5", "-s"]);
    let (skip, total, rest) = parse_skip_total(&args);
    assert_eq!(skip, Some(1));
    assert_eq!(total, Some(5));
    assert_eq!(rest, vec!["formail", "-s"]);
}

#[test]
fn parse_skip_total_stops_at_other_argument() {
    let args = strings(&["formail", "-s", "+3", "-x5"]);
    let (skip, total, rest) = parse_skip_total(&args);
    assert_eq!(skip, None);
    assert_eq!(total, None);
    assert_eq!(rest, vec!["formail", "-s", "+3", "-x5"]);
}

#[test]
fn parse_header_arg_with_value() {
    let (name, value) = parse_header_arg("Subject: Test");
    assert_eq!(name, "Subject");
    assert_eq!(value, "Test");
}

#[test]
fn parse_header_arg_name_only() {
    let (name, value) = parse_header_arg("Received:");
    assert_eq!(name, "Received");
    assert_eq!(value, "");
}

#[test]
fn parse_header_arg_without_colon() {
    let (name, value) = parse_header_arg("X-Flag");
    assert_eq!(name, "X-Flag");
    assert_eq!(value, "");
}

#[test]
fn extract_address_angle() {
    assert_eq!(extract_address("John <john@example.com>"), "john@example.com");
}

#[test]
fn extract_address_bare() {
    assert_eq!(extract_address("john@example.com"), "john@example.com");
}

#[test]
fn extract_address_malformed() {
    // '>' before '<' should not panic, should find the last '<'
    assert_eq!(extract_address("John > Smith <user@host.com>"), "user@host.com");
    // No closing bracket
    assert_eq!(extract_address("John <broken"), "John");
    // Empty angle brackets
    assert_eq!(extract_address("John <>"), "");
    // Nested brackets - takes content after last '<'
    assert_eq!(extract_address("<outer<inner@host>>"), "inner@host");
}

#[test]
fn extract_address_skips_comments_and_keeps_quotes() {
    assert_eq!(extract_address("(the boss) boss@example.com (work)"), "boss@example.com");
    assert_eq!(extract_address("\"John Smith\"@example.com rest"), "\"John Smith\"@example.com");
}

#[test]
fn addr_penalty_levels() {
    assert_eq!(addr_penalty("localuser"), 48);
    assert_eq!(addr_penalty("user@host.UUCP"), 36);
    assert_eq!(addr_penalty("user@localhost"), 24);
    assert_eq!(addr_penalty("host!user"), 12);
    assert_eq!(addr_penalty("user@example.com"), 0);
}

#[test]
fn from_line_addr_simple_and_bang_path() {
    assert_eq!(
        from_line_addr("From user@example.com Mon Jan  1 00:00:00 2024"),
        ("user@example.com".to_string(), 0)
    );
    assert_eq!(
        from_line_addr("From user Mon Jan  1 00:00:00 2024 remote from gateway"),
        ("gateway!user".to_string(), 0)
    );
    assert_eq!(
        from_line_addr("From a Mon remote from x\n>From b Tue remote from y"),
        ("x!y!b".to_string(), 2)
    );
}

#[test]
fn is_header_field_valid() {
    assert!(is_header_field(b"Subject: Test\n"));
    assert!(is_header_field(b"From foo@bar Mon Jan 1\n"));
    assert!(is_header_field(b"X-Custom: value\n"));
}

#[test]
fn is_header_field_invalid() {
    assert!(!is_header_field(b"Not a header\n"));
    assert!(!is_header_field(b" continuation\n"));
    assert!(!is_header_field(b"\n"));
}

#[test]
fn content_length_first_number_wins() {
    assert_eq!(parse_content_length(b"Subject: x\ncontent-length:  42 \nContent-Length: 7\n"), 42);
    assert_eq!(parse_content_length(b"Content-Length: many\nContent-Length: 7\n"), 7);
    assert_eq!(parse_content_length(b"Subject: x\n"), 0);
}

#[test]
fn output_body_custom_prefix() {
    let body = b"Hello\nFrom me\nFrom the start\nGoodbye\n";
    let mut out = Vec::new();
    output_body(&body[..], &mut out, Quote::From, b"|");
    assert_eq!(out, b"Hello\n|From me\n|From the start\nGoodbye\n");
}

#[test]
fn output_body_quotes_every_line() {
    let mut out = Vec::new();
    assert!(output_body(b"a\nb", &mut out, Quote::All, b"> "));
    assert_eq!(out, b"> a\n> b");
    let mut none = Vec::new();
    assert!(!output_body(b"", &mut none, Quote::All, b"> "));
    assert!(none.is_empty());
}

fn header(fields: &[(&[u8], &[u8])]) -> FieldList {
    let mut l = FieldList::new();
    for (n, v) in fields {
        l.push(Field::from_parts(n, v));
    }
    l
}

#[test]
fn reply_to_field() {
    let fields = header(&[
        (b"From:", b"sender@example.com"),
        (b"Subject:", b"Test"),
        (b"Message-ID:", b"<123@example.com>"),
    ]);
    let args = Args { trust: true, reply: true, ..Args::default() };
    let reply = generate_reply(&args, &fields).unwrap();
    assert!(reply.find(b"To").is_some());
    assert!(reply.find(b"Subject").is_some());
    assert!(reply.find(b"In-Reply-To").is_some());
}

#[test]
fn reply_subject_adds_re() {
    let fields = header(&[(b"From:", b"sender@example.com"), (b"Subject:", b"Hello")]);
    let args = Args { trust: true, reply: true, ..Args::default() };
    let reply = generate_reply(&args, &fields).unwrap();
    let subj = reply.find(b"Subject").unwrap();
    assert!(subj.value().starts_with(b" Re:"));
}

#[test]
fn reply_subject_always_adds_re() {
    // procmail always adds Re:, even if already present
    let fields = header(&[(b"From:", b"sender@example.com"), (b"Subject:", b"Re: Hello")]);
    let args = Args { trust: true, reply: true, ..Args::default() };
    let reply = generate_reply(&args, &fields).unwrap();
    let subj = reply.find(b"Subject").unwrap();
    let val = std::str::from_utf8(subj.value()).unwrap();
    assert!(val.contains("Re: Re: Hello"));
}

#[test]
fn reply_carries_references_and_loops() {
    let fields = header(&[
        (b"From:", b"a@b.c"),
        (b"References:", b" <1@x> "),
        (b"Message-ID:", b"<2@x>"),
        (b"X-Loop:", b"me"),
        (b"X-Keep:", b"yes"),
    ]);
    let args = Args { rename_insert: vec!["X-Keep:".into()], ..Args::default() };
    let reply = generate_reply(&args, &fields).unwrap();
    let mut out = Vec::new();
    reply.write_to(&mut out).unwrap();
    assert_eq!(
        out,
        b"To: a@b.c\nReferences: <1@x> <2@x>\nIn-Reply-To: <2@x>\nX-Loop: me\nX-Keep: yes\n".to_vec()
    );
}

#[test]
fn reply_unknown_sender() {
    let fields = header(&[(b"Subject:", b"hi")]);
    let reply = generate_reply(&Args::default(), &fields).unwrap();
    assert_eq!(reply.find(b"To").unwrap().value(), b" UNKNOWN");
}

#[test]
fn find_reply_trusted() {
    let fields = header(&[(b"Reply-To:", b"reply@example.com"), (b"From:", b"from@example.com")]);
    let args = Args { trust: true, ..Args::default() };
    let addr = find_reply_address(&args, &fields).unwrap();
    assert_eq!(addr, "reply@example.com");
}

#[test]
fn find_reply_untrusted() {
    let fields = header(&[(b"Return-Path:", b"<bounce@example.com>"), (b"Reply-To:", b"reply@example.com")]);
    let args = Args { trust: false, ..Args::default() };
    let addr = find_reply_address(&args, &fields).unwrap();
    assert_eq!(addr, "bounce@example.com");
}

#[test]
fn empty_return_path_is_null_sender() {
    let fields = header(&[(b"Return-Path:", b"<>"), (b"From:", b"localuser")]);
    assert!(senders_ok(&fields));
    assert_eq!(get_sender(&fields, SenderMode::Envelope).unwrap(), "<>");
}

#[test]
fn generate_message_id_format() {
    let id = generate_message_id();
    assert!(id.starts_with('<'));
    assert!(id.ends_with('>'));
    assert!(id.contains('@'));
}

fn rewrite(args: &Args, text: &[u8]) -> (Result<(), HeaderError>, Vec<u8>) {
    let (mut fields, _) = read_headers(text).unwrap();
    let r = process_headers(args, &mut fields, "<id@here>");
    let mut out = Vec::new();
    fields.write_to(&mut out).unwrap();
    (r, out)
}

#[test]
fn process_headers_in_order() {
    let args = Args {
        delete_insert: vec!["Subject: new".into()],
        rename_insert: vec!["X-A: 2".into()],
        rename: vec!["X-B:".into(), "X-C:".into()],
        add_if_not: vec!["Message-ID:".into(), "X-A: 3".into(), "Resent-".into()],
        add_always: vec!["X-D: 4".into()],
        ..Args::default()
    };
    let (r, out) = rewrite(&args, b"Subject: old\nX-A: 1\nX-B: b\n\n");
    assert_eq!(r, Ok(()));
    assert_eq!(
        out,
        b"Old-X-A: 1\nX-C: b\nSubject: new\nX-A: 2\nMessage-ID: <id@here>\nX-D: 4\n".to_vec()
    );
}

#[test]
fn process_headers_unpaired_rename() {
    let args = Args {
        delete_insert: vec!["X-A:".into()],
        rename: vec!["X-B:".into()],
        add_always: vec!["X-D: 4".into()],
        ..Args::default()
    };
    let (r, out) = rewrite(&args, b"X-A: 1\nX-B: b\n\n");
    assert_eq!(r, Err(HeaderError::UnpairedRename));
    assert_eq!(out, b"X-B: b\n".to_vec());
}

#[test]
fn process_headers_uniq_and_zap() {
    let args = Args {
        first_uniq: vec!["X-F".into()],
        last_uniq: vec!["X-L".into()],
        zap: true,
        ..Args::default()
    };
    let (_, out) = rewrite(&args, b"X-F: 1\nX-L: 1\nX-F: 2\nX-L: 2\nX-E:\n\n");
    assert_eq!(out, b"X-F: 1\nX-L: 2\n".to_vec());
}

#[test]
fn extracted_values_and_fields() {
    let fields = header(&[(b"Subject:", b"  hi  "), (b"To:", b"x@y")]);
    let args = Args {
        extract: vec!["Subject".into()],
        extract_keep: vec!["To".into()],
        zap: true,
        ..Args::default()
    };
    let mut out = Vec::new();
    output_extracted(&args, &fields, &mut out);
    assert_eq!(out, b"hi\nTo: x@y\n".to_vec());
}

#[test]
fn non_utf8_header_log_summary() {
    // ISO-8859-1 subject with accented chars
    let fields = header(&[
        (b"From ", b"test@example.com Mon Jan 1 00:00:00 2000"),
        (b"Subject:", b"Caf\xe9 \xe0 Paris"),
    ]);
    let mut out = Vec::new();
    output_log_summary("/inbox", &fields, 100, &mut out);
    let s = String::from_utf8_lossy(&out);
    assert!(s.contains("Caf"));
    assert!(s.contains("Folder: /inbox"));
}

#[test]
fn log_summary_aligns_length() {
    let fields = header(&[(b"Subject:", b"\tHi\tthere ")]);
    let out = log_summary("in", &fields, 1234).unwrap();
    let expected = format!(
        " Subject: Hi there\n  Folder: in{}{}1234\n",
        "\t".repeat(8),
        " ".repeat(3)
    );
    assert_eq!(String::from_utf8(out).unwrap(), expected);
}

#[test]
fn log_summary_refuses_split_character() {
    let mut subject = "a".repeat(77);
    subject.push('\u{e9}');
    let fields = header(&[(b"Subject:", subject.as_bytes())]);
    assert!(log_summary("in", &fields, 1).is_none());
}

#[test]
fn from_line_uses_envelope_sender() {
    let fields = header(&[(b"From:", b"Ann <ann@example.org>")]);
    let line = from_line_for(&fields, "Mon Jan  1 00:00:00 2024");
    assert_eq!(line, b"From ann@example.org Mon Jan  1 00:00:00 2024\n".to_vec());
}

/// The cache as a file would hold it: each lookup reads at most `maxlen`
/// bytes and a new key leaves the file holding the recorded bytes.
fn check(cache: &mut Vec<u8>, msgid: &str, maxlen: usize) -> bool {
    let fields = header(&[(b"Message-ID:", msgid.as_bytes())]);
    let n = cache.len().min(maxlen);
    let contents = cache[..n].to_vec();
    match check_duplicate(&Args::default(), &fields, &contents, maxlen) {
        CacheDecision::Duplicate => true,
        CacheDecision::Blank => false,
        CacheDecision::Insert(v) => {
            *cache = v;
            false
        }
    }
}

#[test]
fn duplicate_cache_circular_buffer() {
    let mut cache = Vec::new();
    assert!(!check(&mut cache, "<id1>", 20));
    assert_eq!(&cache, b"<id1>\0\0");
    assert!(!check(&mut cache, "<id2>", 20));
    assert_eq!(&cache, b"<id1>\0<id2>\0\0");
    assert!(!check(&mut cache, "<id3>", 20));
    assert_eq!(&cache, b"<id1>\0<id2>\0<id3>\0\0");
    assert!(!check(&mut cache, "<id4>", 20));
    assert!(cache.starts_with(b"<id4>\0\0"));
    assert!(!check(&mut cache, "<id1>", 20));
    assert!(check(&mut cache, "<id4>", 20));
}

#[test]
fn duplicate_maxlen_zero() {
    let mut cache = Vec::new();
    let _ = check(&mut cache, "<test@example>", 0);
}

#[test]
fn duplicate_cache_many_messages() {
    let mut cache = Vec::new();
    let maxlen = 120;
    for i in 0..8 {
        let id = format!("<msg{:03}@x>", i);
        assert!(!check(&mut cache, &id, maxlen), "msg {} should not be duplicate on first insert", i);
    }
    for i in 0..8 {
        let id = format!("<msg{:03}@x>", i);
        assert!(check(&mut cache, &id, maxlen), "msg {} should be duplicate", i);
    }
    for i in 8..16 {
        let id = format!("<msg{:03}@x>", i);
        assert!(!check(&mut cache, &id, maxlen), "msg {} should not be duplicate on first insert", i);
    }
    let id = format!("<msg{:03}@x>", 0);
    assert!(!check(&mut cache, &id, maxlen), "msg 0 should have been evicted");
    let id = format!("<msg{:03}@x>", 15);
    assert!(check(&mut cache, &id, maxlen), "msg 15 should still be in cache");
}

#[test]
fn empty_input() {
    let (fields, body) = read_headers(b"").unwrap();
    assert!(fields.is_empty());
    assert!(body.is_empty());
}

#[test]
fn binary_body() {
    let header = b"Subject: Test\n\n";
    let binary: Vec<u8> = (0u8..=255).collect();
    let mut input = header.to_vec();
    input.extend(&binary);
    let (fields, body) = read_headers(&input[..]).unwrap();
    assert_eq!(fields.len(), 1);
    assert_eq!(body.len(), 256);
    assert_eq!(body, binary);
}

fn split_all(text: &[u8], cfg: &SplitConfig) -> Vec<Vec<u8>> {
    let mut state = SplitState::new();
    let mut out = Vec::new();
    for line in text.split_inclusive(|&b| b == b'\n') {
        if let Some(m) = process_line(cfg, &mut state, line) {
            out.push(m);
        }
        state.last_blank = line == b"\n" || line == b"\r\n";
    }
    if state.in_msg && !state.msg.is_empty() {
        out.push(state.msg.clone());
    }
    out
}

#[test]
fn split_mailbox_at_from_lines() {
    let cfg = SplitConfig {
        cmd: vec![],
        skip: 0,
        total: None,
        minfields: 2,
        every: false,
        digest: false,
        base: 0,
        width: 0,
    };
    let mbox = b"From a Mon\nSubject: one\n\nbody1\n\nFrom b Tue\nSubject: two\n\nbody2\n";
    let msgs = split_all(mbox, &cfg);
    assert_eq!(msgs.len(), 2);
    assert_eq!(msgs[0], b"From a Mon\nSubject: one\n\nbody1\n".to_vec());
    assert_eq!(msgs[1], b"From b Tue\nSubject: two\n\nbody2\n".to_vec());
}

#[test]
fn message_id_of_layout() {
    assert_eq!(message_id_of(1700000000123456, 4242, "mx.example"), "<1700000000123456.4242@mx.example>");
    assert_eq!(message_id_of(0, 1, "localhost"), "<0.1@localhost>");
}

fn run_args() -> Args {
    Args::default()
}

#[test]
fn formail_output_adds_from_line_and_quotes() {
    let input = b"From: a@b.example\nSubject: hi\n\nbody\nFrom me\n";
    let out = formail_output(&run_args(), &OutputOpts::default(), input, "<1.2@h>", "Mon Jan  1 00:00:00 2024").unwrap();
    assert_eq!(
        out,
        b"From a@b.example Mon Jan  1 00:00:00 2024\nFrom: a@b.example\nSubject: hi\n\nbody\n>From me\n\n".to_vec()
    );
    let opts = OutputOpts { force: true, no_escape: true, ..OutputOpts::default() };
    let out = formail_output(&run_args(), &opts, input, "<1.2@h>", "x").unwrap();
    assert_eq!(out, b"From: a@b.example\nSubject: hi\n\nbody\nFrom me\n\n".to_vec());
}

#[test]
fn formail_output_errors() {
    let a = Args { rename: vec!["X:".into()], ..run_args() };
    assert_eq!(
        formail_output(&a, &OutputOpts::default(), b"A: 1\n\n", "<i>", "t"),
        Err(FormailError::UnpairedRename)
    );
}

#[test]
fn formail_output_reply_and_extract() {
    let input = b"From: a@b.example\nSubject: hi\n\nline\n";
    let a = Args { reply: true, ..run_args() };
    let opts = OutputOpts { keep_body: true, ..OutputOpts::default() };
    let out = formail_output(&a, &opts, input, "<i>", "t").unwrap();
    let text = String::from_utf8(out).unwrap();
    assert!(text.starts_with("To: a@b.example\n"));
    assert!(text.contains("Subject: Re: hi\n"));
    assert!(text.ends_with("\n\n>line\n\n"));
    let a = Args { extract: vec!["Subject:".into()], ..run_args() };
    let out = formail_output(&a, &OutputOpts::default(), input, "<i>", "t").unwrap();
    assert_eq!(out, b" hi\n".to_vec());
}
