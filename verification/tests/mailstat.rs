use rockmail::mailstat::log::log_bytes_fit;
use rockmail::mailstat::log::{normalize_folder, parse_log};
use rockmail::mailstat::rc::parse_rc;
use rockmail::mailstat::report::{
    digits, filter_totals, grand_totals, input_path, write_stats, Format, Widths,
};
use rockmail::mailstat::{Stats, Totals};

fn str_bytes(s: &str) -> &[u8] {
    s.as_bytes()
}

fn s(x: &str) -> String {
    x.to_string()
}

fn sample_totals() -> Totals {
    let mut t = Totals::new();
    t.insert(
        "/mail/a".into(),
        Stats {
            msgs: 2,
            bytes: 300,
        },
    );
    t.insert(
        "/mail/b".into(),
        Stats {
            msgs: 1,
            bytes: 500,
        },
    );
    t
}

fn output(buf: &[u8]) -> &str {
    std::str::from_utf8(buf).unwrap()
}

#[test]
fn digits_zero() {
    assert_eq!(digits(0), 1);
}

#[test]
fn digits_single() {
    for n in 1..=9 {
        assert_eq!(digits(n), 1, "digits({n})");
    }
}

#[test]
fn digits_boundaries() {
    assert_eq!(digits(10), 2);
    assert_eq!(digits(99), 2);
    assert_eq!(digits(100), 3);
    assert_eq!(digits(999), 3);
    assert_eq!(digits(1000), 4);
}

#[test]
fn normalize_plain() {
    assert_eq!(normalize_folder("/var/mail/inbox"), "/var/mail/inbox");
}

#[test]
fn normalize_trailing_slash() {
    assert_eq!(normalize_folder("/var/mail/inbox/"), "/var/mail/inbox");
}

#[test]
fn normalize_maildir() {
    assert_eq!(
        normalize_folder("/home/user/Maildir/new/1234567890.12345.host"),
        "/home/user/Maildir"
    );
}

#[test]
fn parse_empty() {
    let input: &[u8] = str_bytes("");
    let totals = parse_log(input, &mut Vec::new(), false, false);
    assert!(totals.is_empty());
}

#[test]
fn parse_folder_lines() {
    let input: &[u8] = str_bytes(
        "From foo@bar.com
 Subject: test
  Folder: /var/mail/inbox 1234
",
    );
    let totals = parse_log(input, &mut Vec::new(), false, false);
    assert_eq!(totals.len(), 1);
    let s = totals.get("/var/mail/inbox").unwrap();
    assert_eq!(s.msgs, 1);
    assert_eq!(s.bytes, 1234);
}

#[test]
fn parse_multiple_folders() {
    let input: &[u8] = str_bytes(
        "  Folder: /mail/a 100\n\
         \n\
         Folder: /mail/b 200\n\
         \n\
         Folder: /mail/a 150\n",
    );
    let totals = parse_log(input, &mut Vec::new(), false, false);
    let a = totals.get("/mail/a").unwrap();
    assert_eq!(a.msgs, 1);
    assert_eq!(a.bytes, 100);
}

#[test]
fn parse_errors_merged() {
    let input: &[u8] = str_bytes("some error line\nanother error\n");
    let totals = parse_log(input, &mut Vec::new(), true, false);
    assert_eq!(totals.len(), 1);
    let s = totals.get("## diagnostic messages ##").unwrap();
    assert_eq!(s.msgs, 2);
}

#[test]
fn parse_errors_separate() {
    let input: &[u8] = str_bytes("error one\nerror two\n");
    let totals = parse_log(input, &mut Vec::new(), false, false);
    assert_eq!(totals.len(), 2);
    assert!(totals.contains_key("## error one"));
    assert!(totals.contains_key("## error two"));
}

#[test]
fn parse_writes_to_writer() {
    let input: &[u8] = str_bytes("  Folder: /mail/a 100\n");
    let mut out = Vec::new();
    parse_log(input, &mut out, false, false);
    assert_eq!(out, b"  Folder: /mail/a 100\n");
}

#[test]
fn parse_old_ignores_errors() {
    let input: &[u8] = str_bytes("error line\n  Folder: /mail/a 100\n");
    let totals = parse_log(input, &mut Vec::new(), false, true);
    assert_eq!(totals.len(), 1);
    assert!(totals.contains_key("/mail/a"));
    assert!(!totals.contains_key("## error line"));
}

#[test]
fn parse_accumulates_bytes() {
    let input: &[u8] = str_bytes("  Folder: /mail/a 100\n  Folder: /mail/a 150\n");
    let totals = parse_log(input, &mut Vec::new(), false, false);
    let a = totals.get("/mail/a").unwrap();
    assert_eq!(a.msgs, 2);
    assert_eq!(a.bytes, 250);
}

#[test]
fn parse_malformed_folder_missing_size() {
    let input: &[u8] = str_bytes("  Folder: /mail/a\n  Folder: /mail/b 200\n");
    let totals = parse_log(input, &mut Vec::new(), false, false);
    assert_eq!(totals.len(), 2);
    assert!(totals.contains_key("/mail/b"));
    assert!(totals.contains_key("## Folder: /mail/a"));
}

#[test]
fn parse_malformed_folder_bad_size() {
    let input: &[u8] = str_bytes("  Folder: /mail/a xyz\n  Folder: /mail/b 200\n");
    let totals = parse_log(input, &mut Vec::new(), false, false);
    assert_eq!(totals.len(), 2);
    assert!(totals.contains_key("/mail/b"));
    assert!(totals.contains_key("## Folder: /mail/a xyz"));
}

#[test]
fn input_path_normal() {
    assert_eq!(
        input_path("/var/log/procmail", false),
        "/var/log/procmail"
    );
}

#[test]
fn input_path_old() {
    assert_eq!(
        input_path("/var/log/procmail", true),
        "/var/log/procmail.old"
    );
}

#[test]
fn stats_add() {
    let mut s = Stats::default();
    s.add(100);
    s.add(50);
    assert_eq!(s.msgs, 2);
    assert_eq!(s.bytes, 150);
}

#[test]
fn filter_ignores() {
    let mut totals = Totals::new();
    totals.insert(
        "keep".into(),
        Stats {
            msgs: 1,
            bytes: 100,
        },
    );
    totals.insert(
        "drop".into(),
        Stats {
            msgs: 2,
            bytes: 200,
        },
    );
    let ignores = vec!["drop".to_string()];
    let filtered = filter_totals(totals, &ignores, false);
    assert_eq!(filtered.len(), 1);
    assert!(filtered.contains_key("keep"));
}

#[test]
fn filter_errors() {
    let mut totals = Totals::new();
    totals.insert("## error".into(), Stats { msgs: 1, bytes: 0 });
    totals.insert(
        "folder".into(),
        Stats {
            msgs: 2,
            bytes: 200,
        },
    );
    let filtered = filter_totals(totals, &[], true);
    assert_eq!(filtered.len(), 1);
    assert!(filtered.contains_key("folder"));
}

#[test]
fn filter_keeps_errors_when_not_quiet() {
    let mut totals = Totals::new();
    totals.insert("## error".into(), Stats { msgs: 1, bytes: 0 });
    totals.insert(
        "folder".into(),
        Stats {
            msgs: 2,
            bytes: 200,
        },
    );
    let filtered = filter_totals(totals, &[], false);
    assert_eq!(filtered.len(), 2);
}

#[test]
fn filter_empty() {
    let totals = Totals::new();
    let filtered = filter_totals(totals, &[], false);
    assert!(filtered.is_empty());
}

#[test]
fn widths_basic() {
    let mut totals = Totals::new();
    totals.insert(
        "/mail/inbox".into(),
        Stats {
            msgs: 3,
            bytes: 900,
        },
    );
    let w = Widths::compute(&totals, 3, 900);
    // avg = 900/3 = 300 -> 3 digits, but min is "Average".len() = 7
    assert_eq!(w.avg, 7);
    // bytes = 900 -> 3 digits, but min is "Total".len() = 5
    assert_eq!(w.bytes, 5);
    // msgs = 3 -> 1 digit, but min is "Number".len() = 6
    assert_eq!(w.msgs, 6);
    // folder = "/mail/inbox".len() = 11 > "Folder".len() = 6
    assert_eq!(w.folder, 11);
}

#[test]
fn widths_empty() {
    let totals = Totals::new();
    let w = Widths::compute(&totals, 0, 0);
    assert_eq!(w.avg, 7); // "Average".len()
    assert_eq!(w.bytes, 5); // "Total".len()
    assert_eq!(w.msgs, 6); // "Number".len()
    assert_eq!(w.folder, 6); // "Folder".len()
}

#[test]
fn widths_large_values() {
    let mut totals = Totals::new();
    totals.insert(
        "x".into(),
        Stats {
            msgs: 1,
            bytes: 1_000_000,
        },
    );
    let w = Widths::compute(&totals, 1, 1_000_000);
    // bytes = 1000000 -> 7 digits > "Total".len() = 5
    assert_eq!(w.bytes, 7);
    // avg = 1000000 -> 7 digits > "Average".len() = 7
    assert_eq!(w.avg, 7);
}

#[test]
fn normalize_maildir_trailing_slash() {
    // Trailing slash prevents the /new/ regex from matching,
    // so only the slash is stripped.
    assert_eq!(
        normalize_folder("/home/user/Maildir/new/msg123/"),
        "/home/user/Maildir/new/msg123"
    );
}

#[test]
fn normalize_bare_name() {
    assert_eq!(normalize_folder("inbox"), "inbox");
}

#[test]
fn parse_skips_from_lines() {
    let input: &[u8] = str_bytes("From someone@host\n  Folder: /mail/a 50\n");
    let totals = parse_log(input, &mut Vec::new(), false, false);
    assert_eq!(totals.len(), 1);
    assert!(!totals.contains_key("## From someone@host"));
}

#[test]
fn parse_skips_subject_lines() {
    let input: &[u8] = str_bytes(" Subject: hello\n  Folder: /mail/a 50\n");
    let totals = parse_log(input, &mut Vec::new(), false, false);
    assert_eq!(totals.len(), 1);
    assert!(!totals.contains_key("## Subject: hello"));
}

#[test]
fn parse_skips_empty_lines() {
    let input: &[u8] = str_bytes("\n\n  Folder: /mail/a 50\n");
    let totals = parse_log(input, &mut Vec::new(), false, false);
    assert_eq!(totals.len(), 1);
}

#[test]
fn parse_maildir_normalized() {
    let input: &[u8] = str_bytes("  Folder: /home/x/Maildir/new/12345.host 300\n");
    let totals = parse_log(input, &mut Vec::new(), false, false);
    assert!(totals.contains_key("/home/x/Maildir"));
    assert_eq!(totals.len(), 1);
}

#[test]
fn parse_writer_multiple_lines() {
    let input: &[u8] = str_bytes("line one\nline two\n");
    let mut out = Vec::new();
    parse_log(input, &mut out, false, false);
    assert_eq!(out, b"line one\nline two\n");
}

#[test]
fn parse_rc_empty() {
    let rc = parse_rc(str_bytes(""));
    assert!(rc.ignores.is_empty());
    assert!(rc.date_fmt.is_none());
}

#[test]
fn parse_rc_ignore() {
    let rc = parse_rc(str_bytes("ignore /dev/null\nignore /mail/spam\n"));
    assert_eq!(rc.ignores.len(), 2);
    assert!(rc.ignores.contains(&s("/dev/null")));
    assert!(rc.ignores.contains(&s("/mail/spam")));
}

#[test]
fn parse_rc_date_format() {
    let rc = parse_rc(str_bytes("date_format %Y-%m-%d\n"));
    assert_eq!(rc.date_fmt.as_deref(), Some("%Y-%m-%d"));
}

#[test]
fn parse_rc_date_format_last_wins() {
    let rc = parse_rc(str_bytes("date_format %Y\ndate_format %m-%d\n"));
    assert_eq!(rc.date_fmt.as_deref(), Some("%m-%d"));
}

#[test]
fn parse_rc_blank_lines_skipped() {
    let rc = parse_rc(str_bytes("\n  \n\nignore foo\n\n"));
    assert_eq!(rc.ignores.len(), 1);
    assert!(rc.ignores.contains(&s("foo")));
}

#[test]
fn parse_rc_mixed() {
    let rc = parse_rc(str_bytes(
        "ignore /dev/null\ndate_format %H:%M\nignore spam\n",
    ));
    assert_eq!(rc.ignores.len(), 2);
    assert_eq!(rc.date_fmt.as_deref(), Some("%H:%M"));
}

#[test]
fn digits_large() {
    assert_eq!(digits(1_000_000), 7);
    assert_eq!(digits(999_999), 6);
    assert_eq!(digits(10_000_000), 8);
}

#[test]
fn stats_default() {
    let s = Stats::default();
    assert_eq!(s.msgs, 0);
    assert_eq!(s.bytes, 0);
}

#[test]
fn parse_subject_case_insensitive() {
    let input: &[u8] = str_bytes(" SUBJECT: HELLO\n  Folder: /mail/a 50\n");
    let totals = parse_log(input, &mut Vec::new(), false, false);
    assert_eq!(totals.len(), 1);
    assert!(!totals.contains_key("## SUBJECT: HELLO"));
}

#[test]
fn parse_error_trimmed() {
    let input: &[u8] = str_bytes("  some error  \n");
    let totals = parse_log(input, &mut Vec::new(), false, false);
    assert!(totals.contains_key("## some error"));
}

#[test]
fn parse_merged_errors_zero_bytes() {
    let input: &[u8] = str_bytes("err1\nerr2\nerr3\n");
    let totals = parse_log(input, &mut Vec::new(), true, false);
    let s = totals.get("## diagnostic messages ##").unwrap();
    assert_eq!(s.msgs, 3);
    assert_eq!(s.bytes, 0);
}

#[test]
fn parse_mixed_folders_and_errors() {
    let input: &[u8] = str_bytes(
        "  Folder: /mail/a 100\n\
         bad line\n\
         From user@host\n\
         \n\
          Subject: hi\n\
         another error\n\
         Folder: /mail/b 200\n",
    );
    let totals = parse_log(input, &mut Vec::new(), false, false);
    assert!(totals.contains_key("/mail/a"));
    assert!(totals.contains_key("## bad line"));
    assert!(totals.contains_key("## another error"));
    // "Folder:" without leading two-space indent is an error
    assert!(totals.contains_key("## Folder: /mail/b 200"));
    // From, Subject, blank are skipped
    assert!(!totals.contains_key("## From user@host"));
    assert_eq!(totals.get("/mail/a").unwrap().bytes, 100);
}

#[test]
fn widths_zero_msg_entry() {
    // Entry with msgs=0 is filtered out of avg computation
    let mut totals = Totals::new();
    totals.insert("err".into(), Stats { msgs: 0, bytes: 0 });
    totals.insert(
        "/mail/a".into(),
        Stats {
            msgs: 2,
            bytes: 200,
        },
    );
    let w = Widths::compute(&totals, 2, 200);
    // avg from /mail/a only: 200/2=100 -> 3 digits, min 7
    assert_eq!(w.avg, 7);
}

#[test]
fn widths_all_zero_msgs() {
    let mut totals = Totals::new();
    totals.insert("err".into(), Stats { msgs: 0, bytes: 0 });
    let w = Widths::compute(&totals, 0, 0);
    // No entry passes the filter, unwrap_or(1), min 7
    assert_eq!(w.avg, 7);
}

#[test]
fn filter_ignore_and_quiet_combined() {
    let mut totals = Totals::new();
    totals.insert("## err".into(), Stats { msgs: 1, bytes: 0 });
    totals.insert(
        "ignored".into(),
        Stats {
            msgs: 1,
            bytes: 100,
        },
    );
    totals.insert(
        "kept".into(),
        Stats {
            msgs: 1,
            bytes: 200,
        },
    );
    let ignores = vec!["ignored".to_string()];
    let filtered = filter_totals(totals, &ignores, true);
    assert_eq!(filtered.len(), 1);
    assert!(filtered.contains_key("kept"));
}

#[test]
fn normalize_multiple_trailing_slashes() {
    assert_eq!(normalize_folder("/var/mail/inbox///"), "/var/mail/inbox");
}

#[test]
fn normalize_just_slashes() {
    assert_eq!(normalize_folder("///"), "");
}

#[test]
fn parse_folder_size_zero() {
    let input: &[u8] = str_bytes("  Folder: /mail/a 0\n");
    let totals = parse_log(input, &mut Vec::new(), false, false);
    let s = totals.get("/mail/a").unwrap();
    assert_eq!(s.msgs, 1);
    assert_eq!(s.bytes, 0);
}

#[test]
fn parse_only_skippable_lines() {
    let input: &[u8] = str_bytes("From a@b\n\n Subject: x\nFrom c@d\n");
    let totals = parse_log(input, &mut Vec::new(), false, false);
    assert!(totals.is_empty());
}

#[test]
fn write_stats_short() {
    let t = sample_totals();
    let mut buf = Vec::new();
    write_stats(&mut buf, &t, 3, 800, false, false);
    let s = output(&buf);
    assert!(s.contains("Total"));
    assert!(s.contains("Number"));
    assert!(!s.contains("Average"));
    assert!(s.contains("/mail/a"));
    assert!(s.contains("/mail/b"));
    assert!(s.contains("300"));
    assert!(s.contains("500"));
    assert!(s.contains("800"));
}

#[test]
fn write_stats_long() {
    let t = sample_totals();
    let mut buf = Vec::new();
    write_stats(&mut buf, &t, 3, 800, true, false);
    let s = output(&buf);
    assert!(s.contains("Average"));
    assert!(s.contains("150")); // avg for /mail/a: 300/2
    assert!(s.contains("500")); // avg for /mail/b: 500/1
}

#[test]
fn write_stats_terse() {
    let t = sample_totals();
    let mut buf = Vec::new();
    write_stats(&mut buf, &t, 3, 800, false, true);
    let s = output(&buf);
    // No header/footer
    assert!(!s.contains("Total"));
    assert!(!s.contains("Number"));
    // Rows present without leading "  " prefix
    assert!(s.contains("/mail/a"));
    assert!(s.contains("/mail/b"));
    // No separator dashes
    assert!(!s.contains("---"));
}

#[test]
fn format_row_zero_msgs() {
    let w = Widths {
        bytes: 5,
        avg: 7,
        msgs: 6,
        folder: 6,
    };
    let s = Stats { msgs: 0, bytes: 0 };
    let mut buf = Vec::new();
    Format::Long.row(&mut buf, &w, "  ", &s, "empty");
    let out = output(&buf);
    // avg should be 0 when msgs is 0
    assert!(out.contains("0"));
    assert!(out.contains("empty"));
}

#[test]
fn format_footer_zero_msgs() {
    let w = Widths {
        bytes: 5,
        avg: 7,
        msgs: 6,
        folder: 6,
    };
    let mut buf = Vec::new();
    Format::Long.footer(&mut buf, &w, 0, 0);
    let out = output(&buf);
    assert!(out.contains("0"));
}

#[test]
fn format_header_short() {
    let w = Widths {
        bytes: 5,
        avg: 7,
        msgs: 6,
        folder: 6,
    };
    let mut buf = Vec::new();
    Format::Short.header(&mut buf, &w);
    let out = output(&buf);
    assert!(out.contains("Total"));
    assert!(out.contains("Number"));
    assert!(out.contains("Folder"));
    assert!(!out.contains("Average"));
}

#[test]
fn format_header_long() {
    let w = Widths {
        bytes: 5,
        avg: 7,
        msgs: 6,
        folder: 6,
    };
    let mut buf = Vec::new();
    Format::Long.header(&mut buf, &w);
    let out = output(&buf);
    assert!(out.contains("Average"));
}

#[test]
fn format_sep_short() {
    let w = Widths {
        bytes: 5,
        avg: 7,
        msgs: 6,
        folder: 6,
    };
    let mut buf = Vec::new();
    Format::Short.sep(&mut buf, &w);
    let out = output(&buf);
    assert!(out.contains("-----"));
    assert!(out.contains("------"));
}

#[test]
fn format_sep_long() {
    let w = Widths {
        bytes: 5,
        avg: 7,
        msgs: 6,
        folder: 6,
    };
    let mut buf = Vec::new();
    Format::Long.sep(&mut buf, &w);
    let out = output(&buf);
    assert!(out.contains("-------")); // avg width = 7
}

#[test]
fn totals_come_out_sorted_once_each() {
    let input: &[u8] = b"  Folder: b 1\n  Folder: a 2\n  Folder: b 3\nerr\n";
    let totals = parse_log(input, &mut Vec::new(), false, false);
    let names: Vec<&str> = totals.entries().iter().map(|(n, _)| n.as_str()).collect();
    assert_eq!(names, vec!["## err", "a", "b"]);
    assert_eq!(totals.get("b").unwrap(), Stats { msgs: 2, bytes: 4 });
}

#[test]
fn parse_crlf_and_invalid_lines() {
    let input: &[u8] = b"  Folder: x 5\r\n\xff\xfe\n  Folder: x 6";
    let mut copy = Vec::new();
    let totals = parse_log(input, &mut copy, false, false);
    assert_eq!(totals.get("x").unwrap(), Stats { msgs: 2, bytes: 11 });
    assert_eq!(totals.len(), 1);
    assert_eq!(copy, b"  Folder: x 5\n  Folder: x 6\n".to_vec());
}

#[test]
fn grand_totals_add_up() {
    let totals = sample_totals();
    assert_eq!(grand_totals(&totals), Some((3, 800)));
    let mut big = Totals::new();
    big.insert("a".into(), Stats { msgs: 1, bytes: u64::MAX });
    big.insert("b".into(), Stats { msgs: 1, bytes: 1 });
    assert_eq!(grand_totals(&big), None);
}

#[test]
fn parse_rc_unknown_and_duplicate_lines() {
    let rc = parse_rc(str_bytes("ignore a\nbogus\nignore a\n  date_format  x \n"));
    assert_eq!(rc.ignores, vec![s("a")]);
    assert_eq!(rc.unknown, vec![2]);
    assert_eq!(rc.date_fmt.as_deref(), Some(" x"));
}

#[test]
fn write_stats_exact_short_table() {
    let t = sample_totals();
    let mut buf = Vec::new();
    write_stats(&mut buf, &t, 3, 800, false, false);
    let expected = "\n  Total  Number  Folder\n  -----  ------  -------\n    300       2  /mail/a\n    500       1  /mail/b\n  -----  ------  -------\n    800       3  \n";
    assert_eq!(output(&buf), expected);
}

#[test]
fn log_bytes_fit_bounds() {
    assert!(log_bytes_fit(b"  Folder: inbox 100\n  Folder: inbox 200\n"));
    assert!(log_bytes_fit(b"  Folder: a 18446744073709551615\nFrom x\n"));
    assert!(!log_bytes_fit(b"  Folder: a 18446744073709551615\n  Folder: b 1\n"));
}

#[test]
fn final_carriage_return_is_kept() {
    let mut copy = Vec::new();
    let totals = parse_log(b"  Folder: a 10\r\n\r", &mut copy, false, false);
    assert_eq!(totals.len(), 2);
    assert_eq!(totals.get("a").unwrap().bytes, 10);
    assert_eq!(totals.get("## ").unwrap().msgs, 1);
    assert_eq!(copy, b"  Folder: a 10\n\r\n".to_vec());
}
