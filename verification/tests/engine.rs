use rockmail::config::Item;
use rockmail::engine::{
    after_action, item_step, items_done, shift_count, side_effect, ActionResult, EngineState,
    SideEffect, Step,
};
use rockmail::config::{Flags, HeaderOp, SizeOp};
use rockmail::engine::{
    abstract_folder, abstract_subject, abstract_wanted, message_size, substitute,
    auto_lockfile, check_chain_flags, edit_header, rcfile_outcome, recipe_outcome,
    size_matches, skip_from_line, Outcome, State,
};

fn op_delete_insert(field: &str, value: &str) -> HeaderOp {
    HeaderOp::DeleteInsert { field: field.into(), value: value.into() }
}

#[test]
fn edit_header_delete_insert() {
    let h = edit_header(&op_delete_insert("Subject", "new"), b"new", b"Subject: old\nX-Foo: bar\n");
    assert_eq!(h, b"X-Foo: bar\nSubject: new\n".to_vec());
}

#[test]
fn edit_header_delete_only() {
    let h = edit_header(&op_delete_insert("Subject", ""), b"", b"Subject: old\nX-Foo: bar\n");
    assert_eq!(h, b"X-Foo: bar\n".to_vec());
}

#[test]
fn edit_header_add_if_not() {
    let op = HeaderOp::AddIfNot { field: "Lines".into(), value: "5".into() };
    assert_eq!(
        edit_header(&op, b"5", b"Subject: test\n"),
        b"Subject: test\nLines: 5\n".to_vec()
    );
    assert_eq!(
        edit_header(&op, b"5", b"Subject: test\nLines: 10\n"),
        b"Subject: test\nLines: 10\n".to_vec()
    );
}

#[test]
fn edit_header_rename_insert() {
    let op = HeaderOp::RenameInsert { field: "Subject".into(), value: "new".into() };
    assert_eq!(
        edit_header(&op, b"new", b"Subject: old\n"),
        b"Old-Subject: old\nSubject: new\n".to_vec()
    );
}

#[test]
fn edit_header_add_always_duplicate() {
    let op = HeaderOp::AddAlways { field: "X-Tag".into(), value: "second".into() };
    assert_eq!(
        edit_header(&op, b"second", b"X-Tag: existing\n"),
        b"X-Tag: existing\nX-Tag: second\n".to_vec()
    );
}

#[test]
fn chain_flags() {
    let st = State::default();
    assert!(check_chain_flags(&Flags::new(), &st));
    assert!(!check_chain_flags(&Flags::parse("A"), &st));
    assert!(check_chain_flags(&Flags::parse("E"), &st));
    let after_match = State { last_cond: true, prev_cond: true, last_succ: false, depth: 0 };
    assert!(check_chain_flags(&Flags::parse("A"), &after_match));
    assert!(!check_chain_flags(&Flags::parse("a"), &after_match));
    assert!(!check_chain_flags(&Flags::parse("E"), &after_match));
    assert!(check_chain_flags(&Flags::parse("e"), &after_match));
}

#[test]
fn state_after_conditions_and_action() {
    let mut st = State::default();
    st.after_conditions(&Flags::new(), true);
    assert!(st.last_cond && st.prev_cond);
    st.after_conditions(&Flags::parse("A"), false);
    assert!(st.last_cond);
    assert!(!st.prev_cond);
    st.after_action(&Outcome::Continue);
    assert!(st.last_succ);
    st.after_action(&Outcome::Default);
    assert!(!st.last_succ);
}

#[test]
fn copy_flag_continues_outcome() {
    assert_eq!(recipe_outcome(Outcome::Delivered("f".into()), true), Outcome::Continue);
    assert_eq!(
        recipe_outcome(Outcome::Delivered("f".into()), false),
        Outcome::Delivered("f".into())
    );
    assert_eq!(recipe_outcome(Outcome::Default, true), Outcome::Default);
}

#[test]
fn include_and_switch_outcomes() {
    assert_eq!(rcfile_outcome(Outcome::Default, true), Some(Outcome::Default));
    assert_eq!(rcfile_outcome(Outcome::Default, false), None);
    assert_eq!(rcfile_outcome(Outcome::Continue, false), None);
    assert_eq!(
        rcfile_outcome(Outcome::Delivered("x".into()), false),
        Some(Outcome::Delivered("x".into()))
    );
}

#[test]
fn size_conditions() {
    assert!(size_matches(SizeOp::Less, 1000, false, 10));
    assert!(!size_matches(SizeOp::Greater, 1000, false, 10));
    assert!(size_matches(SizeOp::Greater, 1000, true, 10));
    assert!(size_matches(SizeOp::Equal, 10, false, 10));
}

#[test]
fn auto_lockfile_for_folders() {
    assert_eq!(auto_lockfile("/var/mail/x", ".lock"), Some("/var/mail/x.lock".to_string()));
    assert_eq!(auto_lockfile("Maildir/", ".lock"), None);
    assert_eq!(auto_lockfile("mh/.", ".lock"), None);
}

#[test]
fn from_line_skipped() {
    assert_eq!(skip_from_line(b"From a b\nSubject: x\n"), b"Subject: x\n");
    assert_eq!(skip_from_line(b"Subject: x\n"), b"Subject: x\n");
    assert_eq!(skip_from_line(b"From no newline"), b"From no newline");
}

#[test]
fn substitutions() {
    assert_eq!(substitute("o", "0", "foo", false, false), Some("f0o".to_string()));
    assert_eq!(substitute("o", "0", "foo", true, false), Some("f00".to_string()));
    assert_eq!(substitute("F", "x", "foo", false, true), Some("xoo".to_string()));
    assert_eq!(substitute("F", "x", "foo", false, false), Some("foo".to_string()));
    assert_eq!(substitute("(", "x", "foo", false, false), None);
}

#[test]
fn log_abstract_lines() {
    assert_eq!(abstract_subject("a\tb"), "a b");
    assert_eq!(abstract_subject(&"x".repeat(100)), "x".repeat(78));
    assert_eq!(
        abstract_folder("inbox", 123),
        format!("  Folder: inbox{}    123", "\t".repeat(8))
    );
    assert_eq!(
        abstract_folder(&"f".repeat(70), 5),
        format!("  Folder: {}\t      5", "f".repeat(61))
    );
    assert_eq!(message_size(b"Subject: x\n\nbody\n"), 18);
    assert_eq!(message_size(b"Subject: x\n\nbody\n\n"), 18);
    assert!(abstract_wanted(1, false));
    assert!(!abstract_wanted(0, true));
    assert!(abstract_wanted(-1, true));
    assert!(!abstract_wanted(-1, false));
}

#[test]
fn item_steps() {
    let s = EngineState { next: 3 };
    let a = Item::Assign { name: "X".into(), value: "1".into(), line: 1 };
    assert_eq!(item_step(&s, &a), (s, Step::Assign));
    let sw = Item::Switch { path: String::new(), line: 2 };
    assert_eq!(item_step(&s, &sw), (s, Step::Finish(Outcome::Default)));
    let sw = Item::Switch { path: "other.rc".into(), line: 2 };
    assert_eq!(item_step(&s, &sw).1, Step::Switch);
    let inc = Item::Include { path: "x.rc".into(), line: 3 };
    assert_eq!(item_step(&s, &inc).1, Step::Include);
}

#[test]
fn after_action_outcomes() {
    let s = EngineState { next: 0 };
    let n = EngineState { next: 1 };
    assert_eq!(after_action(&s, ActionResult::Assigned { abort: false }), (n, None));
    assert_eq!(after_action(&s, ActionResult::Assigned { abort: true }), (n, Some(Outcome::Default)));
    assert_eq!(after_action(&s, ActionResult::Substituted), (n, None));
    assert_eq!(
        after_action(&s, ActionResult::Recipe(Outcome::Delivered("/var/mail/u".into()))),
        (n, Some(Outcome::Delivered("/var/mail/u".into())))
    );
    assert_eq!(after_action(&s, ActionResult::Recipe(Outcome::Continue)), (n, None));
    assert_eq!(
        after_action(&s, ActionResult::Rcfile { outcome: Outcome::Default, switch: false }),
        (n, None)
    );
    assert_eq!(
        after_action(&s, ActionResult::Rcfile { outcome: Outcome::Default, switch: true }),
        (n, Some(Outcome::Default))
    );
    assert_eq!(items_done(&EngineState { next: 2 }, 2), Some(Outcome::Default));
    assert_eq!(items_done(&EngineState { next: 1 }, 2), None);
}

#[test]
fn side_effects_of_variables() {
    assert_eq!(side_effect("UMASK", "077", "h"), SideEffect::Umask(0o77));
    assert_eq!(side_effect("UMASK", "+0755", "h"), SideEffect::Umask(0o755));
    assert_eq!(side_effect("UMASK", "089", "h"), SideEffect::Nothing);
    assert_eq!(side_effect("UMASK", "", "h"), SideEffect::Nothing);
    assert_eq!(side_effect("UMASK", "77777777777", "h"), SideEffect::Nothing);
    assert_eq!(side_effect("HOST", "h", "h"), SideEffect::Host { abort: false });
    assert_eq!(side_effect("HOST", "other", "h"), SideEffect::Host { abort: true });
    assert_eq!(side_effect("MAILDIR", "/m", "h"), SideEffect::ChangeDir("/m".into()));
    assert_eq!(side_effect("EXITCODE", "3", "h"), SideEffect::ExitCodeSet);
    assert_eq!(side_effect("VERBOSE", "yes", "h"), SideEffect::Verbose("yes".into()));
    assert_eq!(side_effect("LOG", "hi\n", "h"), SideEffect::Log("hi\n".into()));
    assert_eq!(side_effect("LOGFILE", "/l", "h"), SideEffect::LogFile("/l".into()));
    assert_eq!(side_effect("LOCKFILE", "g.lock", "h"), SideEffect::GlobalLock("g.lock".into()));
    assert_eq!(side_effect("SHIFT", "2", "h"), SideEffect::Shift("2".into()));
    assert_eq!(side_effect("LINEBUF", "10", "h"), SideEffect::Linebuf("10".into()));
    assert_eq!(side_effect("FOO", "1", "h"), SideEffect::Nothing);
    assert_eq!(shift_count(-3, 4), 0);
    assert_eq!(shift_count(2, 4), 2);
    assert_eq!(shift_count(9, 4), 4);
}
