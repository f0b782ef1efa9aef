use rockmail::cli::{collect_trailing_args, parse_rest, resolve_rcpath};
use rockmail::config::is_var_name;

#[test]
fn tests_parse_rest_assignments() {
    let rest = vec!["FOO=bar".into(), "BAZ=qux".into(), "rcfile.rc".into()];
    let (assigns, files) = parse_rest(&rest);
    assert_eq!(
        assigns,
        vec![("FOO".into(), "bar".into()), ("BAZ".into(), "qux".into()),]
    );
    assert_eq!(files, vec!["rcfile.rc"]);
}

#[test]
fn tests_parse_rest_no_assignments() {
    let rest = vec!["rcfile.rc".into(), "another.rc".into()];
    let (assigns, files) = parse_rest(&rest);
    assert!(assigns.is_empty());
    assert_eq!(files, vec!["rcfile.rc", "another.rc"]);
}

#[test]
fn tests_parse_rest_invalid_var_name() {
    let rest = vec!["123=bad".into(), "good=val".into()];
    let (assigns, files) = parse_rest(&rest);
    assert_eq!(assigns, vec![("good".into(), "val".into())]);
    assert_eq!(files, vec!["123=bad"]);
}

#[test]
fn tests_is_var_name_valid() {
    assert!(is_var_name("FOO"));
    assert!(is_var_name("_bar"));
    assert!(is_var_name("foo123"));
    assert!(is_var_name("A"));
}

#[test]
fn tests_is_var_name_invalid() {
    assert!(!is_var_name("123"));
    assert!(!is_var_name("foo-bar"));
    assert!(!is_var_name(""));
    assert!(!is_var_name("foo.bar"));
}

#[test]
fn collect_trailing_args_basic() {
    let rest = vec![
        "VAR=val".into(),
        "rcfile.rc".into(),
        "arg1".into(),
        "arg2".into(),
    ];
    let args = collect_trailing_args(&rest);
    assert_eq!(args, vec!["arg1", "arg2"]);
}

#[test]
fn collect_trailing_args_no_rcfile() {
    let rest = vec!["VAR=val".into(), "OTHER=x".into()];
    let args = collect_trailing_args(&rest);
    assert!(args.is_empty());
}

#[test]
fn collect_trailing_args_keeps_assignments_after_rcfile() {
    let rest = vec!["rc".into(), "X=1".into(), "y".into()];
    assert_eq!(collect_trailing_args(&rest), vec!["X=1", "y"]);
}

#[test]
fn tests_resolve_rcpath_absolute() {
    let p = resolve_rcpath("/etc/rc", "/home/user");
    assert_eq!(p, "/etc/rc");
}

#[test]
fn tests_resolve_rcpath_dotslash() {
    let p = resolve_rcpath("./local.rc", "/home/user");
    assert_eq!(p, "./local.rc");
}

#[test]
fn tests_resolve_rcpath_relative_normal() {
    let p = resolve_rcpath("mail/filter.rc", "/home/user");
    assert_eq!(p, "/home/user/mail/filter.rc");
}

#[test]
fn resolve_rcpath_home_with_slash() {
    assert_eq!(resolve_rcpath("rc", "/home/user/"), "/home/user/rc");
    assert_eq!(resolve_rcpath("rc", ""), "rc");
}
