use rockmail::config::dump::{
    dump_items, fmt_action, fmt_cond, fmt_flags, fmt_item_str, fmt_recipe, fmt_subst_flags,
    printable, Piece,
};
use rockmail::config::{
    parse, Action, Condition, Flags, HeaderOp, Item, MailParts, Recipe, SizeOp, Weight,
};

fn number(s: &str) -> String {
    s.parse::<f64>().map(|v| v.to_string()).unwrap_or_else(|_| s.to_string())
}

/// The dump's text, each weight shown as `w^x `.
fn text(pieces: &[Piece]) -> String {
    let mut out = String::new();
    for p in pieces {
        match p {
            Piece::Text(t) => out.push_str(t),
            Piece::Weight(w) => out.push_str(&format!("{}^{} ", number(&w.w), number(&w.x))),
        }
    }
    out
}

fn flags() -> Flags {
    Flags::new()
}

fn recipe(f: Flags, conds: Vec<Condition>, action: Action) -> Recipe {
    Recipe::new(f, None, conds, action)
}

#[test]
fn flags_hb() {
    let f = Flags {
        grep: MailParts::Full,
        ..Flags::new()
    };
    assert!(fmt_flags(&f).contains("HB"));
}

#[test]
fn flags_all() {
    let f = Flags {
        grep: MailParts::Body,
        case: true,
        chain: true,
        succ: true,
        else_: true,
        err: true,
        pass: MailParts::Headers,
        filter: true,
        copy: true,
        wait: true,
        quiet: true,
        ignore: true,
        raw: true,
        ..Default::default()
    };
    let s = fmt_flags(&f);
    for kw in [
        "B ", "D ", "A ", "a ", "E ", "e ", "h ", "f ", "c ", "W ", "i ", "r ",
    ] {
        assert!(s.contains(kw), "missing {kw:?} in {s:?}");
    }
}

#[test]
fn subst_flags_combos() {
    assert_eq!(fmt_subst_flags(false, false), "");
    assert_eq!(fmt_subst_flags(true, false), "g");
    assert_eq!(fmt_subst_flags(false, true), "i");
    assert_eq!(fmt_subst_flags(true, true), "gi");
}

#[test]
fn flags_joined_in_order() {
    let f = Flags::parse("BDcw");
    assert_eq!(
        fmt_flags(&f),
        "B (grep body), D (case-sensitive), c (copy), w (wait)"
    );
    let g = Flags::parse("HBbW");
    assert_eq!(
        fmt_flags(&g),
        "HB (grep header+body), b (pass body), W (wait quietly)"
    );
}

#[test]
fn cond_regex() {
    let c = Condition::Regex {
        pattern: "^From:".into(),
        negate: false,
        weight: None,
    };
    let s = text(&fmt_cond(&c));
    assert!(s.contains("regex"));
}

#[test]
fn cond_regex_negated() {
    let c = Condition::Regex {
        pattern: "spam".into(),
        negate: true,
        weight: None,
    };
    assert!(text(&fmt_cond(&c)).contains("NOT"));
}

#[test]
fn cond_size() {
    for op in [SizeOp::Less, SizeOp::Greater] {
        let c = Condition::Size {
            op,
            bytes: 100,
            negate: false,
            weight: None,
        };
        let s = text(&fmt_cond(&c));
        assert!(s.contains("100"));
    }
}

#[test]
fn cond_size_negated() {
    let c = Condition::Size {
        op: SizeOp::Less,
        bytes: 50,
        negate: true,
        weight: None,
    };
    assert!(text(&fmt_cond(&c)).contains("!"));
}

#[test]
fn cond_shell() {
    let c = Condition::Shell {
        cmd: "test -f /tmp/x".into(),
        negate: false,
        weight: None,
    };
    assert!(text(&fmt_cond(&c)).contains("shell"));
}

#[test]
fn cond_variable() {
    let c = Condition::Variable {
        name: "FROM".into(),
        pattern: "user@".into(),
        weight: None,
    };
    let s = text(&fmt_cond(&c));
    assert!(s.contains("FROM"));
    assert!(s.contains("matches"));
}

#[test]
fn cond_subst() {
    let inner = Condition::Regex {
        pattern: "x".into(),
        negate: false,
        weight: None,
    };
    let c = Condition::Subst {
        inner: Box::new(inner),
        negate: true,
    };
    assert!(text(&fmt_cond(&c)).contains("NOT subst"));
}

#[test]
fn cond_weighted() {
    let c = Condition::Regex {
        pattern: "test".into(),
        negate: false,
        weight: Some(Weight { w: "2.0".into(), x: "0.8".into() }),
    };
    let s = text(&fmt_cond(&c));
    assert!(s.contains("2"));
    assert!(s.contains("0.8"));
}

#[test]
fn action_folder() {
    let a = Action::Folder(vec!["/tmp/inbox".into()]);
    assert!(text(&fmt_action(&a, 0)).contains("deliver to"));
}

#[test]
fn action_maildir() {
    let a = Action::Folder(vec!["/tmp/Maildir/".into()]);
    assert!(text(&fmt_action(&a, 0)).contains("Maildir"));
}

#[test]
fn action_pipe() {
    let a = Action::Pipe {
        cmd: "cat".into(),
        capture: None,
    };
    assert!(text(&fmt_action(&a, 0)).contains("pipe"));
}

#[test]
fn action_pipe_capture() {
    let a = Action::Pipe {
        cmd: "cat".into(),
        capture: Some("OUT".into()),
    };
    let s = text(&fmt_action(&a, 0));
    assert!(s.contains("pipe"));
    assert!(s.contains("OUT"));
}

#[test]
fn action_forward() {
    let a = Action::Forward(vec!["a@b".into(), "c@d".into()]);
    assert!(text(&fmt_action(&a, 0)).contains("forward"));
}

#[test]
fn action_nested() {
    let items = vec![Item::Assign {
        name: "X".into(),
        value: "1".into(),
        line: 1,
    }];
    let a = Action::Nested(items);
    assert!(text(&fmt_action(&a, 0)).contains("nested"));
}

#[test]
fn action_dupecheck() {
    let a = Action::DupeCheck {
        maxlen: "8192".into(),
        cache: "/tmp/cache".into(),
    };
    assert!(text(&fmt_action(&a, 0)).contains("@D"));
}

#[test]
fn item_assign() {
    let s = text(&fmt_item_str(
        &Item::Assign {
            name: "X".into(),
            value: "hello".into(),
            line: 1,
        },
        1,
        0,
    ));
    assert!(s.contains("ASSIGN"));
}

#[test]
fn item_unset() {
    let s = text(&fmt_item_str(
        &Item::Assign {
            name: "X".into(),
            value: String::new(),
            line: 1,
        },
        1,
        0,
    ));
    assert!(s.contains("UNSET"));
}

#[test]
fn item_recipe() {
    let r = recipe(flags(), vec![], Action::Folder(vec!["/dev/null".into()]));
    let s = text(&fmt_item_str(&Item::Recipe { recipe: r, line: 1 }, 1, 0));
    assert!(s.contains("RECIPE"));
}

#[test]
fn item_subst() {
    let s = text(&fmt_item_str(
        &Item::Subst {
            name: "X".into(),
            pattern: "a".into(),
            replace: "b".into(),
            global: true,
            case_insensitive: true,
            line: 1,
        },
        1,
        0,
    ));
    assert!(s.contains("SUBST"));
    assert!(s.contains("gi"));
}

#[test]
fn item_include() {
    let s = text(&fmt_item_str(
        &Item::Include {
            path: "/etc/rc".into(),
            line: 1,
        },
        1,
        0,
    ));
    assert!(s.contains("INCLUDERC"));
}

#[test]
fn item_switch() {
    let s = text(&fmt_item_str(
        &Item::Switch {
            path: "/etc/rc".into(),
            line: 1,
        },
        1,
        0,
    ));
    assert!(s.contains("SWITCHRC"));
}

#[test]
fn item_switch_abort() {
    let s = text(&fmt_item_str(
        &Item::Switch {
            path: String::new(),
            line: 1,
        },
        1,
        0,
    ));
    assert!(s.contains("abort"));
}

#[test]
fn recipe_with_lockfile() {
    let r = Recipe::new(
        flags(),
        Some("mylock".into()),
        vec![],
        Action::Folder(vec!["/tmp/mbox".into()]),
    );
    let mut out = Vec::new();
    fmt_recipe(&mut out, &r, 0);
    assert!(text(&out).contains("Lock: mylock"));
}

#[test]
fn recipe_with_auto_lockfile() {
    let r = Recipe::new(
        flags(),
        Some(String::new()),
        vec![],
        Action::Folder(vec!["/tmp/mbox".into()]),
    );
    let mut out = Vec::new();
    fmt_recipe(&mut out, &r, 0);
    assert!(text(&out).contains("(auto)"));
}

#[test]
fn recipe_with_conditions() {
    let conds = vec![
        Condition::Regex {
            pattern: "^Subject:".into(),
            negate: false,
            weight: None,
        },
        Condition::Size {
            op: SizeOp::Less,
            bytes: 500,
            negate: false,
            weight: None,
        },
    ];
    let r = recipe(flags(), conds, Action::Folder(vec!["/tmp/x".into()]));
    let mut out = Vec::new();
    fmt_recipe(&mut out, &r, 0);
    let s = text(&out);
    assert!(s.contains("Conditions:"));
    assert!(s.contains("1."));
    assert!(s.contains("2."));
}

#[test]
fn cond_texts_exact() {
    let c = Condition::Size { op: SizeOp::Greater, bytes: 1000, negate: true, weight: None };
    assert_eq!(text(&fmt_cond(&c)), "!size > 1000 bytes");
    let c = Condition::Variable { name: "X".into(), pattern: "a\"b".into(), weight: None };
    assert_eq!(text(&fmt_cond(&c)), "$X matches \"a\\\"b\"");
    let inner = Condition::Shell { cmd: "true".into(), negate: false, weight: None };
    let c = Condition::Subst { inner: Box::new(inner), negate: false };
    assert_eq!(text(&fmt_cond(&c)), "subst(shell \"true\")");
}

#[test]
fn cond_weight_is_a_piece() {
    let c = Condition::Regex {
        pattern: "x".into(),
        negate: true,
        weight: Some(Weight { w: "9876543210".into(), x: "0".into() }),
    };
    let pieces = fmt_cond(&c);
    assert_eq!(pieces.len(), 2);
    assert!(matches!(&pieces[0], Piece::Weight(w) if w.w == "9876543210" && w.x == "0"));
    assert_eq!(text(&pieces), "9876543210^0 NOT regex \"x\"");
}

#[test]
fn action_texts_exact() {
    let a = Action::Folder(vec!["a/".into(), "b".into()]);
    assert_eq!(text(&fmt_action(&a, 0)), "deliver to Maildir a/ b");
    let a = Action::Forward(vec!["x@y".into(), "z@w".into()]);
    assert_eq!(text(&fmt_action(&a, 0)), "forward to x@y, z@w");
    let a = Action::Pipe { cmd: "cat".into(), capture: Some("V".into()) };
    assert_eq!(text(&fmt_action(&a, 0)), "pipe to \"cat\", capture to $V");
    let a = Action::HeaderOp(HeaderOp::AddIfNot { field: "X-A".into(), value: "1".into() });
    assert_eq!(
        text(&fmt_action(&a, 0)),
        "header op AddIfNot { field: \"X-A\", value: \"1\" }"
    );
}

#[test]
fn nested_items_indent() {
    let inner = vec![Item::Include { path: "/x".into(), line: 2 }];
    let a = Action::Nested(inner);
    assert_eq!(
        text(&fmt_action(&a, 1)),
        "nested block:\n      1. [INCLUDERC] \"/x\"\n"
    );
}

#[test]
fn recipe_layout_exact() {
    let r = Recipe::new(
        Flags::parse("c"),
        None,
        vec![Condition::Regex { pattern: "^To:".into(), negate: false, weight: None }],
        Action::Folder(vec!["inbox".into()]),
    );
    let s = text(&fmt_item_str(&Item::Recipe { recipe: r, line: 3 }, 12, 0));
    assert_eq!(
        s,
        " 12. [RECIPE]\n  Flags: H (grep header), c (copy)\n  Delivering: true\n  Conditions:\n    1. regex \"^To:\"\n  Action: deliver to inbox\n"
    );
}

#[test]
fn dump_of_parsed_rcfile() {
    let rc = "MAILDIR=/tmp\n:0\n* ^From: test\n/dev/null\n";
    let items = parse(rc, "test.rc").unwrap();
    assert!(printable(&items));
    let s = text(&dump_items(&items, "test.rc"));
    assert!(s.starts_with("Parsed 2 items from test.rc\n\n"));
    assert!(s.contains("  1. [ASSIGN] MAILDIR = \"/tmp\"\n\n"));
    assert!(s.contains("  2. [RECIPE]\n"));
    assert!(s.ends_with("Action: deliver to /dev/null\n\n"));
    assert_eq!(text(&dump_items(&[], "empty.rc")), "Parsed 0 items from empty.rc\n\n");
}

#[test]
fn printable_needs_a_folder() {
    let r = recipe(flags(), vec![], Action::Folder(vec![]));
    assert!(!printable(&[Item::Recipe { recipe: r, line: 1 }]));
    let r = recipe(flags(), vec![], Action::Nested(vec![]));
    assert!(printable(&[Item::Recipe { recipe: r, line: 1 }]));
}
