//! The action line of a recipe.

use vstd::prelude::*;
use vstd::slice::slice_subrange;

use super::recipe::{header_op_of, items_view, HeaderOp, HeaderOpModel, Item, ItemModel};
use super::{is_var_name_chars, spec_is_var_name};
use crate::text::{
    chars_of, find_char, find_char_in, is_ws, lemma_skip_ws_all, lemma_skip_ws_skip, skip_ws,
    skip_ws_from, starts_with_char, string_of_range, trim, trim_bounds, trim_start, whitespace,
};

verus! {

/// Index of the first whitespace character of `s` at or after `i` (or the
/// length).
pub open spec fn word_end(s: Seq<char>, i: nat) -> nat
    decreases s.len() - i,
{
    if i >= s.len() {
        s.len()
    } else if is_ws(s[i as int]) {
        i
    } else {
        word_end(s, i + 1)
    }
}

pub proof fn lemma_word_end(s: Seq<char>, i: nat)
    requires
        i < s.len(),
        !is_ws(s[i as int]),
    ensures
        i < word_end(s, i) <= s.len(),
    decreases s.len() - i,
{
    if i + 1 < s.len() && !is_ws(s[i + 1 as int]) {
        lemma_word_end(s, i + 1);
    } else if i + 1 < s.len() {
        assert(word_end(s, i + 1) == i + 1);
    } else {
        assert(word_end(s, i + 1) == s.len());
    }
}

/// The whitespace-separated words of `s` from index `i` on
/// (`str::split_whitespace`).
pub open spec fn words_from(s: Seq<char>, i: nat) -> Seq<Seq<char>>
    decreases s.len() - i,
{
    proof {
        if i <= s.len() {
            lemma_skip_ws_all(s, i);
        }
    }
    let a = skip_ws(s, i);
    if i > s.len() || a >= s.len() {
        Seq::empty()
    } else {
        proof {
            lemma_word_end(s, a);
        }
        let b = word_end(s, a);
        seq![s.subrange(a as int, b as int)] + words_from(s, b)
    }
}

/// The whitespace-separated words of `s`.
pub open spec fn words(s: Seq<char>) -> Seq<Seq<char>> {
    words_from(s, 0)
}

/// The views of a sequence of strings.
pub open spec fn strings_view(v: Seq<String>) -> Seq<Seq<char>> {
    v.map_values(|s: String| s@)
}

/// Model of an action line.
pub enum ActionModel {
    Folder(Seq<Seq<char>>),
    Pipe { cmd: Seq<char>, capture: Option<Seq<char>> },
    Forward(Seq<Seq<char>>),
    Nested(Seq<ItemModel>),
    DupeCheck { maxlen: Seq<char>, cache: Seq<char> },
    HeaderOp(HeaderOpModel),
}

/// The action line of a recipe
#[derive(Debug, PartialEq)]
pub enum Action {
    /// Deliver to one or more folders.
    Folder(Vec<String>),
    /// Pipe to program (optionally capture to variable).
    Pipe {
        /// Shell command to execute.
        cmd: String,
        /// Variable name for captured output (`VAR=|cmd`).
        capture: Option<String>,
    },
    /// Forward to addresses
    Forward(Vec<String>),
    /// Nested block
    Nested(Vec<Item>),
    /// Duplicate detection (`@D maxlen cache`).
    DupeCheck {
        /// Max cache size in bytes.
        maxlen: String,
        /// Path to the cache file.
        cache: String,
    },
    /// Header manipulation (`@i`/`@I`/`@a`/`@A`).
    HeaderOp(HeaderOp),
}

/// The model of an optional string.
pub open spec fn opt_view(o: Option<String>) -> Option<Seq<char>> {
    match o {
        Some(s) => Some(s@),
        None => None,
    }
}

/// The model of an action.
pub open spec fn action_view(a: Action) -> ActionModel
    decreases a, 0nat,
{
    match a {
        Action::Folder(v) => ActionModel::Folder(strings_view(v@)),
        Action::Pipe { cmd, capture } => ActionModel::Pipe { cmd: cmd@, capture: opt_view(capture) },
        Action::Forward(v) => ActionModel::Forward(strings_view(v@)),
        Action::Nested(items) => ActionModel::Nested(items_view(items@)),
        Action::DupeCheck { maxlen, cache } => ActionModel::DupeCheck { maxlen: maxlen@, cache: cache@ },
        Action::HeaderOp(op) => ActionModel::HeaderOp(op@),
    }
}

/// `VAR=| cmd`: the text before the first `=` is a variable name and the
/// text after it starts (after blanks) with `|`.
pub open spec fn capture_of(s: Seq<char>) -> Option<(Seq<char>, Seq<char>)> {
    match find_char(s, '=') {
        None => None,
        Some(eq) => {
            let before = s.take(eq as int);
            let after = trim_start(s.skip(eq + 1 as int));
            if starts_with_char(after, '|') && spec_is_var_name(before) {
                Some((before, trim_start(after.skip(1))))
            } else {
                None
            }
        },
    }
}

/// Index of the first whitespace character of `s` (`split_once` on
/// `char::is_whitespace`).
pub open spec fn first_ws(s: Seq<char>) -> Option<nat> {
    let k = word_end(s, 0);
    if k < s.len() {
        Some(k)
    } else {
        None
    }
}

/// `@D maxlen cache`.
pub open spec fn dupe_of(s: Seq<char>) -> Option<(Seq<char>, Seq<char>)> {
    if s.len() >= 2 && s[0] == '@' && s[1] == 'D' {
        let r = trim_start(s.skip(2));
        match first_ws(r) {
            None => None,
            Some(k) => Some((trim(r.take(k as int)), trim(r.skip(k + 1 as int)))),
        }
    } else {
        None
    }
}

/// What `Action::parse_line` makes of an action line: a forward (`!` and
/// at least one address), a captured pipe, a pipe, a duplicate check, a
/// header operation, or else folders.
pub open spec fn action_of(s0: Seq<char>) -> ActionModel {
    let s = trim(s0);
    if starts_with_char(s, '!') && words(s.skip(1)).len() > 0 {
        ActionModel::Forward(words(s.skip(1)))
    } else if capture_of(s) is Some {
        let (name, cmd) = capture_of(s).unwrap();
        ActionModel::Pipe { cmd, capture: Some(name) }
    } else if starts_with_char(s, '|') {
        ActionModel::Pipe { cmd: trim_start(s.skip(1)), capture: None }
    } else if dupe_of(s) is Some {
        let (maxlen, cache) = dupe_of(s).unwrap();
        ActionModel::DupeCheck { maxlen, cache }
    } else if header_op_of(s) is Some {
        ActionModel::HeaderOp(header_op_of(s).unwrap())
    } else {
        ActionModel::Folder(words(s))
    }
}

/// The whitespace-separated words of `v` from index `i` on.
pub fn words_in(v: &[char], i: usize) -> (r: Vec<String>)
    requires
        i <= v@.len(),
    ensures
        strings_view(r@) == words_from(v@, i as nat),
    decreases v@.len() - i,
{
    let a = skip_ws_from(v, i);
    proof {
        lemma_skip_ws_all(v@, i as nat);
    }
    if a >= v.len() {
        let r: Vec<String> = Vec::new();
        assert(strings_view(r@) =~= words_from(v@, i as nat));
        return r;
    }
    let mut b = a;
    while b < v.len() && !whitespace(v[b])
        invariant
            a <= b <= v@.len(),
            word_end(v@, a as nat) == word_end(v@, b as nat),
        decreases v@.len() - b,
    {
        b += 1;
    }
    proof {
        lemma_word_end(v@, a as nat);
    }
    let w = string_of_range(v, a, b);
    let rest = words_in(v, b);
    let mut r: Vec<String> = Vec::new();
    r.push(w);
    let mut rest = rest;
    r.append(&mut rest);
    assert(strings_view(r@) =~= words_from(v@, i as nat));
    r
}

impl Action {
    /// Parse an action line
    pub fn parse_line(s: &str) -> (r: Action)
        ensures
            action_view(r) == action_of(s@),
    {
        let v = chars_of(s);
        Self::parse_line_chars(v.as_slice())
    }

    /// `parse_line`, over characters.
    #[verifier::spinoff_prover]
    #[verifier::rlimit(40)]
    pub fn parse_line_chars(v0: &[char]) -> (r: Action)
        ensures
            action_view(r) == action_of(v0@),
    {
        let (ta, tb) = trim_bounds(v0);
        let v = slice_subrange(v0, ta, tb);
        let ghost s = v@;
        assert(s == trim(v0@));
        // Forward: ! addr1 addr2 ...
        if v.len() > 0 && v[0] == '!' {
            let addrs = words_in(v, 1);
            proof {
                lemma_words_shift(s, 1);
            }
            if addrs.len() > 0 {
                return Action::Forward(addrs);
            }
        }
        proof {
            if starts_with_char(s, '!') {
                lemma_words_shift(s, 1);
            }
        }
        // Pipe: VAR=| cmd
        if let Some(eq) = find_char_in(v, '=', 0) {
            let before = slice_subrange(v, 0, eq);
            let a = skip_ws_from(v, eq + 1);
            proof {
                lemma_skip_ws_skip(s, a as nat, (eq + 1) as nat);
                lemma_skip_ws_skip(s, (eq + 1) as nat, (eq + 1) as nat);
                assert(trim_start(s.skip(eq + 1)) =~= s.subrange(a as int, s.len() as int));
                assert(before@ =~= s.take(eq as int));
            }
            if a < v.len() && v[a] == '|' && is_var_name_chars(before) {
                let c = skip_ws_from(v, a + 1);
                proof {
                    lemma_skip_ws_skip(s, c as nat, (a + 1) as nat);
                    lemma_skip_ws_skip(s, (a + 1) as nat, (a + 1) as nat);
                    assert(s.subrange(a as int, s.len() as int).skip(1) =~= s.skip(a + 1));
                    assert(trim_start(s.subrange(a as int, s.len() as int).skip(1)) =~= s.subrange(
                        c as int,
                        s.len() as int,
                    ));
                }
                return Action::Pipe {
                    cmd: string_of_range(v, c, v.len()),
                    capture: Some(string_of_range(v, 0, eq)),
                };
            }
        }
        // Pipe: | cmd
        if v.len() > 0 && v[0] == '|' {
            let c = skip_ws_from(v, 1);
            proof {
                lemma_skip_ws_skip(s, c as nat, 1);
                lemma_skip_ws_skip(s, 1, 1);
                assert(trim_start(s.skip(1)) =~= s.subrange(c as int, s.len() as int));
            }
            return Action::Pipe { cmd: string_of_range(v, c, v.len()), capture: None };
        }
        // Duplicate check: @D maxlen cache
        if v.len() >= 2 && v[0] == '@' && v[1] == 'D' {
            let a = skip_ws_from(v, 2);
            proof {
                lemma_skip_ws_skip(s, a as nat, 2);
                lemma_skip_ws_skip(s, 2, 2);
                assert(trim_start(s.skip(2)) =~= s.subrange(a as int, s.len() as int));
            }
            let r = slice_subrange(v, a, v.len());
            let mut k: usize = 0;
            while k < r.len() && !whitespace(r[k])
                invariant
                    k <= r@.len(),
                    word_end(r@, 0) == word_end(r@, k as nat),
                decreases r@.len() - k,
            {
                k += 1;
            }
            if k < r.len() {
                let m = slice_subrange(r, 0, k);
                assert(m@ =~= r@.take(k as int));
                let (ma, mb) = trim_bounds(m);
                let c = slice_subrange(r, k + 1, r.len());
                assert(c@ =~= r@.skip(k + 1));
                let (ca, cb) = trim_bounds(c);
                return Action::DupeCheck {
                    maxlen: string_of_range(m, ma, mb),
                    cache: string_of_range(c, ca, cb),
                };
            }
        }
        if let Some(op) = HeaderOp::parse_chars(v) {
            return Action::HeaderOp(op);
        }
        // Otherwise it's folder path(s) (nested blocks handled at parser level)
        let paths = words_in(v, 0);
        Action::Folder(paths)
    }
}

/// The words of `s` after its first character are the words of its tail.
proof fn lemma_words_shift(s: Seq<char>, k: nat)
    requires
        k <= s.len(),
    ensures
        words(s.skip(k as int)) == words_from(s, k),
{
    lemma_words_shift_from(s, k, k);
}

proof fn lemma_words_shift_from(s: Seq<char>, k: nat, i: nat)
    requires
        k <= i <= s.len(),
    ensures
        words_from(s.skip(k as int), (i - k) as nat) == words_from(s, i),
    decreases s.len() - i,
{
    let t = s.skip(k as int);
    lemma_skip_ws_skip(s, i, k);
    lemma_skip_ws_all(s, i);
    let a = skip_ws(s, i);
    if a < s.len() {
        lemma_word_end(s, a);
        lemma_word_end_shift(s, k, a);
        let b = word_end(s, a);
        lemma_words_shift_from(s, k, b);
        assert(t.subrange(a - k, b - k) =~= s.subrange(a as int, b as int));
    }
}

proof fn lemma_word_end_shift(s: Seq<char>, k: nat, i: nat)
    requires
        k <= i <= s.len(),
    ensures
        word_end(s.skip(k as int), (i - k) as nat) + k == word_end(s, i),
    decreases s.len() - i,
{
    if i < s.len() {
        assert(s.skip(k as int)[i - k] == s[i as int]);
        if !is_ws(s[i as int]) {
            lemma_word_end_shift(s, k, i + 1);
        }
    }
}

} // verus!
